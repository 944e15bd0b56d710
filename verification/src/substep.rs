//! Spending one time step in sub-steps.
//!
//! A ball that hits the curve part-way through a time step bounces and has the
//! rest of the step still to travel, in which it may hit again. Each sub-step
//! carries the ball to its next impact or to the end of the step and reports
//! whether the step is used up. The number of sub-steps is capped, so that a
//! ball resting on the curve cannot hold up the frame.

use vstd::prelude::*;

verus! {

/// The most sub-steps that one time step is given.
pub const SUBSTEP_LIMIT: u32 = 10;

/// Whether another sub-step follows once `done` of them are made and the last
/// one reported `settled`.
pub open spec fn goes_on(done: nat, settled: bool) -> bool {
    !settled && done < SUBSTEP_LIMIT
}

/// A record of sub-steps as `run` makes them: `states` holds the state before
/// the first sub-step and after each one, `settled` what each one reported.
/// Every sub-step follows from the state before it, none but the last
/// reported that the step was used up, and the last one did so or was the
/// last that the cap allows.
pub open spec fn is_run<S, F: Fn(S) -> (S, bool)>(
    step: F,
    states: Seq<S>,
    settled: Seq<bool>,
) -> bool {
    &&& states.len() == settled.len() + 1
    &&& 1 <= settled.len() <= SUBSTEP_LIMIT
    &&& forall|k: int|
        0 <= k < settled.len() ==> step.ensures((states[k],), (states[k + 1], #[trigger] settled[k]))
    &&& forall|k: int| 0 <= k < settled.len() - 1 ==> !#[trigger] settled[k]
    &&& !goes_on(settled.len(), settled.last())
}

/// The state after the last sub-step when each sub-step is the function `f`
/// of the state before it and `budget` sub-steps are still allowed.
pub open spec fn outcome<S>(f: spec_fn(S) -> (S, bool), start: S, budget: nat) -> S
    decreases budget,
{
    let (next, settled) = f(start);
    if settled || budget <= 1 {
        next
    } else {
        outcome(f, next, (budget - 1) as nat)
    }
}

/// Where the sub-step is a function of the state, the record leaves no
/// choice: from its `from`-th state on it ends where `outcome` says.
proof fn lemma_run_tail<S, F: Fn(S) -> (S, bool)>(
    step: F,
    f: spec_fn(S) -> (S, bool),
    states: Seq<S>,
    settled: Seq<bool>,
    from: nat,
)
    requires
        is_run(step, states, settled),
        forall|s: S, r: (S, bool)| step.ensures((s,), r) ==> r == f(s),
        from < settled.len(),
    ensures
        states.last() == outcome(f, states[from as int], (SUBSTEP_LIMIT - from) as nat),
    decreases settled.len() - from,
{
    let k = from as int;
    assert(step.ensures((states[k],), (states[k + 1], settled[k])));
    assert(f(states[k]) == (states[k + 1], settled[k]));
    if from + 1 < settled.len() {
        assert(!settled[k]);
        lemma_run_tail(step, f, states, settled, from + 1);
    }
}

/// A run is determined by its start where the sub-step is a function of the
/// state: it ends where `outcome` says, with the whole cap as its budget.
pub proof fn lemma_run_determined<S, F: Fn(S) -> (S, bool)>(
    step: F,
    f: spec_fn(S) -> (S, bool),
    states: Seq<S>,
    settled: Seq<bool>,
)
    requires
        is_run(step, states, settled),
        forall|s: S, r: (S, bool)| step.ensures((s,), r) ==> r == f(s),
    ensures
        states.last() == outcome(f, states[0], SUBSTEP_LIMIT as nat),
{
    lemma_run_tail(step, f, states, settled, 0);
}

/// Decides after a sub-step whether another one follows.
pub fn another(done: u32, settled: bool) -> (go: bool)
    ensures
        go == goes_on(done as nat, settled),
{
    !settled && done < SUBSTEP_LIMIT
}

/// Makes sub-steps from `start` until one reports that the step is used up,
/// or the cap is reached, and returns the state after the last of them.
/// `step` takes the state before a sub-step and returns the state after it
/// and whether the step is used up. At least one sub-step is made.
pub fn run<S, F: Fn(S) -> (S, bool)>(start: S, step: F) -> (end: S)
    requires
        forall|s: S| step.requires((s,)),
    ensures
        exists|states: Seq<S>, settled: Seq<bool>|
            #![trigger is_run(step, states, settled)]
            is_run(step, states, settled) && states[0] == start && states.last() == end,
{
    let ghost mut states: Seq<S> = seq![start];
    let ghost mut settled: Seq<bool> = Seq::empty();
    let mut state = start;
    let mut done: u32 = 0;
    loop
        invariant_except_break
            done < SUBSTEP_LIMIT,
            forall|k: int| 0 <= k < settled.len() ==> !#[trigger] settled[k],
        invariant
            forall|s: S| step.requires((s,)),
            settled.len() == done,
            states.len() == settled.len() + 1,
            states[0] == start,
            states.last() == state,
            forall|k: int|
                0 <= k < settled.len() ==> step.ensures(
                    (states[k],),
                    (states[k + 1], #[trigger] settled[k]),
                ),
        ensures
            is_run(step, states, settled),
        decreases SUBSTEP_LIMIT - done,
    {
        let ghost before = state;
        let (next, used_up) = step(state);
        proof {
            let prior_states = states;
            let prior_settled = settled;
            states = states.push(next);
            settled = settled.push(used_up);
            assert forall|k: int| 0 <= k < settled.len() implies step.ensures(
                (states[k],),
                (states[k + 1], #[trigger] settled[k]),
            ) by {
                if k < prior_settled.len() {
                    assert(states[k] == prior_states[k]);
                    assert(states[k + 1] == prior_states[k + 1]);
                    assert(settled[k] == prior_settled[k]);
                } else {
                    assert(states[k] == before);
                }
            }
        }
        state = next;
        done = done + 1;
        if !another(done, used_up) {
            break;
        }
    }
    state
}

} // verus!
