//! Time-of-impact search by interval halving.
//!
//! A moving point that ends a step on the wrong side of a boundary crossed it
//! somewhere within the step. The search keeps a bracket of step fractions,
//! starting from the whole step, and halves it: the midpoint is probed, and
//! the half that still holds the crossing is kept. Every bracket is a dyadic
//! interval, so its ends are held exactly as a numerator over a power of two.
//! Probing is left to the caller; the bookkeeping and what it guarantees are
//! here.

use vstd::prelude::*;
use vstd::arithmetic::div_mod::{
    lemma_div_denominator, lemma_fundamental_div_mod, lemma_fundamental_div_mod_converse,
};
use vstd::arithmetic::power2::{
    lemma2_to64, lemma_pow2_adds, lemma_pow2_pos, lemma_pow2_strictly_increases, lemma_pow2_unfold,
    pow2,
};
use vstd::bits::lemma_u32_shl_is_mul;

verus! {

/// Inverse of the search tolerance: a bracket is resolved once its width is
/// at most `1 / TOLERANCE_INVERSE` of the step.
pub const TOLERANCE_INVERSE: u32 = 10_000;

/// Number of halvings that resolve the unit bracket.
pub const FULL_DEPTH: u32 = 14;

/// The dyadic interval `[low / 2^depth, (low + 1) / 2^depth]`.
pub struct Interval {
    pub low: nat,
    pub depth: nat,
}

impl Interval {
    /// The whole step, `[0, 1]`.
    pub open spec fn unit() -> Interval {
        Interval { low: 0, depth: 0 }
    }

    /// Common denominator of both ends.
    pub open spec fn scale(self) -> nat {
        pow2(self.depth)
    }

    /// The interval lies within `[0, 1]`.
    pub open spec fn wf(self) -> bool {
        self.low < self.scale()
    }

    /// Numerator of the midpoint, over `mid_scale`.
    pub open spec fn mid_num(self) -> nat {
        2 * self.low + 1
    }

    /// Denominator of the midpoint.
    pub open spec fn mid_scale(self) -> nat {
        2 * self.scale()
    }

    /// The width is within the tolerance.
    pub open spec fn resolved(self) -> bool {
        self.scale() >= TOLERANCE_INVERSE
    }

    /// The half that is kept after a probe of the midpoint: the lower half
    /// when the boundary was already crossed there, the upper half otherwise.
    pub open spec fn narrow(self, crossed: bool) -> Interval {
        Interval { low: 2 * self.low + if crossed { 0nat } else { 1nat }, depth: self.depth + 1 }
    }

    /// The interval of depth `level` that this one was narrowed from.
    pub open spec fn ancestor(self, level: nat) -> Interval
        recommends
            level <= self.depth,
    {
        Interval { low: self.low / pow2((self.depth - level) as nat), depth: level }
    }

    /// Whether the narrowing at depth `level` kept the lower half.
    pub open spec fn kept_lower(self, level: nat) -> bool
        recommends
            level < self.depth,
    {
        self.ancestor(level + 1).low % 2 == 0
    }

    /// `low / scale <= p / q`: the lower end does not exceed the fraction.
    pub open spec fn lower_at_most(self, p: nat, q: nat) -> bool {
        self.low * q <= p * self.scale()
    }

    /// `p / q < (low + 1) / scale`: the upper end exceeds the fraction.
    pub open spec fn upper_above(self, p: nat, q: nat) -> bool {
        p * self.scale() < (self.low + 1) * q
    }

    /// The interval was reached by probing with `crossed`: at every depth on
    /// the way, the half that was kept is the one that `crossed` called for
    /// when it was handed the midpoint of that depth.
    pub open spec fn probed_by<F: Fn(u32, u32) -> bool>(self, crossed: F) -> bool {
        forall|level: nat|
            level < self.depth ==> crossed.ensures(
                (self.ancestor(level).mid_num() as u32, self.ancestor(level).mid_scale() as u32),
                #[trigger] self.kept_lower(level),
            )
    }

    /// Every probe on the way to this interval answered as a boundary that is
    /// crossed exactly beyond the fraction `p / q` of the step would.
    pub open spec fn answers_follow(self, p: nat, q: nat) -> bool {
        forall|level: nat|
            level < self.depth ==> (#[trigger] self.kept_lower(level) <==> self.ancestor(
                level,
            ).mid_num() * q > p * self.ancestor(level).mid_scale())
    }
}

/// A narrowed interval stays within `[0, 1]`.
pub proof fn lemma_narrow_wf(i: Interval, crossed: bool)
    requires
        i.wf(),
    ensures
        i.narrow(crossed).wf(),
        i.narrow(crossed).scale() == 2 * i.scale(),
{
    lemma_pow2_unfold(i.depth + 1);
}

/// Narrowing keeps one half of the interval: the kept half lies inside the
/// interval, shares its midpoint as one end, and is half as wide.
pub proof fn lemma_narrow_halves(i: Interval, crossed: bool)
    requires
        i.wf(),
    ensures
        ({
            let n = i.narrow(crossed);
            &&& n.scale() == i.mid_scale()
            &&& crossed ==> n.low == 2 * i.low && n.low + 1 == i.mid_num()
            &&& !crossed ==> n.low == i.mid_num() && n.low + 1 == 2 * (i.low + 1)
        }),
{
    lemma_pow2_unfold(i.depth + 1);
}

/// An interval is its own ancestor at its own depth, and the unit interval is
/// the ancestor of every well-formed interval at depth zero.
pub proof fn lemma_ancestor_ends(i: Interval)
    requires
        i.wf(),
    ensures
        i.ancestor(i.depth) == i,
        i.ancestor(0) == Interval::unit(),
{
    lemma2_to64();
    assert(i.low / pow2(0) == i.low);
    lemma_fundamental_div_mod_converse(i.low as int, pow2(i.depth) as int, 0, i.low as int);
}

/// Narrowing adds one level and leaves the earlier ancestors as they were.
pub proof fn lemma_narrow_ancestor(i: Interval, crossed: bool, level: nat)
    requires
        level <= i.depth,
    ensures
        i.narrow(crossed).ancestor(level) == i.ancestor(level),
        i.narrow(crossed).ancestor(i.depth + 1) == i.narrow(crossed),
        i.narrow(crossed).kept_lower(i.depth) == crossed,
{
    let n = i.narrow(crossed);
    let bit: nat = if crossed { 0 } else { 1 };
    let rest = pow2((i.depth - level) as nat);
    lemma2_to64();
    lemma_pow2_pos((i.depth - level) as nat);
    lemma_pow2_unfold((n.depth - level) as nat);
    assert(n.low / 2 == i.low) by {
        lemma_fundamental_div_mod_converse(n.low as int, 2, i.low as int, bit as int);
    }
    assert(n.low / (2 * rest) == (n.low / 2) / rest) by {
        lemma_div_denominator(n.low as int, 2, rest as int);
    }
    assert(n.low / pow2(0) == n.low);
    assert(n.low % 2 == bit) by {
        lemma_fundamental_div_mod_converse(n.low as int, 2, i.low as int, bit as int);
    }
}

/// The ancestors of an ancestor are ancestors of the interval itself.
pub proof fn lemma_ancestor_of_ancestor(i: Interval, mid: nat, level: nat)
    requires
        level <= mid <= i.depth,
    ensures
        i.ancestor(mid).ancestor(level) == i.ancestor(level),
{
    let upper = pow2((i.depth - mid) as nat);
    let lower = pow2((mid - level) as nat);
    lemma_pow2_pos((i.depth - mid) as nat);
    lemma_pow2_pos((mid - level) as nat);
    lemma_pow2_adds((i.depth - mid) as nat, (mid - level) as nat);
    lemma_div_denominator(i.low as int, upper as int, lower as int);
}

/// The ancestors of a well-formed interval are well-formed, and no finer than
/// the interval itself.
pub proof fn lemma_ancestor_bounded(i: Interval, level: nat)
    requires
        i.wf(),
        level <= i.depth,
    ensures
        i.ancestor(level).wf(),
        i.ancestor(level).low <= i.low,
        i.ancestor(level).scale() <= i.scale(),
{
    let rest = pow2((i.depth - level) as nat);
    lemma_pow2_pos((i.depth - level) as nat);
    lemma_pow2_adds(level, (i.depth - level) as nat);
    lemma_pow2_pos(level);
    let a = i.ancestor(level);
    lemma_fundamental_div_mod(i.low as int, rest as int);
    assert(a.low <= i.low && a.low < a.scale() && a.scale() <= i.scale()) by (nonlinear_arith)
        requires
            i.low == rest * a.low + (i.low as int % rest as int),
            0 <= (i.low as int % rest as int) < rest,
            i.scale() == a.scale() * rest,
            i.low < i.scale(),
            0 < rest,
            0 < a.scale(),
    ;
}

/// An interval is resolved exactly from depth `FULL_DEPTH` on.
pub proof fn lemma_resolved_at_full_depth(i: Interval)
    ensures
        i.resolved() <==> i.depth >= FULL_DEPTH,
{
    lemma2_to64();
    if i.depth > 14 {
        lemma_pow2_strictly_increases(14, i.depth);
    }
    if i.depth < 13 {
        lemma_pow2_strictly_increases(i.depth, 13);
    }
}

/// Bisection is sound for a boundary that is crossed once: if the boundary is
/// crossed exactly beyond the fraction `p / q` of the step, and every probe
/// answered accordingly, then the interval reached encloses that fraction.
pub proof fn lemma_threshold_enclosed(i: Interval, p: nat, q: nat)
    requires
        i.wf(),
        p < q,
        i.answers_follow(p, q),
    ensures
        i.lower_at_most(p, q),
        i.upper_above(p, q),
    decreases i.depth,
{
    if i.depth == 0 {
        lemma2_to64();
        assert(i.low == 0 && i.scale() == 1);
        assert(i.low * q <= p * i.scale() && p * i.scale() < (i.low + 1) * q) by (nonlinear_arith)
            requires
                i.low == 0,
                i.scale() == 1,
                p < q,
        ;
    } else {
        let parent = i.ancestor((i.depth - 1) as nat);
        let crossed = i.low % 2 == 0;
        lemma2_to64();
        lemma_pow2_unfold(i.depth);
        assert(i.low == 2 * parent.low + i.low % 2) by {
            lemma_fundamental_div_mod(i.low as int, 2);
        }
        assert(i == parent.narrow(crossed));
        assert forall|level: nat| level < parent.depth implies (#[trigger] parent.kept_lower(level)
            <==> parent.ancestor(level).mid_num() * q > p * parent.ancestor(level).mid_scale()) by {
            lemma_ancestor_of_ancestor(i, parent.depth, level);
            lemma_ancestor_of_ancestor(i, parent.depth, level + 1);
            assert(i.kept_lower(level) == parent.kept_lower(level));
        }
        lemma_threshold_enclosed(parent, p, q);
        lemma_ancestor_ends(i);
        assert(i.kept_lower(parent.depth) == crossed);
        let s = parent.scale();
        let l = parent.low;
        assert(crossed <==> (2 * l + 1) * q > p * (2 * s));
        assert(i.scale() == 2 * s);
        if crossed {
            assert(i.low * q <= p * i.scale() && p * i.scale() < (i.low + 1) * q) by (nonlinear_arith)
                requires
                    i.low == 2 * l,
                    i.scale() == 2 * s,
                    l * q <= p * s,
                    (2 * l + 1) * q > p * (2 * s),
            ;
        } else {
            assert(i.low * q <= p * i.scale() && p * i.scale() < (i.low + 1) * q) by (nonlinear_arith)
                requires
                    i.low == 2 * l + 1,
                    i.scale() == 2 * s,
                    p * s < (l + 1) * q,
                    (2 * l + 1) * q <= p * (2 * s),
            ;
        }
    }
}

/// The search finds a boundary that is crossed once: if `crossed` says yes
/// exactly of the fractions beyond `p / q`, an interval that was reached by
/// probing with it encloses `p / q`.
pub proof fn lemma_probed_encloses<F: Fn(u32, u32) -> bool>(
    crossed: F,
    found: Interval,
    p: nat,
    q: nat,
)
    requires
        found.wf(),
        found.depth <= FULL_DEPTH,
        found.probed_by(crossed),
        p < q,
        forall|num: u32, scale: u32, answer: bool|
            crossed.ensures((num, scale), answer) ==> (answer <==> num * q > p * scale),
    ensures
        found.lower_at_most(p, q),
        found.upper_above(p, q),
{
    assert forall|level: nat| level < found.depth implies (#[trigger] found.kept_lower(level)
        <==> found.ancestor(level).mid_num() * q > p * found.ancestor(level).mid_scale()) by {
        lemma_ancestor_bounded(found, level);
        found.lemma_scale_bounded();
        let above = found.ancestor(level);
        assert(crossed.ensures(
            (above.mid_num() as u32, above.mid_scale() as u32),
            found.kept_lower(level),
        ));
    }
    lemma_threshold_enclosed(found, p, q);
}

/// A bracket of step fractions that holds the crossing, as the search keeps it.
#[derive(Clone, Copy, Debug)]
pub struct Bracket {
    low: u32,
    depth: u32,
}

impl View for Bracket {
    type V = Interval;

    closed spec fn view(&self) -> Interval {
        Interval { low: self.low as nat, depth: self.depth as nat }
    }
}

impl Bracket {
    #[verifier::type_invariant]
    spec fn inv(self) -> bool {
        self.wf()
    }

    /// The bracket lies within the step and is no deeper than the search goes.
    pub open spec fn wf(&self) -> bool {
        self@.wf() && self@.depth <= FULL_DEPTH
    }

    /// The whole step.
    pub fn unit() -> (b: Bracket)
        ensures
            b.wf(),
            b@ == Interval::unit(),
    {
        proof {
            lemma2_to64();
        }
        Bracket { low: 0, depth: 0 }
    }

    /// Number of halvings made so far.
    pub fn depth(&self) -> (d: u32)
        ensures
            d == self@.depth,
            self.wf(),
    {
        proof {
            use_type_invariant(self);
        }
        self.depth
    }

    /// Common denominator of the bracket's ends.
    pub fn scale(&self) -> (s: u32)
        ensures
            s == self@.scale(),
            self.wf(),
    {
        proof {
            use_type_invariant(self);
            self@.lemma_scale_bounded();
            lemma_u32_shl_is_mul(1, self.depth);
        }
        1u32 << self.depth
    }

    /// The lower end, as numerator and denominator.
    pub fn lower(&self) -> (f: (u32, u32))
        ensures
            f.0 == self@.low,
            f.1 == self@.scale(),
            self.wf(),
    {
        (self.low, self.scale())
    }

    /// The midpoint, as numerator and denominator.
    pub fn midpoint(&self) -> (f: (u32, u32))
        ensures
            f.0 == self@.mid_num(),
            f.1 == self@.mid_scale(),
            self.wf(),
    {
        let s = self.scale();
        proof {
            self@.lemma_scale_bounded();
        }
        (2 * self.low + 1, 2 * s)
    }

    /// What is left of the step after the lower end, `1 - low / scale`, as
    /// numerator and denominator.
    pub fn remainder(&self) -> (f: (u32, u32))
        ensures
            f.0 == self@.scale() - self@.low,
            f.1 == self@.scale(),
            self.wf(),
    {
        let s = self.scale();
        (s - self.low, s)
    }

    /// Whether the bracket is within the tolerance.
    pub fn is_resolved(&self) -> (r: bool)
        ensures
            r == self@.resolved(),
            self.wf(),
    {
        self.scale() >= TOLERANCE_INVERSE
    }

    /// Keeps one half of the bracket after a probe of its midpoint: the lower
    /// half if the boundary was already crossed there, the upper half if not.
    pub fn narrow(&self, crossed: bool) -> (b: Bracket)
        requires
            !self@.resolved(),
        ensures
            b.wf(),
            b@ == self@.narrow(crossed),
    {
        proof {
            use_type_invariant(self);
            lemma_resolved_at_full_depth(self@);
            lemma_narrow_wf(self@, crossed);
            self@.lemma_scale_bounded();
        }
        let bit: u32 = if crossed { 0 } else { 1 };
        Bracket { low: 2 * self.low + bit, depth: self.depth + 1 }
    }
}

impl Interval {
    /// Down to `FULL_DEPTH` the denominator is at most `2^14`.
    pub proof fn lemma_scale_bounded(self)
        requires
            self.depth <= FULL_DEPTH,
        ensures
            0 < self.scale() <= 16384,
    {
        lemma2_to64();
        lemma_pow2_pos(self.depth);
        if self.depth < 14 {
            lemma_pow2_strictly_increases(self.depth, 14);
        }
    }
}

/// Runs the search from the whole step until the bracket is resolved. `crossed`
/// is handed the numerator and denominator of each midpoint in turn and says
/// whether the boundary is already crossed at that fraction of the step.
///
/// The result is resolved after exactly `FULL_DEPTH` probes, and at each depth
/// the half that was kept is the one that the probe of that depth's midpoint
/// called for.
pub fn locate<F: Fn(u32, u32) -> bool>(crossed: F) -> (found: Bracket)
    requires
        forall|num: u32, scale: u32| crossed.requires((num, scale)),
    ensures
        found.wf(),
        found@.resolved(),
        found@.depth == FULL_DEPTH,
        found@.probed_by(crossed),
{
    let mut bracket = Bracket::unit();
    while !bracket.is_resolved()
        invariant
            bracket.wf(),
            forall|num: u32, scale: u32| crossed.requires((num, scale)),
            bracket@.probed_by(crossed),
        decreases FULL_DEPTH - bracket@.depth,
    {
        let mid = bracket.midpoint();
        let answer = crossed(mid.0, mid.1);
        let next = bracket.narrow(answer);
        proof {
            lemma_resolved_at_full_depth(bracket@);
            lemma_ancestor_ends(bracket@);
            assert forall|level: nat| level < next@.depth implies crossed.ensures(
                (next@.ancestor(level).mid_num() as u32, next@.ancestor(level).mid_scale() as u32),
                #[trigger] next@.kept_lower(level),
            ) by {
                if level < bracket@.depth {
                    lemma_narrow_ancestor(bracket@, answer, level);
                    lemma_narrow_ancestor(bracket@, answer, level + 1);
                    assert(next@.kept_lower(level) == bracket@.kept_lower(level));
                } else {
                    lemma_narrow_ancestor(bracket@, answer, level);
                }
            }
        }
        bracket = next;
    }
    proof {
        lemma_resolved_at_full_depth(bracket@);
    }
    bracket
}

} // verus!
