//! Polynomials as lists of terms.
//!
//! A polynomial is kept as the terms that make it up, each a coefficient and
//! the power of the variable that it multiplies. The coefficients are of any
//! type: they are stored and handed back, never computed with.

use vstd::prelude::*;

verus! {

/// The terms that a list of coefficients stands for when the coefficient at
/// place `i` multiplies the `i`-th power and the places marked in `keep` are
/// the ones that count: one term for each kept place, lowest power first.
pub open spec fn kept_terms<C>(coefs: Seq<C>, keep: Seq<bool>) -> Seq<(C, i32)>
    decreases coefs.len(),
{
    if coefs.len() == 0 || keep.len() != coefs.len() {
        Seq::empty()
    } else {
        let lower = kept_terms(coefs.drop_last(), keep.drop_last());
        if keep.last() {
            lower.push((coefs.last(), (coefs.len() - 1) as i32))
        } else {
            lower
        }
    }
}

/// How many of the first `upto` places are kept.
pub open spec fn kept_below(keep: Seq<bool>, upto: int) -> nat
    decreases upto,
{
    if upto <= 0 {
        0
    } else {
        kept_below(keep, upto - 1) + if keep[upto - 1] {
            1nat
        } else {
            0nat
        }
    }
}

/// There are as many terms as kept places.
pub proof fn lemma_kept_terms_len<C>(coefs: Seq<C>, keep: Seq<bool>)
    requires
        keep.len() == coefs.len(),
    ensures
        kept_terms(coefs, keep).len() == kept_below(keep, coefs.len() as int),
    decreases coefs.len(),
{
    if coefs.len() > 0 {
        lemma_kept_terms_len(coefs.drop_last(), keep.drop_last());
        lemma_kept_below_prefix(keep, keep.drop_last(), coefs.len() - 1);
    }
}

/// The count of kept places looks only at the places below `upto`.
proof fn lemma_kept_below_prefix(a: Seq<bool>, b: Seq<bool>, upto: int)
    requires
        upto <= a.len(),
        upto <= b.len(),
        forall|i: int| 0 <= i < upto ==> a[i] == b[i],
    ensures
        kept_below(a, upto) == kept_below(b, upto),
    decreases upto,
{
    if upto > 0 {
        lemma_kept_below_prefix(a, b, upto - 1);
    }
}

/// The terms stand in the order of their places: the count of kept places
/// never falls from one place to a higher one, and rises past a kept place.
pub proof fn lemma_kept_below_grows(keep: Seq<bool>, lo: int, hi: int)
    requires
        0 <= lo <= hi <= keep.len(),
    ensures
        kept_below(keep, lo) <= kept_below(keep, hi),
        lo < hi && keep[lo] ==> kept_below(keep, lo) < kept_below(keep, hi),
    decreases hi - lo,
{
    if lo < hi {
        if lo + 1 < hi {
            lemma_kept_below_grows(keep, lo, hi - 1);
        }
    }
}

/// Each kept place gives one term, which stands at the place that the count
/// of kept places below it says, and holds the coefficient and the power of
/// that place.
pub proof fn lemma_kept_terms_has<C>(coefs: Seq<C>, keep: Seq<bool>, place: int)
    requires
        keep.len() == coefs.len(),
        0 <= place < coefs.len(),
        keep[place],
    ensures
        kept_below(keep, place) < kept_terms(coefs, keep).len(),
        kept_terms(coefs, keep)[kept_below(keep, place) as int] == (coefs[place], place as i32),
    decreases coefs.len(),
{
    let n = coefs.len() as int;
    let lower = kept_terms(coefs.drop_last(), keep.drop_last());
    lemma_kept_terms_len(coefs.drop_last(), keep.drop_last());
    lemma_kept_below_prefix(keep, keep.drop_last(), n - 1);
    if place == n - 1 {
        assert(kept_terms(coefs, keep) == lower.push((coefs.last(), (n - 1) as i32)));
    } else {
        lemma_kept_terms_has(coefs.drop_last(), keep.drop_last(), place);
        lemma_kept_below_prefix(keep, keep.drop_last(), place);
    }
}

/// Each term comes from a kept place: it holds the coefficient and the power
/// of a place that is kept, and stands where the count of kept places below
/// that place says.
pub proof fn lemma_kept_terms_from<C>(coefs: Seq<C>, keep: Seq<bool>, at: int) -> (place: int)
    requires
        keep.len() == coefs.len(),
        0 <= at < kept_terms(coefs, keep).len(),
    ensures
        0 <= place < coefs.len(),
        keep[place],
        kept_below(keep, place) == at,
        kept_terms(coefs, keep)[at] == (coefs[place], place as i32),
    decreases coefs.len(),
{
    let n = coefs.len() as int;
    let lower = kept_terms(coefs.drop_last(), keep.drop_last());
    lemma_kept_terms_len(coefs.drop_last(), keep.drop_last());
    lemma_kept_below_prefix(keep, keep.drop_last(), n - 1);
    if keep.last() && at == lower.len() {
        n - 1
    } else {
        let place = lemma_kept_terms_from(coefs.drop_last(), keep.drop_last(), at);
        lemma_kept_below_prefix(keep, keep.drop_last(), place);
        place
    }
}

/// A polynomial: its terms, each a coefficient and the power of the variable
/// that it multiplies.
pub struct Polynomial<C> {
    components: Vec<(C, i32)>,
}

impl<C> View for Polynomial<C> {
    type V = Seq<(C, i32)>;

    closed spec fn view(&self) -> Seq<(C, i32)> {
        self.components@
    }
}

impl<C> Polynomial<C> {
    /// The polynomial with the given terms.
    pub fn new(components: Vec<(C, i32)>) -> (p: Self)
        ensures
            p@ == components@,
    {
        Polynomial { components }
    }

    /// The line `b + a x`.
    pub fn line(b: C, a: C) -> (p: Self)
        ensures
            p@ == seq![(b, 0i32), (a, 1i32)],
    {
        let mut components: Vec<(C, i32)> = Vec::new();
        components.push((b, 0));
        components.push((a, 1));
        proof {
            assert(components@ =~= seq![(b, 0i32), (a, 1i32)]);
        }
        Polynomial { components }
    }

    /// The parabola `c + b x + a x^2`.
    pub fn parabola(c: C, b: C, a: C) -> (p: Self)
        ensures
            p@ == seq![(c, 0i32), (b, 1i32), (a, 2i32)],
    {
        let mut components: Vec<(C, i32)> = Vec::new();
        components.push((c, 0));
        components.push((b, 1));
        components.push((a, 2));
        proof {
            assert(components@ =~= seq![(c, 0i32), (b, 1i32), (a, 2i32)]);
        }
        Polynomial { components }
    }

    /// The terms of the polynomial.
    pub fn components(&self) -> (terms: &Vec<(C, i32)>)
        ensures
            terms@ == self@,
    {
        &self.components
    }
}

impl<C: Copy> Polynomial<C> {
    /// The polynomial with the given coefficients, lowest power first. A
    /// coefficient gets a term if `counts` says so of it, as it will of the
    /// ones that are not zero. Each coefficient is asked about once, in order.
    pub fn nth<K: Fn(C) -> bool>(coefs: Vec<C>, counts: K) -> (p: Self)
        requires
            forall|c: C| counts.requires((c,)),
        ensures
            exists|keep: Seq<bool>|
                {
                    &&& keep.len() == coefs.len()
                    &&& forall|i: int|
                        0 <= i < coefs.len() ==> counts.ensures((coefs[i],), #[trigger] keep[i])
                    &&& p@ == kept_terms(coefs@, keep)
                },
    {
        let mut components: Vec<(C, i32)> = Vec::new();
        let ghost mut keep: Seq<bool> = Seq::empty();
        let mut i: usize = 0;
        while i < coefs.len()
            invariant
                forall|c: C| counts.requires((c,)),
                i <= coefs.len(),
                keep.len() == i,
                forall|k: int| 0 <= k < i ==> counts.ensures((coefs[k],), #[trigger] keep[k]),
                components@ == kept_terms(coefs@.take(i as int), keep),
            decreases coefs.len() - i,
        {
            let c = coefs[i];
            let kept = counts(c);
            proof {
                let longer = keep.push(kept);
                assert(coefs@.take(i + 1).drop_last() =~= coefs@.take(i as int));
                assert(longer.drop_last() =~= keep);
                keep = longer;
            }
            if kept {
                components.push((c, #[verifier::truncate] (i as i32)));
            }
            i = i + 1;
        }
        proof {
            assert(coefs@.take(i as int) =~= coefs@);
        }
        Polynomial { components }
    }
}

} // verus!
