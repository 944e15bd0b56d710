//! The pace of the simulation.
//!
//! The time step can be doubled and halved from the keyboard, within three
//! doublings either way of the step that the scene starts with. The pace is
//! kept as the number of doublings, its gear, so that the step is always the
//! starting step times an exact power of two.

use vstd::prelude::*;
use vstd::arithmetic::power2::{lemma2_to64, lemma_pow2_unfold, pow2};

verus! {

/// The highest gear: the time step is eight times the starting step.
pub const TOP_GEAR: i8 = 3;

/// The lowest gear: the time step is an eighth of the starting step.
pub const BOTTOM_GEAR: i8 = -3;

/// How often the balls are advanced by one time step between two frames.
pub const UPDATES_PER_FRAME: u32 = 100;

/// The gear closest to `gear` that the pace may have.
pub open spec fn clamped(gear: int) -> int {
    if gear < BOTTOM_GEAR {
        BOTTOM_GEAR as int
    } else if gear > TOP_GEAR {
        TOP_GEAR as int
    } else {
        gear
    }
}

/// The gear after one look at the keyboard. The key for faster doubles the
/// step and wins over the key for slower, which halves it; the result is
/// held within the gears that there are.
pub open spec fn shifted(gear: int, faster: bool, slower: bool) -> int {
    clamped(
        if faster {
            gear + 1
        } else if slower {
            gear - 1
        } else {
            gear
        },
    )
}

/// Numerator and denominator of `2^gear`.
pub open spec fn factor_of(gear: int) -> (nat, nat) {
    if gear >= 0 {
        (pow2(gear as nat), 1)
    } else {
        (1, pow2((-gear) as nat))
    }
}

/// Shifting never leaves the gears that there are.
pub proof fn lemma_shifted_in_range(gear: int, faster: bool, slower: bool)
    ensures
        BOTTOM_GEAR <= shifted(gear, faster, slower) <= TOP_GEAR,
{
}

/// Within the gears that there are, a shift moves by one gear at most, and by
/// exactly one unless no key is down or the pace is at the end of its range.
pub proof fn lemma_shifted_by_one(gear: int, faster: bool, slower: bool)
    requires
        BOTTOM_GEAR <= gear <= TOP_GEAR,
    ensures
        faster && gear < TOP_GEAR ==> shifted(gear, faster, slower) == gear + 1,
        faster && gear == TOP_GEAR ==> shifted(gear, faster, slower) == gear,
        !faster && slower && gear > BOTTOM_GEAR ==> shifted(gear, faster, slower) == gear - 1,
        !faster && slower && gear == BOTTOM_GEAR ==> shifted(gear, faster, slower) == gear,
        !faster && !slower ==> shifted(gear, faster, slower) == gear,
{
}

/// One gear up doubles the factor: as fractions, the factor of the higher
/// gear is twice that of the lower.
pub proof fn lemma_factor_doubles(gear: int)
    ensures
        factor_of(gear + 1).0 * factor_of(gear).1 == 2 * (factor_of(gear).0 * factor_of(gear + 1).1),
{
    let (n0, d0) = factor_of(gear);
    let (n1, d1) = factor_of(gear + 1);
    lemma2_to64();
    if gear >= 0 {
        lemma_pow2_unfold((gear + 1) as nat);
        assert(n1 * d0 == 2 * (n0 * d1)) by (nonlinear_arith)
            requires
                n1 == 2 * n0,
                d0 == 1,
                d1 == 1,
        ;
    } else {
        lemma_pow2_unfold((-gear) as nat);
        assert(n1 * d0 == 2 * (n0 * d1)) by (nonlinear_arith)
            requires
                d0 == 2 * d1,
                n0 == 1,
                n1 == 1,
        ;
    }
}

/// The pace of the simulation.
#[derive(Clone, Copy, Debug)]
pub struct Pace {
    gear: i8,
}

impl View for Pace {
    type V = int;

    closed spec fn view(&self) -> int {
        self.gear as int
    }
}

impl Pace {
    #[verifier::type_invariant]
    spec fn inv(self) -> bool {
        self.wf()
    }

    /// The gear is one of those that there are.
    pub open spec fn wf(&self) -> bool {
        BOTTOM_GEAR <= self@ <= TOP_GEAR
    }

    /// The pace that the scene starts with.
    pub fn start() -> (p: Pace)
        ensures
            p@ == 0,
            p.wf(),
    {
        Pace { gear: 0 }
    }

    /// The number of doublings of the starting step; negative for halvings.
    pub fn gear(&self) -> (g: i8)
        ensures
            g == self@,
            self.wf(),
    {
        proof {
            use_type_invariant(self);
        }
        self.gear
    }

    /// The pace after one look at the keyboard.
    pub fn shift(&self, faster: bool, slower: bool) -> (p: Pace)
        ensures
            p@ == shifted(self@, faster, slower),
            p.wf(),
    {
        proof {
            use_type_invariant(self);
        }
        let wanted: i8 = if faster {
            self.gear + 1
        } else if slower {
            self.gear - 1
        } else {
            self.gear
        };
        let gear: i8 = if wanted < BOTTOM_GEAR {
            BOTTOM_GEAR
        } else if wanted > TOP_GEAR {
            TOP_GEAR
        } else {
            wanted
        };
        Pace { gear }
    }

    /// What the starting step is multiplied by, as numerator and denominator.
    pub fn factor(&self) -> (f: (u32, u32))
        ensures
            f.0 == factor_of(self@).0,
            f.1 == factor_of(self@).1,
            self.wf(),
    {
        proof {
            use_type_invariant(self);
            lemma2_to64();
        }
        match self.gear {
            -3 => (1, 8),
            -2 => (1, 4),
            -1 => (1, 2),
            0 => (1, 1),
            1 => (2, 1),
            2 => (4, 1),
            _ => (8, 1),
        }
    }
}

} // verus!
