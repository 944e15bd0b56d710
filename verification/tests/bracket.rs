use ballz::bracket::{locate, Bracket, FULL_DEPTH, TOLERANCE_INVERSE};
use std::cell::RefCell;

/// The search as it reads in floating point: halve `[l, r]` until it is no
/// wider than the tolerance, and return the lower end.
fn float_search(crossed: impl Fn(f32) -> bool) -> f32 {
    let eps: f32 = 1.0 / TOLERANCE_INVERSE as f32;
    let mut l: f32 = 0.0;
    let mut r: f32 = 1.0;
    while r - l > eps {
        let mid = (l + r) / 2.0;
        if crossed(mid) {
            r = mid;
        } else {
            l = mid;
        }
    }
    l
}

fn fraction(f: (u32, u32)) -> f32 {
    f.0 as f32 / f.1 as f32
}

#[test]
fn unit_bracket_is_the_whole_step() {
    let b = Bracket::unit();
    assert_eq!(b.depth(), 0);
    assert_eq!(b.scale(), 1);
    assert_eq!(b.lower(), (0, 1));
    assert_eq!(b.midpoint(), (1, 2));
    assert_eq!(b.remainder(), (1, 1));
    assert!(!b.is_resolved());
}

#[test]
fn narrow_keeps_lower_half_when_crossed() {
    let b = Bracket::unit().narrow(true);
    assert_eq!(b.depth(), 1);
    assert_eq!(b.lower(), (0, 2));
    assert_eq!(b.midpoint(), (1, 4));
    assert_eq!(b.remainder(), (2, 2));
}

#[test]
fn narrow_keeps_upper_half_when_not_crossed() {
    let b = Bracket::unit().narrow(false);
    assert_eq!(b.depth(), 1);
    assert_eq!(b.lower(), (1, 2));
    assert_eq!(b.midpoint(), (3, 4));
    assert_eq!(b.remainder(), (1, 2));
}

#[test]
fn narrow_twice() {
    let b = Bracket::unit().narrow(true).narrow(false);
    assert_eq!(b.lower(), (1, 4));
    assert_eq!(b.midpoint(), (3, 8));
    let c = Bracket::unit().narrow(false).narrow(true);
    assert_eq!(c.lower(), (2, 4));
    assert_eq!(c.midpoint(), (5, 8));
    assert_eq!(c.remainder(), (2, 4));
}

#[test]
fn resolved_after_full_depth_and_not_before() {
    let mut b = Bracket::unit();
    let mut halvings = 0;
    while !b.is_resolved() {
        assert!(b.scale() < TOLERANCE_INVERSE);
        b = b.narrow(halvings % 2 == 0);
        halvings += 1;
    }
    assert_eq!(halvings, FULL_DEPTH);
    assert_eq!(b.depth(), FULL_DEPTH);
    assert_eq!(b.scale(), 16384);
}

#[test]
fn locate_makes_fourteen_probes() {
    let probes = RefCell::new(Vec::new());
    let found = locate(|num, scale| {
        probes.borrow_mut().push((num, scale));
        num * 3 > scale
    });
    assert_eq!(probes.borrow().len(), 14);
    assert_eq!(found.depth(), 14);
    assert!(found.is_resolved());
}

#[test]
fn locate_probes_the_midpoints() {
    let probes = RefCell::new(Vec::new());
    locate(|num, scale| {
        probes.borrow_mut().push((num, scale));
        num * 3 > scale
    });
    let probes = probes.into_inner();
    // one third lies in [0, 1/2], then [1/4, 1/2], then [1/4, 3/8], ...
    assert_eq!(probes[0], (1, 2));
    assert_eq!(probes[1], (1, 4));
    assert_eq!(probes[2], (3, 8));
    assert_eq!(probes[3], (5, 16));
    // after thirteen halvings the bracket is [2730/8192, 2731/8192]
    assert_eq!(probes[13], (5461, 16384));
}

#[test]
fn locate_encloses_one_third() {
    let found = locate(|num, scale| num * 3 > scale);
    assert_eq!(found.lower(), (5461, 16384));
    assert_eq!(found.remainder(), (10923, 16384));
    let (low, scale) = found.lower();
    assert!(low * 3 <= scale);
    assert!(scale < (low + 1) * 3);
}

#[test]
fn locate_when_crossed_from_the_start() {
    let found = locate(|_, _| true);
    assert_eq!(found.lower(), (0, 16384));
    assert_eq!(found.remainder(), (16384, 16384));
}

#[test]
fn locate_when_crossed_only_at_the_end() {
    let found = locate(|_, _| false);
    assert_eq!(found.lower(), (16383, 16384));
    assert_eq!(found.remainder(), (1, 16384));
}

#[test]
fn locate_encloses_every_threshold_of_a_grid() {
    for p in 0..97u32 {
        let found = locate(|num, scale| num * 97 > p * scale);
        let (low, scale) = found.lower();
        assert!(low * 97 <= p * scale, "lower end beyond {}/97", p);
        assert!(p * scale < (low + 1) * 97, "upper end not beyond {}/97", p);
    }
}

#[test]
fn locate_agrees_with_the_search_in_floating_point() {
    for k in 0..200 {
        let threshold = k as f32 / 199.0;
        let found = locate(|num, scale| num as f32 / scale as f32 > threshold);
        let expected = float_search(|mid| mid > threshold);
        assert_eq!(fraction(found.lower()), expected);
        assert_eq!(fraction(found.remainder()), 1.0 - expected);
    }
}

#[test]
fn locate_agrees_in_floating_point_when_crossed_twice() {
    // crossed between 0.2 and 0.45 and again beyond 0.7
    let crossed = |t: f32| (t > 0.2 && t < 0.45) || t > 0.7;
    let found = locate(|num, scale| crossed(num as f32 / scale as f32));
    assert_eq!(fraction(found.lower()), float_search(crossed));
}

#[test]
fn midpoints_are_exact_in_floating_point() {
    let mut l: f32 = 0.0;
    let mut r: f32 = 1.0;
    let mut b = Bracket::unit();
    let answers = [
        true, false, false, true, false, true, true, false, true, false, false, false, true, true,
    ];
    for crossed in answers {
        let mid = (l + r) / 2.0;
        assert_eq!(fraction(b.midpoint()), mid);
        if crossed {
            r = mid;
        } else {
            l = mid;
        }
        b = b.narrow(crossed);
        assert_eq!(fraction(b.lower()), l);
    }
    assert!(b.is_resolved());
    assert!(!(r - l > 0.0001));
}
