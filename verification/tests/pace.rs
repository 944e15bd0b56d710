use ballz::pace::{Pace, BOTTOM_GEAR, TOP_GEAR, UPDATES_PER_FRAME};

const START_DT: f32 = 0.002;

fn step_of(pace: &Pace) -> f32 {
    let (num, den) = pace.factor();
    START_DT * num as f32 / den as f32
}

#[test]
fn pace_starts_in_gear_zero() {
    let pace = Pace::start();
    assert_eq!(pace.gear(), 0);
    assert_eq!(pace.factor(), (1, 1));
}

#[test]
fn shift_up_and_down() {
    let pace = Pace::start();
    assert_eq!(pace.shift(true, false).gear(), 1);
    assert_eq!(pace.shift(false, true).gear(), -1);
    assert_eq!(pace.shift(false, false).gear(), 0);
}

#[test]
fn faster_wins_over_slower() {
    assert_eq!(Pace::start().shift(true, true).gear(), 1);
}

#[test]
fn shift_is_held_at_the_top() {
    let mut pace = Pace::start();
    for _ in 0..5 {
        pace = pace.shift(true, false);
    }
    assert_eq!(pace.gear(), TOP_GEAR);
    assert_eq!(pace.factor(), (8, 1));
    assert_eq!(pace.shift(false, true).gear(), 2);
}

#[test]
fn shift_is_held_at_the_bottom() {
    let mut pace = Pace::start();
    for _ in 0..5 {
        pace = pace.shift(false, true);
    }
    assert_eq!(pace.gear(), BOTTOM_GEAR);
    assert_eq!(pace.factor(), (1, 8));
    assert_eq!(pace.shift(true, false).gear(), -2);
}

#[test]
fn factor_of_every_gear() {
    let mut pace = Pace::start();
    for _ in 0..3 {
        pace = pace.shift(false, true);
    }
    let mut factors = Vec::new();
    for _ in 0..7 {
        factors.push(pace.factor());
        pace = pace.shift(true, false);
    }
    assert_eq!(factors, vec![(1, 8), (1, 4), (1, 2), (1, 1), (2, 1), (4, 1), (8, 1)]);
}

#[test]
fn updates_per_frame() {
    assert_eq!(UPDATES_PER_FRAME, 100);
}

#[test]
fn step_agrees_with_doubling_and_halving_in_floating_point() {
    // the keys of a session, as pairs of faster and slower
    let keys = [
        (true, false), (true, false), (false, false), (true, true), (true, false),
        (true, false), (false, true), (false, true), (false, true), (false, true),
        (false, true), (false, true), (false, true), (false, true), (false, false),
        (true, false), (false, true), (true, false), (true, false), (true, false),
    ];
    let mut dt = START_DT;
    let mut pace = Pace::start();
    for (faster, slower) in keys {
        if faster {
            dt *= 2.0;
        } else if slower {
            dt /= 2.0;
        }
        dt = dt.clamp(START_DT / 8.0, START_DT * 8.0);
        pace = pace.shift(faster, slower);
        assert_eq!(step_of(&pace), dt);
    }
}
