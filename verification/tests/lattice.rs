use ballz::lattice::{lattice, seed_points, SEED_STRIDE, WINDOW_HEIGHT, WINDOW_WIDTH};

fn by_stepping(width: u32, height: u32, stride: u32) -> Vec<(u32, u32)> {
    let mut points = Vec::new();
    for x in (0..width).step_by(stride as usize) {
        for y in (0..height).step_by(stride as usize) {
            points.push((x, y));
        }
    }
    points
}

#[test]
fn lattice_small() {
    assert_eq!(
        lattice(25, 11, 10),
        vec![(0, 0), (0, 10), (10, 0), (10, 10), (20, 0), (20, 10)]
    );
}

#[test]
fn lattice_extent_on_a_multiple_of_the_stride() {
    assert_eq!(lattice(20, 10, 10), vec![(0, 0), (10, 0)]);
    assert_eq!(lattice(21, 10, 10), vec![(0, 0), (10, 0), (20, 0)]);
}

#[test]
fn lattice_stride_one_holds_every_pixel() {
    assert_eq!(lattice(2, 3, 1), vec![(0, 0), (0, 1), (0, 2), (1, 0), (1, 1), (1, 2)]);
}

#[test]
fn lattice_of_an_empty_rectangle_is_empty() {
    assert!(lattice(0, 100, 10).is_empty());
    assert!(lattice(100, 0, 10).is_empty());
    assert!(lattice(0, 0, 1).is_empty());
}

#[test]
fn lattice_stride_beyond_the_extent() {
    assert_eq!(lattice(5, 7, 10), vec![(0, 0)]);
}

#[test]
fn lattice_at_the_end_of_the_number_range() {
    assert_eq!(lattice(u32::MAX, 1, u32::MAX), vec![(0, 0)]);
    assert_eq!(lattice(u32::MAX, 1, u32::MAX - 1), vec![(0, 0), (u32::MAX - 1, 0)]);
    assert_eq!(
        lattice(1, u32::MAX, 1 << 31),
        vec![(0, 0), (0, 1 << 31)]
    );
}

#[test]
fn lattice_agrees_with_stepping() {
    for (width, height, stride) in
        [(540, 1080, 10), (37, 53, 7), (64, 64, 8), (1, 1, 1), (100, 3, 33), (9, 200, 10)]
    {
        assert_eq!(lattice(width, height, stride), by_stepping(width, height, stride));
    }
}

#[test]
fn seed_points_cover_the_left_half_of_the_window() {
    let seeds = seed_points();
    assert_eq!(seeds.len(), 54 * 108);
    assert_eq!(seeds[0], (0, 0));
    assert_eq!(seeds[1], (0, 10));
    assert_eq!(seeds[107], (0, 1070));
    assert_eq!(seeds[108], (10, 0));
    assert_eq!(seeds[seeds.len() - 1], (530, 1070));
    assert_eq!(seeds, by_stepping(WINDOW_WIDTH / 2, WINDOW_HEIGHT, SEED_STRIDE));
}

#[test]
fn seed_points_are_distinct_and_in_the_window() {
    let seeds = seed_points();
    for (k, &(x, y)) in seeds.iter().enumerate() {
        assert!(x < WINDOW_WIDTH / 2 && y < WINDOW_HEIGHT);
        assert_eq!(x % SEED_STRIDE, 0);
        assert_eq!(y % SEED_STRIDE, 0);
        assert_eq!(k as u32, (x / SEED_STRIDE) * 108 + y / SEED_STRIDE);
    }
}
