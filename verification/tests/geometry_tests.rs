use arena::geometry::{advance, ceil_sqrt, confine, distance_squared, max_step, span_between, Point};
use arena::units::{BASE_STEP, LIMIT, WORLD_WIDTH};

#[test]
fn ceil_sqrt_of_small_numbers() {
    assert_eq!(ceil_sqrt(0), 0);
    assert_eq!(ceil_sqrt(1), 1);
    assert_eq!(ceil_sqrt(2), 2);
    assert_eq!(ceil_sqrt(4), 2);
    assert_eq!(ceil_sqrt(5), 3);
    assert_eq!(ceil_sqrt(9), 3);
    assert_eq!(ceil_sqrt(10), 4);
    assert_eq!(ceil_sqrt(1_000_000_000_000), 1_000_000);
    assert_eq!(ceil_sqrt(1_000_000_000_001), 1_000_001);
}

#[test]
fn ceil_sqrt_of_the_largest_numbers() {
    let top: u128 = 0xFFFF_FFFF_FFFF_FFFF;
    assert_eq!(ceil_sqrt(top * top), top);
    assert_eq!(ceil_sqrt(top * top + 1), top + 1);
    assert_eq!(ceil_sqrt(u128::MAX), top + 1);
}

#[test]
fn ceil_sqrt_is_the_least_root() {
    for n in 0u128..2000 {
        let r = ceil_sqrt(n);
        assert!(r * r >= n);
        assert!(r == 0 || (r - 1) * (r - 1) < n);
    }
}

#[test]
fn span_between_is_the_magnitude_of_the_difference() {
    assert_eq!(span_between(5, 3), 2);
    assert_eq!(span_between(3, 5), 2);
    assert_eq!(span_between(-4, 4), 8);
    assert_eq!(span_between(i64::MIN, i64::MAX), u64::MAX);
    assert_eq!(span_between(7, 7), 0);
}

#[test]
fn distance_squared_of_a_right_triangle() {
    assert_eq!(distance_squared(3, 4, 0, 0), 25);
    assert_eq!(distance_squared(0, 0, 3, 4), 25);
    assert_eq!(distance_squared(-3, 0, 3, 0), 36);
    assert_eq!(distance_squared(1_025_000, 1_000_000, 1_000_000, 1_000_000), 625_000_000);
}

#[test]
fn distance_squared_reaches_across_all_coordinates() {
    let d = distance_squared(i64::MAX, i64::MIN, -LIMIT, LIMIT);
    let dx = (i64::MAX as u128) + (LIMIT as u128);
    let dy = (i64::MAX as u128) + 1 + (LIMIT as u128);
    assert_eq!(d, dx * dx + dy * dy);
}

#[test]
fn max_step_of_the_starting_size() {
    // 5 / (1 + 20 / 100) = 4.1666.. units
    assert_eq!(max_step(20_000), 4_166);
}

#[test]
fn max_step_shrinks_with_size() {
    assert_eq!(max_step(1), 4_999);
    assert_eq!(max_step(100_000), 2_500);
    assert_eq!(max_step(900_000), 500);
    assert_eq!(max_step(LIMIT), 0);
    let mut last = BASE_STEP;
    let mut size = 1;
    while size <= LIMIT {
        let step = max_step(size);
        assert!(step <= last);
        assert!(step < BASE_STEP);
        last = step;
        size *= 3;
    }
}

#[test]
fn advance_moves_the_step_limit_along_an_axis() {
    let p = advance(1_000_000, 1_000_000, 20_000, 2_000_000, 1_000_000);
    assert_eq!(p, Point { x: 1_004_166, y: 1_000_000 });
    let q = advance(1_000_000, 1_000_000, 20_000, 1_000_000, 0);
    assert_eq!(q, Point { x: 1_000_000, y: 995_834 });
}

#[test]
fn advance_moves_along_the_line_to_the_target() {
    // a 3-4-5 triangle: 3/5 and 4/5 of 4166, rounded toward the start
    let p = advance(0, 0, 20_000, 3_000_000, 4_000_000);
    assert_eq!(p, Point { x: 2_499, y: 3_332 });
    let q = advance(0, 0, 20_000, -3_000_000, -4_000_000);
    assert_eq!(q, Point { x: -2_499, y: -3_332 });
}

#[test]
fn advance_lands_on_a_near_target() {
    let p = advance(500, 500, 20_000, 1_500, 2_500);
    assert_eq!(p, Point { x: 1_500, y: 2_500 });
    let same = advance(500, 500, 20_000, 500, 500);
    assert_eq!(same, Point { x: 500, y: 500 });
    // exactly the step limit away
    let edge = advance(0, 0, 20_000, 4_166, 0);
    assert_eq!(edge, Point { x: 4_166, y: 0 });
    // one step beyond it
    let beyond = advance(0, 0, 20_000, 4_167, 0);
    assert_eq!(beyond, Point { x: 4_166, y: 0 });
}

#[test]
fn advance_never_covers_more_than_the_step_limit() {
    let targets: [(i64, i64); 6] = [
        (i64::MAX, i64::MAX),
        (i64::MIN, i64::MAX),
        (123_456, -987_654_321),
        (1, 1_000_000_000_000),
        (-5_000, 5_000),
        (i64::MIN, 0),
    ];
    for (tx, ty) in targets {
        for size in [1i64, 20_000, 333_333, LIMIT] {
            let p = advance(-7, 11, size, tx, ty);
            let limit = max_step(size) as u128;
            assert!(distance_squared(p.x, p.y, -7, 11) <= limit * limit);
        }
    }
}

#[test]
fn confine_keeps_the_disc_inside() {
    assert_eq!(confine(5, 20_000, WORLD_WIDTH), 20_000);
    assert_eq!(confine(-5, 20_000, WORLD_WIDTH), 20_000);
    assert_eq!(confine(2_999_000, 20_000, WORLD_WIDTH), 2_980_000);
    assert_eq!(confine(1_500_000, 20_000, WORLD_WIDTH), 1_500_000);
    assert_eq!(confine(20_000, 20_000, WORLD_WIDTH), 20_000);
    assert_eq!(confine(2_980_000, 20_000, WORLD_WIDTH), 2_980_000);
}

#[test]
fn confine_of_an_oversized_disc_takes_the_upper_bound() {
    // raised to the size first, then lowered to extent - size
    assert_eq!(confine(0, 2_000_000, WORLD_WIDTH), 1_000_000);
    assert_eq!(confine(0, 4_000_000, WORLD_WIDTH), -1_000_000);
}
