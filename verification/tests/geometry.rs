use transit_import::geometry::{distance, distance_squared, integer_sqrt, nearest_on_segment, Point};
use transit_import::projection::{Envelope, PointOutOfBounds};

fn pt(x: i32, y: i32) -> Point {
    Point { x, y }
}

#[test]
fn square_roots_are_rounded_down() {
    assert_eq!(integer_sqrt(0), 0);
    assert_eq!(integer_sqrt(1), 1);
    assert_eq!(integer_sqrt(2), 1);
    assert_eq!(integer_sqrt(3), 1);
    assert_eq!(integer_sqrt(4), 2);
    assert_eq!(integer_sqrt(15), 3);
    assert_eq!(integer_sqrt(16), 4);
    assert_eq!(integer_sqrt(17), 4);
    assert_eq!(integer_sqrt(1_000_000), 1000);
    assert_eq!(integer_sqrt(999_999), 999);
    assert_eq!(integer_sqrt(u128::MAX), u64::MAX);
    assert_eq!(integer_sqrt(1 << 64), 1 << 32);
    assert_eq!(integer_sqrt((1 << 64) - 1), (1 << 32) - 1);
}

#[test]
fn square_roots_bracket_their_number() {
    for n in 0u128..5000 {
        let r = integer_sqrt(n) as u128;
        assert!(r * r <= n && n < (r + 1) * (r + 1));
    }
}

#[test]
fn distances_between_points() {
    assert_eq!(distance_squared(pt(0, 0), pt(3, 4)), 25);
    assert_eq!(distance(pt(0, 0), pt(3, 4)), 5);
    assert_eq!(distance(pt(3, 4), pt(0, 0)), 5);
    assert_eq!(distance(pt(0, 0), pt(1, 1)), 1);
    assert_eq!(distance(pt(-7, 2), pt(-7, 2)), 0);
    assert_eq!(distance_squared(pt(i32::MIN, i32::MIN), pt(i32::MAX, i32::MAX)), 2 * 4294967295u128 * 4294967295u128);
    assert_eq!(distance(pt(i32::MIN, 0), pt(i32::MAX, 0)), 4294967295);
}

#[test]
fn nearest_point_of_a_segment() {
    let a = pt(0, 0);
    let b = pt(100, 0);
    assert_eq!(nearest_on_segment(pt(30, 40), a, b), pt(30, 0));
    assert_eq!(nearest_on_segment(pt(-5, 7), a, b), a);
    assert_eq!(nearest_on_segment(pt(130, -7), a, b), b);
    assert_eq!(nearest_on_segment(pt(0, 9), a, b), a);
    assert_eq!(nearest_on_segment(pt(100, 9), a, b), b);
    assert_eq!(nearest_on_segment(pt(30, 40), b, a), pt(30, 0));
}

#[test]
fn nearest_point_is_rounded_towards_the_start() {
    let a = pt(0, 0);
    let b = pt(3, 3);
    // The foot of (1, 0) is (0.5, 0.5).
    assert_eq!(nearest_on_segment(pt(1, 0), a, b), pt(0, 0));
    assert_eq!(nearest_on_segment(pt(1, 0), b, a), pt(1, 1));
    // The foot of (2, 1) is (1.5, 1.5).
    assert_eq!(nearest_on_segment(pt(2, 1), a, b), pt(1, 1));
    let c = pt(10, -4);
    let d = pt(-10, 6);
    // The line is x + 2y = 2; the foot of (3, 7) is (0, 1).
    assert_eq!(nearest_on_segment(pt(3, 7), c, d), pt(0, 1));
}

#[test]
fn a_segment_without_length_is_its_point() {
    let a = pt(5, 5);
    assert_eq!(nearest_on_segment(pt(9, 9), a, a), a);
    assert_eq!(nearest_on_segment(a, a, a), a);
}

#[test]
fn a_point_on_a_segment_is_its_own_nearest_point() {
    let a = pt(-6, -3);
    let b = pt(6, 3);
    for k in -3..=3 {
        let p = pt(2 * k, k);
        assert_eq!(nearest_on_segment(p, a, b), p);
        assert_eq!(distance_squared(p, nearest_on_segment(p, a, b)), 0);
    }
}

#[test]
fn envelopes_need_a_span_and_an_extent() {
    assert!(Envelope::new(0, 0, 10, 10, 100, 100).is_some());
    assert!(Envelope::new(0, 0, 10, 10, 0, 0).is_some());
    assert!(Envelope::new(0, 0, 0, 10, 100, 100).is_none());
    assert!(Envelope::new(0, 0, 10, 0, 100, 100).is_none());
    assert!(Envelope::new(10, 0, 0, 10, 100, 100).is_none());
    assert!(Envelope::new(0, 0, 10, 10, -1, 100).is_none());
    assert!(Envelope::new(0, 0, 10, 10, 100, -1).is_none());
    let e = Envelope::new(i64::MIN, i64::MIN, i64::MAX, i64::MAX, i32::MAX, 7).unwrap();
    assert_eq!(e.width(), i32::MAX);
    assert_eq!(e.height(), 7);
}

#[test]
fn projection_lays_coordinates_off_in_proportion() {
    let e = Envelope::new(-1_223_500_000, 475_000_000, -1_222_500_000, 477_000_000, 10_000, 20_000)
        .unwrap();
    // The north-west corner is the origin, the south-east corner the far end.
    assert_eq!(e.project(-1_223_500_000, 477_000_000), Ok(pt(0, 0)));
    assert_eq!(e.project(-1_222_500_000, 475_000_000), Ok(pt(10_000, 20_000)));
    assert_eq!(e.project(-1_223_500_000, 475_000_000), Ok(pt(0, 20_000)));
    assert_eq!(e.project(-1_223_000_000, 476_000_000), Ok(pt(5_000, 10_000)));
    assert_eq!(e.project(-1_223_250_000, 476_500_000), Ok(pt(2_500, 5_000)));
}

#[test]
fn projection_rounds_down_the_part_laid_off() {
    let e = Envelope::new(0, 0, 3, 3, 10, 10).unwrap();
    assert_eq!(e.project(1, 1), Ok(pt(3, 7)));
    assert_eq!(e.project(2, 2), Ok(pt(6, 4)));
    assert_eq!(e.project(3, 3), Ok(pt(10, 0)));
    assert_eq!(e.project(0, 0), Ok(pt(0, 10)));
}

#[test]
fn projection_of_the_widest_envelope() {
    let e = Envelope::new(i64::MIN, i64::MIN, i64::MAX, i64::MAX, i32::MAX, i32::MAX).unwrap();
    assert_eq!(e.project(i64::MIN, i64::MAX), Ok(pt(0, 0)));
    assert_eq!(e.project(i64::MAX, i64::MIN), Ok(pt(i32::MAX, i32::MAX)));
}

#[test]
fn coordinates_outside_the_envelope_are_refused() {
    let e = Envelope::new(0, 0, 100, 100, 10, 10).unwrap();
    assert_eq!(e.project(-1, 50), Err(PointOutOfBounds { lon: -1, lat: 50 }));
    assert_eq!(e.project(101, 50), Err(PointOutOfBounds { lon: 101, lat: 50 }));
    assert_eq!(e.project(50, -1), Err(PointOutOfBounds { lon: 50, lat: -1 }));
    assert_eq!(e.project(50, 101), Err(PointOutOfBounds { lon: 50, lat: 101 }));
    assert_eq!(e.project(i64::MAX, i64::MIN), Err(PointOutOfBounds { lon: i64::MAX, lat: i64::MIN }));
    assert!(e.project(0, 100).is_ok());
    assert!(e.project(100, 0).is_ok());
}
