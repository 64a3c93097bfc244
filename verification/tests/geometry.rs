use mission_core::geo::{euclidean_distance, isqrt, Point};
use mission_core::routes::calculate_distance;
use mission_core::rotation::{Rotation, ROUND_TRIP_TOL, ROT_SCALE};

fn pt(x: i64, y: i64) -> Point {
    Point { x, y }
}

#[test]
fn isqrt_small_values() {
    assert_eq!(isqrt(0), 0);
    assert_eq!(isqrt(1), 1);
    assert_eq!(isqrt(2), 1);
    assert_eq!(isqrt(3), 1);
    assert_eq!(isqrt(4), 2);
    assert_eq!(isqrt(24), 4);
    assert_eq!(isqrt(25), 5);
    assert_eq!(isqrt(1_000_000), 1000);
}

#[test]
fn euclidean_distance_exact_triangle() {
    assert_eq!(euclidean_distance(&pt(0, 0), &pt(3, 4)), 5);
    assert_eq!(euclidean_distance(&pt(0, 0), &pt(3, 0)), 3);
    assert_eq!(euclidean_distance(&pt(3, 0), &pt(3, 4)), 4);
    assert_eq!(euclidean_distance(&pt(-3, -4), &pt(0, 0)), 5);
}

#[test]
fn euclidean_distance_rounds_down() {
    // sqrt(2) = 1.41..., rounded down to 1
    assert_eq!(euclidean_distance(&pt(0, 0), &pt(1, 1)), 1);
    // sqrt(200) = 14.14..., rounded down to 14
    assert_eq!(euclidean_distance(&pt(0, 0), &pt(10, 10)), 14);
}

#[test]
fn cyclic_distance_of_right_triangle() {
    // 3 + 4 + 5, including the wrap-around edge
    let points = vec![pt(0, 0), pt(3, 0), pt(3, 4)];
    assert_eq!(calculate_distance(points), 12);
}

#[test]
fn cyclic_distance_degenerate_inputs() {
    assert_eq!(calculate_distance(Vec::new()), 0);
    assert_eq!(calculate_distance(vec![pt(7, 9)]), 0);
    // two points: there and back
    assert_eq!(calculate_distance(vec![pt(0, 0), pt(5, 0)]), 10);
}

#[test]
fn rotation_identity_is_exact() {
    let rot = Rotation::identity();
    let p = pt(123_456, -654_321);
    let q = rot.transform(p);
    assert_eq!(q, p);
    assert_eq!(rot.restore(q), p);
}

#[test]
fn rotation_round_trip_within_tolerance() {
    // 45 degrees: cos and sin both about 0.7071 * 65536
    let rot = Rotation::new(46341, 46341).expect("a valid unit heading");
    let p = pt(1000_000, -250_000);
    let q = rot.transform(p);
    let back = rot.restore(q);
    assert!((back.x - p.x).abs() <= ROUND_TRIP_TOL);
    assert!((back.y - p.y).abs() <= ROUND_TRIP_TOL);

    // 30 degrees: cos = 0.8660..., sin = 0.5
    let rot30 = Rotation::new(56756, 32768).expect("a valid unit heading");
    let q30 = rot30.transform(p);
    let back30 = rot30.restore(q30);
    assert!((back30.x - p.x).abs() <= ROUND_TRIP_TOL);
    assert!((back30.y - p.y).abs() <= ROUND_TRIP_TOL);
}

#[test]
fn rotation_rejects_non_unit_pairs() {
    assert!(Rotation::new(0, 0).is_none());
    assert!(Rotation::new(ROT_SCALE, ROT_SCALE).is_none());
    assert!(Rotation::new(ROT_SCALE + 1, 0).is_none());
    assert!(Rotation::new(ROT_SCALE, 0).is_some());
    assert!(Rotation::new(0, -ROT_SCALE).is_some());
}

#[test]
fn rotation_quarter_turn() {
    // cos 90 = 0, sin 90 = 1: (x, y) maps to (y, -x) in the heading frame
    let rot = Rotation::new(0, ROT_SCALE).expect("a valid unit heading");
    let q = rot.transform(pt(100, 7));
    assert_eq!(q, pt(7, -100));
    assert_eq!(rot.restore(q), pt(100, 7));
}
