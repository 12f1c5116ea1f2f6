use notcraft::side::{Axis, Faces, Side};
use notcraft::util::{clamp, in_range, is_between, is_within, max, min};

#[test]
fn partial_order_helpers_on_integers() {
    assert_eq!(min(3, 5), 3);
    assert_eq!(max(3, 5), 5);
    assert_eq!(clamp(0, 10, -4), 0);
    assert_eq!(clamp(0, 10, 14), 10);
    assert_eq!(clamp(0, 10, 7), 7);
    assert!(is_within(10, 0, 10));
    assert!(!is_between(10, 0, 10));
    assert!(is_between(5, 0, 10));
}

#[test]
fn partial_order_helpers_on_floats() {
    assert_eq!(min(1.5f32, -2.0), -2.0);
    assert_eq!(max(1.5f32, -2.0), 1.5);
    // unordered values keep the first argument
    assert!(min(f32::NAN, 1.0).is_nan());
    assert_eq!(min(1.0, f32::NAN), 1.0);
    assert_eq!(max(1.0, f32::NAN), 1.0);
    assert!(clamp(0.0, 1.0, f32::NAN).is_nan());
    assert_eq!(clamp(0.0f64, 1.0, 1.5), 1.0);
    assert!(!is_within(f64::NAN, 0.0, 1.0));
}

#[test]
fn in_range_checks_every_axis() {
    assert!(in_range([1, 2, 3], [0, 0, 0], [1, 2, 3]));
    assert!(!in_range([1, 2, 4], [0, 0, 0], [1, 2, 3]));
    assert!(in_range([-1, -2, -3], [0, 0, 0], [1, 2, 3]));
}

#[test]
fn sides_normals_and_axes() {
    assert_eq!(Side::enumerate().len(), 6);
    assert_eq!(Side::Top.normal(), [0, 1, 0]);
    assert_eq!(Side::Left.normal(), [-1, 0, 0]);
    assert_eq!(Side::Back.normal(), [0, 0, -1]);
    assert_eq!(Side::Front.axis(), Axis::Z);
    assert_eq!(Axis::Y.number(), 1);
    assert!(Side::Right.facing_positive());
    assert!(!Side::Bottom.facing_positive());
}

#[test]
fn faces_map_all_any() {
    let faces = Faces { top: 1, bottom: 2, right: 3, left: 4, front: 5, back: 6 };
    assert_eq!(*faces.index(Side::Left), 4);
    let doubled = faces.map(|v| v * 2);
    assert_eq!(*doubled.index(Side::Back), 12);
    assert!(doubled.all(|v| *v % 2 == 0));
    assert!(doubled.any(|v| *v == 8));
    assert!(!doubled.any(|v| *v == 7));
}
