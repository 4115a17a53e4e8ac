use itinerary_core::distance::{distance, isqrt64};
use itinerary_core::model::Location;

#[test]
fn isqrt_exact_squares() {
    assert_eq!(isqrt64(0), 0);
    assert_eq!(isqrt64(1), 1);
    assert_eq!(isqrt64(9), 3);
    assert_eq!(isqrt64(144), 12);
}

#[test]
fn isqrt_rounds_down() {
    assert_eq!(isqrt64(8), 2);
    assert_eq!(isqrt64(10), 3);
    assert_eq!(isqrt64(99), 9);
}

#[test]
fn distance_is_symmetric() {
    let a = Location { x: 51_391_173, y: 35_700_954 };
    let b = Location { x: 51_420_000, y: 35_680_000 };
    assert_eq!(distance(&a, &b), distance(&b, &a));
}

#[test]
fn distance_to_self_is_zero() {
    let a = Location { x: 51_391_173, y: 35_700_954 };
    assert_eq!(distance(&a, &a), 0);
}

#[test]
fn distance_of_three_four_five_triangle() {
    let a = Location { x: 0, y: 0 };
    let b = Location { x: 3_000, y: 4_000 };
    assert_eq!(distance(&a, &b), 5_000);
}
