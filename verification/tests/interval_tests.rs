use virolai::interval::{quantity_max, quantity_min, Interval};
use virolai::test_utils::iv;

#[test]
fn test_interval_creation() {
    let interval = Interval::new(0, 100);
    assert_eq!(interval.duration(), 100);
    assert_eq!(interval.start(), 0);
    assert_eq!(interval.end(), 100);
}

#[test]
fn test_interval_contains() {
    let interval = Interval::new(0, 100);
    assert!(interval.contains(50));
    assert!(interval.contains(0));
    // end is exclusive — the boundary point itself is NOT contained
    assert!(!interval.contains(100));
    assert!(!interval.contains(150));
}

#[test]
fn test_interval_can_fit() {
    let interval = Interval::new(0, 100);
    assert!(interval.can_fit(0, 50));
    assert!(interval.can_fit(50, 50));
    assert!(!interval.can_fit(60, 50));
}

#[test]
fn test_interval_overlaps() {
    let interval1 = Interval::new(0, 100);
    let interval2 = Interval::new(50, 150);
    let interval3 = Interval::new(200, 300);

    assert!(interval1.overlaps(&interval2));
    assert!(interval2.overlaps(&interval1));
    assert!(!interval1.overlaps(&interval3));
}

#[test]
fn test_intersection_overlapping() {
    let a = Interval::new(0, 100);
    let b = Interval::new(50, 150);
    let result = a.intersection(&b).unwrap();
    assert_eq!(result.start(), 50);
    assert_eq!(result.end(), 100);
}

#[test]
fn test_intersection_non_overlapping() {
    let a = Interval::new(0, 50);
    let b = Interval::new(60, 100);
    assert!(a.intersection(&b).is_none());
}

#[test]
fn test_intersection_contained() {
    let a = Interval::new(0, 100);
    let b = Interval::new(20, 80);
    let result = a.intersection(&b).unwrap();
    assert_eq!(result.start(), 20);
    assert_eq!(result.end(), 80);
}

#[test]
fn test_intersection_touching_endpoints() {
    // Half-open intervals that share only a boundary point do NOT overlap
    // and therefore have no intersection.
    let a = Interval::new(0, 50);
    let b = Interval::new(50, 100);
    assert!(a.intersection(&b).is_none());
}

#[test]
fn test_zero_width_interval() {
    let interval = Interval::new(5, 5);
    assert_eq!(interval.duration(), 0);
    // A zero-width half-open interval [5, 5) is empty — contains nothing.
    assert!(!interval.contains(5));
}

#[test]
fn test_can_fit_at_boundary() {
    let interval = Interval::new(0, 100);
    // Exactly fits from 0 to 100
    assert!(interval.can_fit(0, 100));
    // Does NOT fit starting at 1 with size 100
    assert!(!interval.can_fit(1, 100));
}

#[test]
fn test_contains_boundary() {
    let interval = Interval::new(10, 20);
    assert!(!interval.contains(9));
    // start is inclusive
    assert!(interval.contains(10));
    // end is exclusive
    assert!(!interval.contains(20));
    assert!(!interval.contains(21));
}

#[test]
fn try_new_rejects_reversed_bounds() {
    assert!(Interval::try_new(5, 2).is_none());
    let ok = Interval::try_new(2, 5).unwrap();
    assert_eq!(ok.start(), 2);
    assert_eq!(ok.end(), 5);
}

#[test]
fn try_new_accepts_empty_interval() {
    let empty = Interval::try_new(7, 7).unwrap();
    assert_eq!(empty.duration(), 0);
}

#[test]
fn iv_builds_the_given_bounds() {
    let interval = iv(10, 20);
    assert_eq!(interval, Interval::new(10, 20));
}

#[test]
fn quantity_min_returns_smaller() {
    let a: i64 = 10;
    let b: i64 = 20;
    assert_eq!(quantity_min(a, b), 10);
    assert_eq!(quantity_min(b, a), 10);
}

#[test]
fn quantity_min_equal_values() {
    let a: i64 = 5;
    let b: i64 = 5;
    assert_eq!(quantity_min(a, b), 5);
}

#[test]
fn quantity_max_returns_larger() {
    let a: i64 = 10;
    let b: i64 = 20;
    assert_eq!(quantity_max(a, b), 20);
    assert_eq!(quantity_max(b, a), 20);
}

#[test]
fn quantity_max_equal_values() {
    let a: i64 = 7;
    let b: i64 = 7;
    assert_eq!(quantity_max(a, b), 7);
}
