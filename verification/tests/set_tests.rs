use virolai::interval::Interval;
use virolai::interval_set::{is_canonical, IntervalSet};
use virolai::test_utils::iv;

fn set_of(intervals: Vec<Interval>) -> IntervalSet {
    IntervalSet::from_intervals(intervals).unwrap()
}

#[test]
fn empty_is_canonical() {
    let intervals: Vec<Interval> = vec![];
    assert!(is_canonical(&intervals));
}

#[test]
fn single_interval_is_canonical() {
    assert!(is_canonical(&vec![iv(0, 50)]));
}

#[test]
fn sorted_non_overlapping_is_canonical() {
    assert!(is_canonical(&vec![iv(0, 10), iv(20, 30), iv(40, 50)]));
}

#[test]
fn overlapping_is_not_canonical() {
    assert!(!is_canonical(&vec![iv(0, 30), iv(20, 50)]));
}

#[test]
fn unsorted_is_not_canonical() {
    assert!(!is_canonical(&vec![iv(20, 30), iv(0, 10)]));
}

#[test]
fn adjacent_is_canonical() {
    // Half-open intervals [0, 10) and [10, 20) share no interior points,
    // so they are non-overlapping and correctly sorted: canonical.
    assert!(is_canonical(&vec![iv(0, 10), iv(10, 20)]));
}

#[test]
fn from_intervals_rejects_overlap() {
    assert!(IntervalSet::from_intervals(vec![iv(0, 30), iv(20, 50)]).is_none());
}

#[test]
fn union_merges_overlapping_windows() {
    let a = set_of(vec![iv(0, 10)]);
    let b = set_of(vec![iv(5, 20)]);
    let u = a.union(&b);
    assert_eq!(u.len(), 1);
    assert_eq!(u.get(0), iv(0, 20));
}

#[test]
fn union_merges_adjacent_windows() {
    let a = set_of(vec![iv(0, 10)]);
    let b = set_of(vec![iv(10, 20)]);
    let u = a.union(&b);
    assert_eq!(u.len(), 1);
    assert_eq!(u.get(0), iv(0, 20));
}

#[test]
fn union_keeps_disjoint_windows_apart() {
    let a = set_of(vec![iv(0, 10)]);
    let b = set_of(vec![iv(20, 30)]);
    let u = a.union(&b);
    assert_eq!(u.len(), 2);
    assert_eq!(u.get(0), iv(0, 10));
    assert_eq!(u.get(1), iv(20, 30));
}

#[test]
fn intersect_takes_the_common_part() {
    let a = set_of(vec![iv(0, 50), iv(60, 100)]);
    let b = set_of(vec![iv(40, 80)]);
    let r = a.intersect(&b);
    assert_eq!(r.len(), 2);
    assert_eq!(r.get(0), iv(40, 50));
    assert_eq!(r.get(1), iv(60, 80));
}

#[test]
fn intersect_of_disjoint_sets_is_empty() {
    let a = set_of(vec![iv(0, 10)]);
    let b = set_of(vec![iv(10, 20)]);
    let r = a.intersect(&b);
    assert!(r.is_empty());
}

#[test]
fn complement_cuts_holes_within_range() {
    let s = set_of(vec![iv(10, 20), iv(40, 50)]);
    let c = s.complement_within(iv(0, 60));
    assert_eq!(c.len(), 3);
    assert_eq!(c.get(0), iv(0, 10));
    assert_eq!(c.get(1), iv(20, 40));
    assert_eq!(c.get(2), iv(50, 60));
}

#[test]
fn complement_of_empty_set_is_the_range() {
    let s = IntervalSet::new();
    let c = s.complement_within(iv(5, 15));
    assert_eq!(c.len(), 1);
    assert_eq!(c.get(0), iv(5, 15));
}

#[test]
fn complement_of_cover_is_empty() {
    let s = set_of(vec![iv(0, 100)]);
    let c = s.complement_within(iv(20, 80));
    assert!(c.is_empty());
}
