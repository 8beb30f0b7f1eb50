use virolai::constraints::{Constraint, ConstraintError, ConstraintExpr, IntervalConstraint};
use virolai::interval_set::IntervalSet;
use virolai::test_utils::iv;

fn leaf_over(windows: Vec<virolai::interval::Interval>) -> ConstraintExpr<IntervalConstraint> {
    ConstraintExpr::leaf(IntervalConstraint::new(
        IntervalSet::from_intervals(windows).unwrap(),
    ))
}

#[test]
fn cannot_add_child_to_leaf_display() {
    let e = ConstraintError::CannotAddChildToLeaf;
    assert_eq!(e.message(), "Cannot add child to a leaf node");
}

#[test]
fn cannot_add_child_to_not_display() {
    let e = ConstraintError::CannotAddChildToNot;
    assert_eq!(e.message(), "Cannot add child to a NOT node");
}

#[test]
fn error_equality() {
    assert_eq!(
        ConstraintError::CannotAddChildToLeaf,
        ConstraintError::CannotAddChildToLeaf
    );
    assert_ne!(
        ConstraintError::CannotAddChildToLeaf,
        ConstraintError::CannotAddChildToNot
    );
}

#[test]
fn add_child_to_leaf_fails() {
    let mut tree = leaf_over(vec![iv(0, 10)]);
    let err = tree.add_child(leaf_over(vec![iv(20, 30)])).unwrap_err();
    assert_eq!(err, ConstraintError::CannotAddChildToLeaf);
}

#[test]
fn add_second_child_to_not_fails() {
    let mut tree = ConstraintExpr::<IntervalConstraint>::not();
    assert!(tree.add_child(leaf_over(vec![iv(0, 10)])).is_ok());
    let err = tree.add_child(leaf_over(vec![iv(20, 30)])).unwrap_err();
    assert_eq!(err, ConstraintError::CannotAddChildToNot);
}

#[test]
fn leaf_evaluates_to_its_windows_clipped() {
    let tree = leaf_over(vec![iv(0, 30), iv(50, 90)]);
    let r = tree.evaluate(iv(10, 60));
    assert_eq!(r.len(), 2);
    assert_eq!(r.get(0), iv(10, 30));
    assert_eq!(r.get(1), iv(50, 60));
}

#[test]
fn and_intersects_children() {
    let mut tree = ConstraintExpr::and();
    tree.add_child(leaf_over(vec![iv(0, 60)])).unwrap();
    tree.add_child(leaf_over(vec![iv(40, 100)])).unwrap();
    let r = tree.evaluate(iv(0, 100));
    assert_eq!(r.len(), 1);
    assert_eq!(r.get(0), iv(40, 60));
}

#[test]
fn and_without_children_is_the_full_range() {
    let tree = ConstraintExpr::<IntervalConstraint>::and();
    let r = tree.evaluate(iv(10, 90));
    assert_eq!(r.len(), 1);
    assert_eq!(r.get(0), iv(10, 90));
}

#[test]
fn or_unions_children_and_merges_adjacency() {
    let mut tree = ConstraintExpr::or();
    tree.add_child(leaf_over(vec![iv(0, 50)])).unwrap();
    tree.add_child(leaf_over(vec![iv(50, 80)])).unwrap();
    let r = tree.evaluate(iv(0, 100));
    assert_eq!(r.len(), 1);
    assert_eq!(r.get(0), iv(0, 80));
}

#[test]
fn or_without_children_is_empty() {
    let tree = ConstraintExpr::<IntervalConstraint>::or();
    let r = tree.evaluate(iv(0, 100));
    assert!(r.is_empty());
}

#[test]
fn not_complements_its_child_within_the_range() {
    let mut tree = ConstraintExpr::not();
    tree.add_child(leaf_over(vec![iv(20, 40)])).unwrap();
    let r = tree.evaluate(iv(0, 100));
    assert_eq!(r.len(), 2);
    assert_eq!(r.get(0), iv(0, 20));
    assert_eq!(r.get(1), iv(40, 100));
}

#[test]
fn nested_combinators_evaluate_canonically() {
    // (window [0,50) OR window [60,100)) AND NOT window [20,30)
    let mut or_node = ConstraintExpr::or();
    or_node.add_child(leaf_over(vec![iv(0, 50)])).unwrap();
    or_node.add_child(leaf_over(vec![iv(60, 100)])).unwrap();
    let mut not_node = ConstraintExpr::not();
    not_node.add_child(leaf_over(vec![iv(20, 30)])).unwrap();
    let mut tree = ConstraintExpr::and();
    tree.add_child(or_node).unwrap();
    tree.add_child(not_node).unwrap();
    let r = tree.evaluate(iv(0, 100));
    assert_eq!(r.len(), 3);
    assert_eq!(r.get(0), iv(0, 20));
    assert_eq!(r.get(1), iv(30, 50));
    assert_eq!(r.get(2), iv(60, 100));
}

#[test]
fn interval_constraint_stringify() {
    let c = IntervalConstraint::new(IntervalSet::new());
    assert_eq!(c.stringify(), "IntervalConstraint");
}
