use virolai::constraints::{ConstraintExpr, IntervalConstraint};
use virolai::interval_set::IntervalSet;
use virolai::schedule::{Schedule, ScheduleError};
use virolai::solution_space::SolutionSpace;
use virolai::test_utils::iv;

#[test]
fn add_and_lookup_placements() {
    let mut schedule = Schedule::new();
    assert!(schedule.is_empty());
    schedule.add("task-a", iv(10, 30)).unwrap();
    assert!(!schedule.is_empty());
    assert_eq!(schedule.len(), 1);
    assert!(schedule.contains_task("task-a"));
    assert!(!schedule.contains_task("task-b"));
    assert_eq!(schedule.get_interval("task-a"), Some(iv(10, 30)));
    assert_eq!(schedule.get_interval("task-b"), None);
}

#[test]
fn add_rejects_duplicate_task_id() {
    let mut schedule = Schedule::new();
    schedule.add("task-a", iv(0, 10)).unwrap();
    let err = schedule.add("task-a", iv(20, 30)).unwrap_err();
    assert_eq!(err, ScheduleError::DuplicateTaskId("task-a".to_string()));
    assert_eq!(schedule.len(), 1);
}

#[test]
fn add_rejects_overlap_and_names_both_tasks() {
    // Adding [20, 50) to a schedule already holding [0, 30) under another
    // task id fails with an overlap error naming both ids, and the schedule
    // still holds exactly one placement.
    let mut schedule = Schedule::new();
    schedule.add("task-a", iv(0, 30)).unwrap();
    let err = schedule.add("task-b", iv(20, 50)).unwrap_err();
    assert_eq!(
        err,
        ScheduleError::OverlapsExisting {
            new_id: "task-b".to_string(),
            existing_id: "task-a".to_string(),
        }
    );
    assert_eq!(schedule.len(), 1);
    assert!(!schedule.contains_task("task-b"));
    assert_eq!(schedule.get_interval("task-a"), Some(iv(0, 30)));
}

#[test]
fn add_accepts_adjacent_placements() {
    // Half-open intervals sharing a boundary do not overlap.
    let mut schedule = Schedule::new();
    schedule.add("task-a", iv(0, 30)).unwrap();
    schedule.add("task-b", iv(30, 50)).unwrap();
    assert_eq!(schedule.len(), 2);
}

#[test]
fn schedule_error_equality() {
    assert_eq!(ScheduleError::NaNTime, ScheduleError::NaNTime);
    assert_ne!(
        ScheduleError::TaskNotFound("task-a".to_string()),
        ScheduleError::TaskNotFound("task-b".to_string())
    );
    assert_ne!(
        ScheduleError::DuplicateTaskId("task-a".to_string()),
        ScheduleError::NaNTime
    );
}

#[test]
fn solution_space_set_and_get() {
    let mut ss = SolutionSpace::new();
    assert!(ss.is_empty());
    ss.set_intervals(
        "task-a".to_string(),
        IntervalSet::from_intervals(vec![iv(0, 10), iv(20, 30)]).unwrap(),
    );
    assert_eq!(ss.len(), 1);
    let windows = ss.get_intervals("task-a").unwrap();
    assert_eq!(windows.len(), 2);
    assert_eq!(windows.get(0), iv(0, 10));
    assert_eq!(windows.get(1), iv(20, 30));
    assert!(ss.get_intervals("task-b").is_none());
}

#[test]
fn solution_space_replaces_existing_entry() {
    let mut ss = SolutionSpace::new();
    ss.set_intervals(
        "task-a".to_string(),
        IntervalSet::from_intervals(vec![iv(0, 10)]).unwrap(),
    );
    ss.set_intervals(
        "task-a".to_string(),
        IntervalSet::from_intervals(vec![iv(40, 80)]).unwrap(),
    );
    assert_eq!(ss.len(), 1);
    let windows = ss.get_intervals("task-a").unwrap();
    assert_eq!(windows.len(), 1);
    assert_eq!(windows.get(0), iv(40, 80));
}

#[test]
fn precompute_evaluates_the_tree_over_the_horizon() {
    let mut tree = ConstraintExpr::not();
    tree.add_child(ConstraintExpr::leaf(IntervalConstraint::new(
        IntervalSet::from_intervals(vec![iv(20, 40)]).unwrap(),
    )))
    .unwrap();
    let mut ss = SolutionSpace::new();
    ss.precompute("task-a".to_string(), &tree, iv(0, 100));
    let windows = ss.get_intervals("task-a").unwrap();
    assert_eq!(windows.len(), 2);
    assert_eq!(windows.get(0), iv(0, 20));
    assert_eq!(windows.get(1), iv(40, 100));
}
