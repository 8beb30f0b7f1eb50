use virolai::dynamic::{
    DynConstraintKind, DynamicConstraint, DynamicConstraintIndex, SchedulingContext,
};
use virolai::schedule::Schedule;
use virolai::solution_space::SolutionSpace;
use virolai::test_utils::iv;

// ── Dependence ────────────────────────────────────────────────────

#[test]
fn dependence_ref_scheduled_returns_full_range() {
    let mut schedule = Schedule::new();
    schedule.add("task-a", iv(10, 30)).unwrap();
    let ss = SolutionSpace::new();
    let ctx = SchedulingContext::new(&schedule, &ss);

    let result = DynConstraintKind::Dependence.compute_intervals(iv(0, 100), "task-a", &ctx);
    assert_eq!(result.len(), 1);
    assert_eq!(result.get(0), iv(0, 100));
}

#[test]
fn dependence_ref_absent_returns_empty() {
    let schedule = Schedule::new();
    let ss = SolutionSpace::new();
    let ctx = SchedulingContext::new(&schedule, &ss);

    let result = DynConstraintKind::Dependence.compute_intervals(iv(0, 100), "task-a", &ctx);
    assert!(result.is_empty());
}

// ── Consecutive ───────────────────────────────────────────────────

#[test]
fn consecutive_ref_scheduled_returns_after_ref_end() {
    let mut schedule = Schedule::new();
    schedule.add("task-a", iv(10, 30)).unwrap();
    let ss = SolutionSpace::new();
    let ctx = SchedulingContext::new(&schedule, &ss);

    let result = DynConstraintKind::Consecutive.compute_intervals(iv(0, 100), "task-a", &ctx);
    assert_eq!(result.len(), 1);
    assert_eq!(result.get(0), iv(30, 100));
}

#[test]
fn consecutive_range_already_after_ref_end() {
    let mut schedule = Schedule::new();
    schedule.add("task-a", iv(10, 30)).unwrap();
    let ss = SolutionSpace::new();
    let ctx = SchedulingContext::new(&schedule, &ss);

    // Range starts after ref ends — full range is valid
    let result = DynConstraintKind::Consecutive.compute_intervals(iv(50, 100), "task-a", &ctx);
    assert_eq!(result.len(), 1);
    assert_eq!(result.get(0), iv(50, 100));
}

#[test]
fn consecutive_range_ends_before_ref_end() {
    let mut schedule = Schedule::new();
    schedule.add("task-a", iv(10, 80)).unwrap();
    let ss = SolutionSpace::new();
    let ctx = SchedulingContext::new(&schedule, &ss);

    // Range [0, 50) but ref ends at 80 — no valid window
    let result = DynConstraintKind::Consecutive.compute_intervals(iv(0, 50), "task-a", &ctx);
    assert!(result.is_empty());
}

#[test]
fn consecutive_ref_absent_returns_empty() {
    let schedule = Schedule::new();
    let ss = SolutionSpace::new();
    let ctx = SchedulingContext::new(&schedule, &ss);

    let result = DynConstraintKind::Consecutive.compute_intervals(iv(0, 100), "task-a", &ctx);
    assert!(result.is_empty());
}

// ── Exclusive ─────────────────────────────────────────────────────

#[test]
fn exclusive_ref_absent_returns_full_range() {
    let schedule = Schedule::new();
    let ss = SolutionSpace::new();
    let ctx = SchedulingContext::new(&schedule, &ss);

    let result = DynConstraintKind::Exclusive.compute_intervals(iv(0, 100), "task-a", &ctx);
    assert_eq!(result.len(), 1);
    assert_eq!(result.get(0), iv(0, 100));
}

#[test]
fn exclusive_ref_scheduled_returns_empty() {
    let mut schedule = Schedule::new();
    schedule.add("task-a", iv(10, 30)).unwrap();
    let ss = SolutionSpace::new();
    let ctx = SchedulingContext::new(&schedule, &ss);

    let result = DynConstraintKind::Exclusive.compute_intervals(iv(0, 100), "task-a", &ctx);
    assert!(result.is_empty());
}

// ── stringify / context ───────────────────────────────────────────

#[test]
fn stringify_variants() {
    assert_eq!(DynConstraintKind::Dependence.stringify(), "Dependence");
    assert_eq!(DynConstraintKind::Consecutive.stringify(), "Consecutive");
    assert_eq!(DynConstraintKind::Exclusive.stringify(), "Exclusive");
}

#[test]
fn scheduling_context_construction() {
    let schedule = Schedule::new();
    let solution_space = SolutionSpace::new();
    let ctx = SchedulingContext::new(&schedule, &solution_space);
    assert!(ctx.schedule.is_empty());
    assert!(ctx.solution_space.is_empty());
}

// ── DynamicConstraintIndex ────────────────────────────────────────

#[test]
fn index_stores_one_kind_per_edge() {
    let mut index = DynamicConstraintIndex::new();
    assert!(index.add_edge(
        "task-a".to_string(),
        "task-b".to_string(),
        DynConstraintKind::Dependence
    ));
    assert!(!index.add_edge(
        "task-a".to_string(),
        "task-b".to_string(),
        DynConstraintKind::Exclusive
    ));
    assert_eq!(index.len(), 1);
    assert_eq!(
        index.get("task-a", "task-b"),
        Some(DynConstraintKind::Dependence)
    );
    assert_eq!(index.get("task-b", "task-a"), None);
}

#[test]
fn index_incoming_lists_reference_tasks() {
    let mut index = DynamicConstraintIndex::new();
    index.add_edge(
        "task-a".to_string(),
        "task-c".to_string(),
        DynConstraintKind::Dependence,
    );
    index.add_edge(
        "task-b".to_string(),
        "task-c".to_string(),
        DynConstraintKind::Consecutive,
    );
    index.add_edge(
        "task-a".to_string(),
        "task-b".to_string(),
        DynConstraintKind::Exclusive,
    );
    let incoming = index.incoming("task-c");
    assert_eq!(incoming.len(), 2);
    assert_eq!(incoming[0].0, "task-a");
    assert_eq!(incoming[0].1, DynConstraintKind::Dependence);
    assert_eq!(incoming[1].0, "task-b");
    assert_eq!(incoming[1].1, DynConstraintKind::Consecutive);
}
