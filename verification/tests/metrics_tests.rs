use virolai::interval::Interval;
use virolai::interval_set::IntervalSet;
use virolai::metrics::{compute_deadline, compute_est, compute_flexibility, Flexibility};
use virolai::solution_space::SolutionSpace;
use virolai::test_utils::{iv, TestTask};

fn make_space(id: &str, intervals: Vec<Interval>) -> SolutionSpace {
    let mut ss = SolutionSpace::new();
    ss.set_intervals(
        id.to_string(),
        IntervalSet::from_intervals(intervals).unwrap(),
    );
    ss
}

fn value(flex: Flexibility) -> f64 {
    flex.numerator as f64 / flex.denominator as f64
}

// ── compute_est ───────────────────────────────────────────────────

#[test]
fn est_simple_fit() {
    let task = TestTask::new("t", 10);
    let ss = make_space("t", vec![iv(0, 100)]);
    let est = compute_est(&task, "t", &ss, iv(0, 100));
    assert_eq!(est, Some(0));
}

#[test]
fn est_no_task_in_space() {
    let task = TestTask::new("t", 10);
    let ss = SolutionSpace::new();
    assert_eq!(compute_est(&task, "t", &ss, iv(0, 100)), None);
}

#[test]
fn est_task_too_large_for_all_windows() {
    let task = TestTask::new("t", 100);
    let ss = make_space("t", vec![iv(0, 50), iv(60, 90)]);
    assert_eq!(compute_est(&task, "t", &ss, iv(0, 200)), None);
}

#[test]
fn est_clips_to_horizon() {
    let task = TestTask::new("t", 10);
    let ss = make_space("t", vec![iv(0, 100)]);
    // Horizon starts at 50
    let est = compute_est(&task, "t", &ss, iv(50, 100));
    assert_eq!(est, Some(50));
}

#[test]
fn est_skips_windows_before_horizon() {
    let task = TestTask::new("t", 10);
    let ss = make_space("t", vec![iv(0, 20), iv(50, 100)]);
    let est = compute_est(&task, "t", &ss, iv(30, 100));
    assert_eq!(est, Some(50));
}

#[test]
fn est_skips_windows_after_horizon() {
    let task = TestTask::new("t", 10);
    let ss = make_space("t", vec![iv(200, 300)]);
    assert_eq!(compute_est(&task, "t", &ss, iv(0, 100)), None);
}

#[test]
fn est_within_short_horizon() {
    // Task size 10, window [0, 100), horizon [50, 80): earliest start 50.
    let task = TestTask::new("t", 10);
    let ss = make_space("t", vec![iv(0, 100)]);
    assert_eq!(compute_est(&task, "t", &ss, iv(50, 80)), Some(50));
}

// ── compute_deadline ──────────────────────────────────────────────

#[test]
fn deadline_simple() {
    let task = TestTask::new("t", 10);
    let ss = make_space("t", vec![iv(0, 100)]);
    let dl = compute_deadline(&task, "t", &ss, iv(0, 100));
    assert_eq!(dl, Some(90)); // 100 - 10
}

#[test]
fn deadline_no_window_fits() {
    let task = TestTask::new("t", 100);
    let ss = make_space("t", vec![iv(0, 50)]);
    assert_eq!(compute_deadline(&task, "t", &ss, iv(0, 200)), None);
}

#[test]
fn deadline_clips_to_horizon() {
    let task = TestTask::new("t", 10);
    let ss = make_space("t", vec![iv(0, 200)]);
    let dl = compute_deadline(&task, "t", &ss, iv(0, 50));
    assert_eq!(dl, Some(40)); // 50 - 10
}

#[test]
fn deadline_multiple_windows_picks_latest() {
    let task = TestTask::new("t", 10);
    let ss = make_space("t", vec![iv(0, 50), iv(80, 100)]);
    let dl = compute_deadline(&task, "t", &ss, iv(0, 100));
    assert_eq!(dl, Some(90)); // 100 - 10
}

#[test]
fn deadline_no_task_in_space() {
    let task = TestTask::new("t", 10);
    let ss = SolutionSpace::new();
    assert_eq!(compute_deadline(&task, "t", &ss, iv(0, 100)), None);
}

// ── compute_flexibility ───────────────────────────────────────────

#[test]
fn flexibility_single_window() {
    let task = TestTask::new("t", 10);
    let ss = make_space("t", vec![iv(0, 100)]);
    let flex = compute_flexibility(&task, "t", &ss, iv(0, 100));
    assert!((value(flex) - 10.0).abs() < 1e-9); // 100/10
}

#[test]
fn flexibility_no_windows() {
    let task = TestTask::new("t", 10);
    let ss = SolutionSpace::new();
    let flex = compute_flexibility(&task, "t", &ss, iv(0, 100));
    assert_eq!(value(flex), 0.0);
}

#[test]
fn flexibility_task_too_large() {
    let task = TestTask::new("t", 100);
    let ss = make_space("t", vec![iv(0, 50)]);
    let flex = compute_flexibility(&task, "t", &ss, iv(0, 200));
    assert_eq!(value(flex), 0.0);
}

#[test]
fn flexibility_multiple_windows() {
    let task = TestTask::new("t", 10);
    let ss = make_space("t", vec![iv(0, 50), iv(60, 100)]);
    let flex = compute_flexibility(&task, "t", &ss, iv(0, 100));
    // Window1: 50/10 = 5.0, Window2: 40/10 = 4.0 — total = 9.0
    assert!((value(flex) - 9.0).abs() < 1e-9);
}

#[test]
fn flexibility_partially_clipped_by_horizon() {
    let task = TestTask::new("t", 10);
    let ss = make_space("t", vec![iv(0, 100)]);
    let flex = compute_flexibility(&task, "t", &ss, iv(50, 80));
    // Intersection = [50, 80), duration = 30, 30/10 = 3.0
    assert!((value(flex) - 3.0).abs() < 1e-9);
}

#[test]
fn flexibility_below_one_marks_impossible_tasks() {
    // No window of the task holds it, so its flexibility stays under 1 and
    // the earliest-start scan agrees that the task cannot be placed.
    let task = TestTask::new("t", 40);
    let ss = make_space("t", vec![iv(0, 30), iv(50, 80)]);
    let horizon = iv(0, 100);
    let flex = compute_flexibility(&task, "t", &ss, horizon);
    assert!(value(flex) < 1.0);
    assert_eq!(compute_est(&task, "t", &ss, horizon), None);
}
