//! Shared test utilities: a compact interval builder and a configurable
//! mock task for exercising the scheduling logic.

use vstd::prelude::*;

use crate::constraints::{ConstraintExpr, IntervalConstraint};
use crate::interval::{Interval, AXIS_BOUND};
use crate::task::Task;

verus! {

/// Convenience helper: creates an `Interval` from two axis values.
pub fn iv(start: i64, end: i64) -> (r: Interval)
    requires
        -AXIS_BOUND <= start <= end <= AXIS_BOUND,
    ensures
        r.spec_start() == start,
        r.spec_end() == end,
{
    Interval::new(start, end)
}

/// A configurable mock task: name, size, priority, gap and optional
/// constraints can all be set.
#[derive(Debug)]
pub struct TestTask {
    pub name: String,
    pub size: i64,
    pub priority: i32,
    pub delay: i64,
    pub constraints: Option<ConstraintExpr<IntervalConstraint>>,
}

impl TestTask {
    /// Creates a simple test task with the given name and size.
    /// Priority defaults to 0, delay to 0, no constraints.
    pub fn new(name: &str, size: i64) -> (r: TestTask)
        ensures
            r.name@ == name@,
            r.size == size,
            r.priority == 0,
            r.delay == 0,
            r.constraints is None,
    {
        TestTask {
            name: name.to_owned(),
            size,
            priority: 0,
            delay: 0,
            constraints: None,
        }
    }

    /// Sets the priority and returns self (builder pattern).
    pub fn with_priority(self, priority: i32) -> (r: TestTask)
        ensures
            r == (TestTask { priority, ..self }),
    {
        TestTask { priority, ..self }
    }

    /// Sets the gap to keep after the task and returns self (builder
    /// pattern).
    pub fn with_delay(self, delay: i64) -> (r: TestTask)
        ensures
            r == (TestTask { delay, ..self }),
    {
        TestTask { delay, ..self }
    }

    /// Sets constraints and returns self (builder pattern).
    pub fn with_constraints(self, constraints: ConstraintExpr<IntervalConstraint>) -> (r: TestTask)
        ensures
            r == (TestTask { constraints: Some(constraints), ..self }),
    {
        TestTask { constraints: Some(constraints), ..self }
    }
}

impl Task for TestTask {
    type ConstraintLeaf = IntervalConstraint;

    open spec fn spec_size(&self) -> i64 {
        self.size
    }

    open spec fn spec_name(&self) -> Seq<char> {
        self.name@
    }

    fn name(&self) -> (r: &str) {
        self.name.as_str()
    }

    fn size(&self) -> (r: i64) {
        self.size
    }

    fn priority(&self) -> i32 {
        self.priority
    }

    fn gap_after(&self) -> i64 {
        self.delay
    }

    fn constraints(&self) -> Option<&ConstraintExpr<IntervalConstraint>> {
        self.constraints.as_ref()
    }

    fn compute_gap_after(&self, _previous: &Self) -> i64 {
        self.delay
    }
}

} // verus!
