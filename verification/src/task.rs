//! The task capability consumed by the metrics and the solution-space
//! precomputation.

use vstd::prelude::*;

use crate::constraints::{Constraint, ConstraintExpr};

verus! {

/// A schedulable unit: identity, extent on the scheduling axis, priority,
/// a mandatory idle gap after it, and an optional static constraint tree.
pub trait Task {
    /// The leaf rule type of the task's static constraint tree.
    type ConstraintLeaf: Constraint;

    /// The task's extent on the scheduling axis, as contracts see it.
    spec fn spec_size(&self) -> i64;

    /// The task's identity, as contracts see it.
    spec fn spec_name(&self) -> Seq<char>;

    /// Task identity.
    fn name(&self) -> (r: &str)
        ensures
            r@ == self.spec_name(),
    ;

    /// The task's extent on the scheduling axis.
    fn size(&self) -> (r: i64)
        ensures
            r == self.spec_size(),
    ;

    /// Scheduling priority (larger is more urgent).
    fn priority(&self) -> i32;

    /// The idle gap to keep after the task.
    fn gap_after(&self) -> i64;

    /// The static constraint tree, if the task has one.  Tasks without one
    /// are treated as unconstrained by the outer loop.
    fn constraints(&self) -> Option<&ConstraintExpr<Self::ConstraintLeaf>>;

    /// The gap to keep after `previous` when the task directly follows it.
    fn compute_gap_after(&self, previous: &Self) -> i64;
}

/// A task with a position in some coordinate system.
///
/// Intentionally separate from [`Task`] so that core scheduling stays
/// coordinate-agnostic and only domains with spatial information implement
/// it.  The coordinate type `C` is chosen by the domain.
pub trait SpatialTask<C: core::fmt::Debug> {
    /// Returns a reference to the task's spatial position.
    fn position(&self) -> &C;
}

} // verus!
