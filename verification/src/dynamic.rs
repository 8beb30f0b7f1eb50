//! Schedule-state-dependent constraints.
//!
//! Dynamic constraints depend on the partial schedule built so far: their
//! evaluation receives a read-only [`SchedulingContext`] in addition to the
//! query range.  The built-in kinds relate a *reference* task (the source of
//! a dependency edge) to the constrained task being considered.

use vstd::prelude::*;

use crate::interval::{Interval, quantity_max};
use crate::interval_set::{normalized_seq, seq_mem, IntervalSet};
use crate::schedule::{sched_contains, sched_placed, sched_wf, Id, Schedule};
use crate::solution_space::SolutionSpace;

verus! {

/// Read-only snapshot handed to dynamic constraints during evaluation:
/// the current partial schedule and the static solution space.  Neither is
/// ever mutated through the context.
#[derive(Debug)]
pub struct SchedulingContext<'a> {
    /// Current partial schedule (tasks already placed).
    pub schedule: &'a Schedule,
    /// Static solution space (precomputed from static constraints).
    pub solution_space: &'a SolutionSpace,
}

impl<'a> SchedulingContext<'a> {
    /// Creates a new context from the current schedule and solution space.
    pub fn new(schedule: &'a Schedule, solution_space: &'a SolutionSpace) -> (r: Self)
        ensures
            r.schedule == schedule,
            r.solution_space == solution_space,
    {
        SchedulingContext { schedule, solution_space }
    }
}

/// The interval placed for `id`, where one is placed.  Well-defined whenever
/// ids are unique (the schedule invariant).
pub open spec fn placed_interval(s: Seq<(Id, Interval)>, id: Seq<char>) -> Interval {
    choose|iv: Interval| sched_placed(s, id, iv)
}

/// In a well-formed schedule, `placed_interval` returns the one interval
/// paired with `id`.
pub proof fn lemma_placed_unique(s: Seq<(Id, Interval)>, id: Seq<char>, iv: Interval)
    requires
        sched_wf(s),
        sched_placed(s, id, iv),
    ensures
        placed_interval(s, id) == iv,
{
    let iv2 = placed_interval(s, id);
    assert(sched_placed(s, id, iv2));
    let i1 = choose|i: int| 0 <= i < s.len() && (#[trigger] s[i]).0@ == id && s[i].1 == iv;
    let i2 = choose|i: int| 0 <= i < s.len() && (#[trigger] s[i]).0@ == id && s[i].1 == iv2;
    assert(i1 == i2);
}

/// Computes the sub-ranges of a query range where a schedule-dependent
/// condition holds.
///
/// `ref_task_id` is the task on the other end of the dependency edge,
/// resolved from graph topology, never stored inside the constraint; `ctx`
/// is an immutable view of the current scheduling state.  Implementations
/// must be deterministic for identical inputs and return an empty set (not
/// an error) when no valid sub-range exists; the returned set is canonical
/// by construction and pinned pointwise by `spec_allows`.
pub trait DynamicConstraint: Send + Sync {
    /// Whether the constraint admits point `p` of the query range, given
    /// the schedule contents.
    spec fn spec_allows(
        &self,
        range: Interval,
        ref_task_id: Seq<char>,
        schedule: Seq<(Id, Interval)>,
        p: int,
    ) -> bool;

    /// Evaluates the constraint within `range` against the current context.
    fn compute_intervals(
        &self,
        range: Interval,
        ref_task_id: &str,
        ctx: &SchedulingContext,
    ) -> (r: IntervalSet)
        ensures
            normalized_seq(r@),
            forall|p: int|
                #![trigger seq_mem(r@, p)]
                seq_mem(r@, p) == self.spec_allows(range, ref_task_id@, ctx.schedule@, p),
    ;

    /// A stable human-readable description, for diagnostics only.
    fn stringify(&self) -> String;
}

/// Built-in dynamic constraint kinds.
///
/// Attached as edge data in a [`DynamicConstraintIndex`], each variant
/// describes the relationship from the edge's source (reference task) to the
/// edge's target (constrained task).
#[derive(Debug, Clone, Copy, PartialEq, Eq, Hash, Structural)]
pub enum DynConstraintKind {
    /// Target is schedulable **only if** the reference task has been placed:
    /// the full range when the reference is scheduled, else empty.
    Dependence,
    /// Target is schedulable **only after** the reference task finishes.
    ///
    /// Implies dependence: with the reference placed at `[a_start, a_end)`
    /// the valid region is `[max(range.start, a_end), range.end)`; with the
    /// reference absent the result is empty.
    Consecutive,
    /// Target is schedulable **only if** the reference task is **not**
    /// placed: the full range when the reference is absent, else empty.
    Exclusive,
}

impl DynamicConstraint for DynConstraintKind {
    open spec fn spec_allows(
        &self,
        range: Interval,
        ref_task_id: Seq<char>,
        schedule: Seq<(Id, Interval)>,
        p: int,
    ) -> bool {
        match self {
            DynConstraintKind::Dependence => sched_contains(schedule, ref_task_id)
                && range.spec_contains(p),
            DynConstraintKind::Consecutive => sched_contains(schedule, ref_task_id)
                && range.spec_contains(p) && placed_interval(schedule, ref_task_id).spec_end()
                <= p,
            DynConstraintKind::Exclusive => !sched_contains(schedule, ref_task_id)
                && range.spec_contains(p),
        }
    }

    fn compute_intervals(
        &self,
        range: Interval,
        ref_task_id: &str,
        ctx: &SchedulingContext,
    ) -> (r: IntervalSet)
    {
        proof {
            use_type_invariant(range);
            use_type_invariant(ctx.schedule);
        }
        match self {
            DynConstraintKind::Dependence => {
                if ctx.schedule.contains_task(ref_task_id) {
                    IntervalSet::of_range(range)
                } else {
                    IntervalSet::new()
                }
            },
            DynConstraintKind::Consecutive => {
                match ctx.schedule.get_interval(ref_task_id) {
                    Some(ref_interval) => {
                        proof {
                            lemma_placed_unique(ctx.schedule@, ref_task_id@, ref_interval);
                            use_type_invariant(ref_interval);
                        }
                        let effective_start: i64 = quantity_max(range.start(), ref_interval.end());
                        if effective_start < range.end() {
                            IntervalSet::of_range(Interval::new(effective_start, range.end()))
                        } else {
                            IntervalSet::new()
                        }
                    },
                    None => {
                        // Reference task not scheduled: target cannot be scheduled.
                        IntervalSet::new()
                    },
                }
            },
            DynConstraintKind::Exclusive => {
                if ctx.schedule.contains_task(ref_task_id) {
                    IntervalSet::new()
                } else {
                    IntervalSet::of_range(range)
                }
            },
        }
    }

    fn stringify(&self) -> (r: String)
        ensures
            self is Dependence ==> r@ == "Dependence"@,
            self is Consecutive ==> r@ == "Consecutive"@,
            self is Exclusive ==> r@ == "Exclusive"@,
    {
        match self {
            DynConstraintKind::Dependence => "Dependence".to_owned(),
            DynConstraintKind::Consecutive => "Consecutive".to_owned(),
            DynConstraintKind::Exclusive => "Exclusive".to_owned(),
        }
    }
}

/// A consecutive relationship implies dependence: wherever the
/// [`DynConstraintKind::Consecutive`] constraint admits a point, the
/// [`DynConstraintKind::Dependence`] constraint admits it too.
pub proof fn lemma_consecutive_implies_dependence(
    range: Interval,
    ref_task_id: Seq<char>,
    schedule: Seq<(Id, Interval)>,
    p: int,
)
    ensures
        DynConstraintKind::Consecutive.spec_allows(range, ref_task_id, schedule, p)
            ==> DynConstraintKind::Dependence.spec_allows(range, ref_task_id, schedule, p),
{
}

/// An edge of the index: reference (source) task, constrained (target)
/// task, and the constraint kind on that edge.
pub type Edge = (Id, Id, DynConstraintKind);

/// There is an edge from `source` to `target`.
pub open spec fn edge_contains(s: Seq<Edge>, source: Seq<char>, target: Seq<char>) -> bool {
    exists|i: int|
        0 <= i < s.len() && (#[trigger] s[i]).0@ == source && s[i].1@ == target
}

/// There is an edge from `source` to `target` carrying `kind`.  Since edges
/// are unique per (source, target) pair, this pins the kind.
pub open spec fn edge_present(
    s: Seq<Edge>,
    source: Seq<char>,
    target: Seq<char>,
    kind: DynConstraintKind,
) -> bool {
    exists|i: int|
        0 <= i < s.len() && (#[trigger] s[i]).0@ == source && s[i].1@ == target && s[i].2 == kind
}

/// Each (source, target) pair appears at most once.
pub open spec fn edges_wf(s: Seq<Edge>) -> bool {
    forall|i: int, j: int|
        0 <= i < j < s.len() ==> !((#[trigger] s[i]).0@ == (#[trigger] s[j]).0@ && s[i].1@
            == s[j].1@)
}

/// Maps each dependency edge of the task graph to its dynamic constraint
/// kind, so the outer loop can enumerate the incoming edges of a candidate
/// task and evaluate each against the current context.
#[derive(Debug)]
pub struct DynamicConstraintIndex {
    edges: Vec<Edge>,
}

impl View for DynamicConstraintIndex {
    type V = Seq<Edge>;

    closed spec fn view(&self) -> Seq<Edge> {
        self.edges@
    }
}

impl DynamicConstraintIndex {
    /// Each (source, target) pair carries at most one constraint kind.
    #[verifier::type_invariant]
    pub open spec fn spec_wf(self) -> bool {
        edges_wf(self@)
    }

    /// The empty index.
    pub fn new() -> (r: DynamicConstraintIndex)
        ensures
            r@ =~= Seq::<Edge>::empty(),
    {
        DynamicConstraintIndex { edges: Vec::new() }
    }

    pub fn len(&self) -> (r: usize)
        ensures
            r == self@.len(),
    {
        self.edges.len()
    }

    /// Registers the constraint `kind` on the edge `source -> target`.
    /// Returns `false`, leaving the index unchanged, when the edge already
    /// carries a constraint.
    pub fn add_edge(&mut self, source: String, target: String, kind: DynConstraintKind) -> (r:
        bool)
        ensures
            r == !edge_contains(old(self)@, source@, target@),
            r ==> {
                &&& final(self)@.len() == old(self)@.len() + 1
                &&& final(self)@.take(old(self)@.len() as int) == old(self)@
                &&& final(self)@.last().0@ == source@
                &&& final(self)@.last().1@ == target@
                &&& final(self)@.last().2 == kind
            },
            !r ==> final(self)@ == old(self)@,
    {
        proof {
            use_type_invariant(&*self);
        }
        let n: usize = self.edges.len();
        let mut i: usize = 0;
        while i < n
            invariant
                n == self@.len(),
                0 <= i <= n,
                forall|k: int|
                    0 <= k < i ==> !((#[trigger] self@[k]).0@ == source@ && self@[k].1@
                        == target@),
            decreases n - i,
        {
            if self.edges[i].0 == source && self.edges[i].1 == target {
                assert(self@[i as int].0@ == source@ && self@[i as int].1@ == target@);
                return false;
            }
            i += 1;
        }
        let ghost old_edges = self@;
        let mut edges: Vec<Edge> = Vec::new();
        std::mem::swap(&mut edges, &mut self.edges);
        edges.push((source, target, kind));
        self.edges = edges;
        proof {
            assert(self@.take(old_edges.len() as int) =~= old_edges);
            assert forall|a: int, b: int| 0 <= a < b < self@.len() implies !((
            #[trigger] self@[a]).0@ == (#[trigger] self@[b]).0@ && self@[a].1@ == self@[b].1@) by {
                if b == self@.len() - 1 {
                    assert(self@[a] == old_edges[a]);
                }
            }
        }
        true
    }

    /// The constraint kind on the edge `source -> target`, if any.
    pub fn get(&self, source: &str, target: &str) -> (r: Option<DynConstraintKind>)
        ensures
            r is Some <==> edge_contains(self@, source@, target@),
            r is Some ==> edge_present(self@, source@, target@, r->0),
    {
        let skey: String = source.to_owned();
        let tkey: String = target.to_owned();
        let n: usize = self.edges.len();
        let mut i: usize = 0;
        while i < n
            invariant
                n == self@.len(),
                0 <= i <= n,
                skey@ == source@,
                tkey@ == target@,
                forall|k: int|
                    0 <= k < i ==> !((#[trigger] self@[k]).0@ == source@ && self@[k].1@
                        == target@),
            decreases n - i,
        {
            if self.edges[i].0 == skey && self.edges[i].1 == tkey {
                assert(self@[i as int].0@ == source@ && self@[i as int].1@ == target@);
                return Some(self.edges[i].2);
            }
            i += 1;
        }
        None
    }

    /// The incoming edges of `target`: each reference (source) task id with
    /// its constraint kind, in insertion order.
    pub fn incoming(&self, target: &str) -> (r: Vec<(Id, DynConstraintKind)>)
        ensures
            forall|k: int|
                0 <= k < r@.len() ==> edge_present(
                    self@,
                    (#[trigger] r@[k]).0@,
                    target@,
                    r@[k].1,
                ),
            forall|i: int|
                0 <= i < self@.len() && (#[trigger] self@[i]).1@ == target@ ==> (exists|k: int|
                    0 <= k < r@.len() && (#[trigger] r@[k]).0@ == self@[i].0@ && r@[k].1
                        == self@[i].2),
    {
        let tkey: String = target.to_owned();
        let n: usize = self.edges.len();
        let mut out: Vec<(Id, DynConstraintKind)> = Vec::new();
        let mut i: usize = 0;
        while i < n
            invariant
                n == self@.len(),
                0 <= i <= n,
                tkey@ == target@,
                forall|k: int|
                    0 <= k < out@.len() ==> edge_present(
                        self@,
                        (#[trigger] out@[k]).0@,
                        target@,
                        out@[k].1,
                    ),
                forall|i2: int|
                    0 <= i2 < i && (#[trigger] self@[i2]).1@ == target@ ==> (exists|k: int|
                        0 <= k < out@.len() && (#[trigger] out@[k]).0@ == self@[i2].0@ && out@[k].1
                            == self@[i2].2),
            decreases n - i,
        {
            if self.edges[i].1 == tkey {
                let source: String = self.edges[i].0.clone();
                let kind: DynConstraintKind = self.edges[i].2;
                let ghost old_out = out@;
                out.push((source, kind));
                proof {
                    assert(self@[i as int].0@ == out@.last().0@);
                    assert(edge_present(self@, out@.last().0@, target@, out@.last().1));
                    assert forall|i2: int|
                        0 <= i2 < i + 1 && (#[trigger] self@[i2]).1@ == target@ implies (exists|
                        k: int|
                        0 <= k < out@.len() && (#[trigger] out@[k]).0@ == self@[i2].0@ && out@[k].1
                            == self@[i2].2) by {
                        if i2 < i {
                            let k = choose|k: int|
                                0 <= k < old_out.len() && (#[trigger] old_out[k]).0@
                                    == self@[i2].0@ && old_out[k].1 == self@[i2].2;
                            assert(out@[k].0@ == self@[i2].0@ && out@[k].1 == self@[i2].2);
                        } else {
                            assert(out@.last().0@ == self@[i2].0@ && out@.last().1 == self@[i2].2);
                        }
                    }
                }
            }
            i += 1;
        }
        out
    }
}

} // verus!
