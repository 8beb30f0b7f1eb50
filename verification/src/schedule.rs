//! The container of committed task placements.
//!
//! A [`Schedule`] maps task ids to placed intervals.  Task ids are unique
//! and placements never overlap pairwise; once added, a placement is never
//! removed.  Dynamic constraints read the schedule through a
//! [`SchedulingContext`](crate::dynamic::SchedulingContext); only the outer
//! scheduling loop mutates it, through [`Schedule::add`].

use vstd::prelude::*;

use crate::interval::Interval;

verus! {

/// Unique identifier of a task.
pub type Id = String;

/// Errors raised at the schedule boundary.  All are recoverable by the
/// caller.  With integer axis values a not-a-number time cannot arise, so
/// [`ScheduleError::NaNTime`] is never produced by this crate; the variant
/// remains for callers converting from floating-point axis sources.
#[derive(Debug, Clone)]
pub enum ScheduleError {
    /// Task id is already present in the schedule.
    DuplicateTaskId(Id),
    /// A time value was not a number.
    NaNTime,
    /// New interval overlaps an existing placement.
    OverlapsExisting { new_id: Id, existing_id: Id },
    /// Task id was not found in the schedule.
    TaskNotFound(Id),
}

impl PartialEq for ScheduleError {
    fn eq(&self, other: &Self) -> (r: bool) {
        match (self, other) {
            (ScheduleError::DuplicateTaskId(a), ScheduleError::DuplicateTaskId(b)) => *a == *b,
            (ScheduleError::NaNTime, ScheduleError::NaNTime) => true,
            (
                ScheduleError::OverlapsExisting { new_id: a, existing_id: b },
                ScheduleError::OverlapsExisting { new_id: c, existing_id: d },
            ) => *a == *c && *b == *d,
            (ScheduleError::TaskNotFound(a), ScheduleError::TaskNotFound(b)) => *a == *b,
            _ => false,
        }
    }
}

impl vstd::std_specs::cmp::PartialEqSpecImpl for ScheduleError {
    open spec fn obeys_eq_spec() -> bool {
        true
    }

    open spec fn eq_spec(&self, other: &Self) -> bool {
        match (self, other) {
            (ScheduleError::DuplicateTaskId(a), ScheduleError::DuplicateTaskId(b)) => a@ == b@,
            (ScheduleError::NaNTime, ScheduleError::NaNTime) => true,
            (
                ScheduleError::OverlapsExisting { new_id: a, existing_id: b },
                ScheduleError::OverlapsExisting { new_id: c, existing_id: d },
            ) => a@ == c@ && b@ == d@,
            (ScheduleError::TaskNotFound(a), ScheduleError::TaskNotFound(b)) => a@ == b@,
            _ => false,
        }
    }
}

/// There is an entry with this id.
pub open spec fn sched_contains(s: Seq<(Id, Interval)>, id: Seq<char>) -> bool {
    exists|i: int| 0 <= i < s.len() && (#[trigger] s[i]).0@ == id
}

/// There is an entry pairing this id with this interval.  Since ids are
/// unique in a schedule, this pins the placed interval of `id`.
pub open spec fn sched_placed(s: Seq<(Id, Interval)>, id: Seq<char>, iv: Interval) -> bool {
    exists|i: int| 0 <= i < s.len() && (#[trigger] s[i]).0@ == id && s[i].1 == iv
}

/// Well-formed schedule contents: unique task ids, well-formed intervals,
/// pairwise non-overlapping placements.
pub open spec fn sched_wf(s: Seq<(Id, Interval)>) -> bool {
    &&& forall|i: int, j: int|
        0 <= i < j < s.len() ==> (#[trigger] s[i]).0@ != (#[trigger] s[j]).0@
    &&& forall|i: int, j: int|
        0 <= i < j < s.len() ==> !(#[trigger] s[i]).1.spec_overlaps((#[trigger] s[j]).1)
    &&& forall|i: int| 0 <= i < s.len() ==> (#[trigger] s[i]).1.spec_wf()
}

/// The set of committed placements, in insertion order.
#[derive(Debug)]
pub struct Schedule {
    entries: Vec<(Id, Interval)>,
}

impl View for Schedule {
    type V = Seq<(Id, Interval)>;

    closed spec fn view(&self) -> Seq<(Id, Interval)> {
        self.entries@
    }
}

impl Schedule {
    /// Task ids are unique and placements never overlap.
    #[verifier::type_invariant]
    pub open spec fn spec_wf(self) -> bool {
        sched_wf(self@)
    }

    /// The empty schedule.
    pub fn new() -> (r: Schedule)
        ensures
            r@ =~= Seq::<(Id, Interval)>::empty(),
    {
        Schedule { entries: Vec::new() }
    }

    pub fn len(&self) -> (r: usize)
        ensures
            r == self@.len(),
    {
        self.entries.len()
    }

    pub fn is_empty(&self) -> (r: bool)
        ensures
            r == (self@.len() == 0),
    {
        self.entries.len() == 0
    }

    /// Whether `task_id` has a committed placement.
    pub fn contains_task(&self, task_id: &str) -> (r: bool)
        ensures
            r == sched_contains(self@, task_id@),
    {
        let key: String = task_id.to_owned();
        let n: usize = self.entries.len();
        let mut i: usize = 0;
        while i < n
            invariant
                n == self@.len(),
                0 <= i <= n,
                key@ == task_id@,
                forall|k: int| 0 <= k < i ==> (#[trigger] self@[k]).0@ != task_id@,
            decreases n - i,
        {
            if self.entries[i].0 == key {
                assert(self@[i as int].0@ == task_id@);
                return true;
            }
            i += 1;
        }
        false
    }

    /// The placed interval of `task_id`, or `None` when absent.
    pub fn get_interval(&self, task_id: &str) -> (r: Option<Interval>)
        ensures
            r is Some <==> sched_contains(self@, task_id@),
            r is Some ==> sched_placed(self@, task_id@, r->0),
    {
        let key: String = task_id.to_owned();
        let n: usize = self.entries.len();
        let mut i: usize = 0;
        while i < n
            invariant
                n == self@.len(),
                0 <= i <= n,
                key@ == task_id@,
                forall|k: int| 0 <= k < i ==> (#[trigger] self@[k]).0@ != task_id@,
            decreases n - i,
        {
            if self.entries[i].0 == key {
                assert(self@[i as int].0@ == task_id@);
                return Some(self.entries[i].1);
            }
            i += 1;
        }
        None
    }

    /// Commits the placement `task_id -> interval`.
    ///
    /// Fails when the id is already present, or when the interval overlaps
    /// an existing placement (reporting the earliest conflicting task id, in
    /// insertion order).  On failure the schedule is unchanged; on success
    /// exactly this one placement is appended.
    pub fn add(&mut self, task_id: &str, interval: Interval) -> (r: Result<(), ScheduleError>)
        ensures
            r is Ok <==> (!sched_contains(old(self)@, task_id@) && (forall|k: int|
                0 <= k < old(self)@.len() ==> !(#[trigger] old(self)@[k]).1.spec_overlaps(
                    interval,
                ))),
            r is Ok ==> {
                &&& final(self)@.len() == old(self)@.len() + 1
                &&& final(self)@.take(old(self)@.len() as int) == old(self)@
                &&& final(self)@.last().0@ == task_id@
                &&& final(self)@.last().1 == interval
            },
            r is Err ==> final(self)@ == old(self)@,
            sched_contains(old(self)@, task_id@) ==> (r matches Err(
                ScheduleError::DuplicateTaskId(x),
            ) && x@ == task_id@),
            !sched_contains(old(self)@, task_id@) && (exists|k: int|
                0 <= k < old(self)@.len() && (#[trigger] old(self)@[k]).1.spec_overlaps(interval))
                ==> (r matches Err(ScheduleError::OverlapsExisting { new_id, existing_id }) && {
                &&& new_id@ == task_id@
                &&& exists|k: int|
                    0 <= k < old(self)@.len() && (#[trigger] old(self)@[k]).0@ == existing_id@
                        && old(self)@[k].1.spec_overlaps(interval) && (forall|k2: int|
                        0 <= k2 < k ==> !(#[trigger] old(self)@[k2]).1.spec_overlaps(interval))
            }),
    {
        proof {
            use_type_invariant(&*self);
            use_type_invariant(interval);
        }
        let key: String = task_id.to_owned();
        let n: usize = self.entries.len();
        let mut i: usize = 0;
        while i < n
            invariant
                n == self@.len(),
                0 <= i <= n,
                key@ == task_id@,
                forall|k: int| 0 <= k < i ==> (#[trigger] self@[k]).0@ != task_id@,
            decreases n - i,
        {
            if self.entries[i].0 == key {
                assert(self@[i as int].0@ == task_id@);
                return Err(ScheduleError::DuplicateTaskId(key));
            }
            i += 1;
        }
        i = 0;
        while i < n
            invariant
                n == self@.len(),
                0 <= i <= n,
                key@ == task_id@,
                forall|k: int| 0 <= k < n ==> (#[trigger] self@[k]).0@ != task_id@,
                forall|k: int|
                    0 <= k < i ==> !(#[trigger] self@[k]).1.spec_overlaps(interval),
            decreases n - i,
        {
            let placed: Interval = self.entries[i].1;
            if placed.overlaps(&interval) {
                let existing: String = self.entries[i].0.clone();
                assert(self@[i as int].0@ == existing@);
                assert(self@[i as int].1.spec_overlaps(interval));
                return Err(
                    ScheduleError::OverlapsExisting { new_id: key, existing_id: existing },
                );
            }
            i += 1;
        }
        let ghost old_entries = self@;
        let mut entries: Vec<(Id, Interval)> = Vec::new();
        std::mem::swap(&mut entries, &mut self.entries);
        entries.push((key, interval));
        self.entries = entries;
        proof {
            assert(self@.take(old_entries.len() as int) =~= old_entries);
            assert forall|a: int, b: int| 0 <= a < b < self@.len() implies (#[trigger] self@[a]).0@
                != (#[trigger] self@[b]).0@ by {
                if b == self@.len() - 1 {
                    assert(self@[a] == old_entries[a]);
                }
            }
            assert forall|a: int, b: int| 0 <= a < b < self@.len() implies !(
            #[trigger] self@[a]).1.spec_overlaps((#[trigger] self@[b]).1) by {
                if b == self@.len() - 1 {
                    assert(self@[a] == old_entries[a]);
                    crate::interval::lemma_overlaps_symmetric_adjacent(self@[a].1, self@[b].1);
                }
            }
        }
        Ok(())
    }
}

} // verus!
