//! Half-open interval `[start, end)` on the scheduling axis.

use vstd::prelude::*;

verus! {

/// Largest magnitude an axis position may take.  Keeping every endpoint in
/// `[-AXIS_BOUND, AXIS_BOUND]` guarantees that durations, metric sums and
/// deadline computations never overflow an `i64`.
pub const AXIS_BOUND: i64 = 1_000_000_000_000_000_000;

/// Continuous range `[start, end)` where a task may be scheduled.
///
/// The interval is **half-open**: `start` is inclusive, `end` is exclusive.
/// This avoids ambiguity at shared boundaries (two abutting intervals never
/// overlap) and eliminates the need for epsilon offsets in the scheduler.
///
/// Every constructed interval satisfies `start <= end`, with both endpoints
/// within `[-AXIS_BOUND, AXIS_BOUND]`.
#[derive(Debug, Clone, Copy, PartialEq, Eq, Structural)]
pub struct Interval {
    start: i64,
    end: i64,
}

impl Interval {
    /// Start of the interval (inclusive), as a mathematical integer.
    pub closed spec fn spec_start(self) -> int {
        self.start as int
    }

    /// End of the interval (exclusive), as a mathematical integer.
    pub closed spec fn spec_end(self) -> int {
        self.end as int
    }

    /// A well-formed interval: ordered endpoints within the axis bound.
    /// Every interval constructed at run time satisfies this.
    #[verifier::type_invariant]
    pub open spec fn spec_wf(self) -> bool {
        -(AXIS_BOUND as int) <= self.spec_start()
            && self.spec_start() <= self.spec_end()
            && self.spec_end() <= AXIS_BOUND as int
    }

    /// Length of the interval.
    pub open spec fn spec_duration(self) -> int {
        self.spec_end() - self.spec_start()
    }

    /// Point membership: `start <= p < end`.
    pub open spec fn spec_contains(self, p: int) -> bool {
        self.spec_start() <= p < self.spec_end()
    }

    /// Overlap: the intervals share at least one point.  Abutting intervals
    /// (`self.end == other.start`) do **not** overlap.
    pub open spec fn spec_overlaps(self, other: Interval) -> bool {
        self.spec_start() < other.spec_end() && other.spec_start() < self.spec_end()
    }

    /// Creates interval `[start, end)`.
    ///
    /// Callers must have validated `start <= end` (and the axis bound)
    /// already; the fallible form is [`Interval::try_new`].
    pub fn new(start: i64, end: i64) -> (r: Interval)
        requires
            -AXIS_BOUND <= start <= end <= AXIS_BOUND,
        ensures
            r.spec_start() == start,
            r.spec_end() == end,
    {
        Interval { start, end }
    }

    /// Fallible construction: returns `None` when `start > end` or an
    /// endpoint lies outside the representable axis range.
    pub fn try_new(start: i64, end: i64) -> (r: Option<Interval>)
        ensures
            r is Some <==> -AXIS_BOUND <= start <= end <= AXIS_BOUND,
            r is Some ==> r->0.spec_start() == start && r->0.spec_end() == end,
    {
        if -AXIS_BOUND <= start && start <= end && end <= AXIS_BOUND {
            Some(Interval { start, end })
        } else {
            None
        }
    }

    pub fn start(&self) -> (r: i64)
        ensures
            r == self.spec_start(),
    {
        self.start
    }

    pub fn end(&self) -> (r: i64)
        ensures
            r == self.spec_end(),
    {
        self.end
    }

    /// Length `end - start`; never negative.
    pub fn duration(&self) -> (r: i64)
        ensures
            r == self.spec_duration(),
            r >= 0,
    {
        proof {
            use_type_invariant(self);
        }
        self.end - self.start
    }

    /// Returns true if `position` is in `[start, end)` (start inclusive, end
    /// exclusive).
    pub fn contains(&self, position: i64) -> (r: bool)
        ensures
            r == self.spec_contains(position as int),
    {
        self.start <= position && position < self.end
    }

    /// Returns true if this interval shares any point with `other`.
    ///
    /// Because intervals are half-open, abutting intervals
    /// (`self.end == other.start`) do **not** overlap — they are back-to-back
    /// with no shared point.
    pub fn overlaps(&self, other: &Interval) -> (r: bool)
        ensures
            r == self.spec_overlaps(*other),
    {
        self.start < other.end && other.start < self.end
    }

    /// The overlapping sub-range of the two intervals, or `None` when they do
    /// not overlap.  When present, its bounds are the larger of the two
    /// starts and the smaller of the two ends.
    pub fn intersection(&self, other: &Interval) -> (r: Option<Interval>)
        ensures
            r is Some <==> self.spec_overlaps(*other),
            r is Some ==> {
                &&& r->0.spec_start() == spec_max(self.spec_start(), other.spec_start())
                &&& r->0.spec_end() == spec_min(self.spec_end(), other.spec_end())
            },
    {
        proof {
            use_type_invariant(self);
            use_type_invariant(other);
        }
        if self.overlaps(other) {
            let start: i64 = if self.start > other.start {
                self.start
            } else {
                other.start
            };
            let end: i64 = if self.end < other.end {
                self.end
            } else {
                other.end
            };
            Some(Interval { start, end })
        } else {
            None
        }
    }

    /// Returns true if a task of `size` fits when started at
    /// `start_position`: the start lies in the interval and
    /// `start_position + size` does not pass the end.
    pub fn can_fit(&self, start_position: i64, size: i64) -> (r: bool)
        ensures
            r == (self.spec_contains(start_position as int)
                && start_position + size <= self.spec_end()),
    {
        self.contains(start_position)
            && (start_position as i128) + (size as i128) <= (self.end as i128)
    }
}

/// Smaller of two mathematical integers.
pub open spec fn spec_min(a: int, b: int) -> int {
    if a < b {
        a
    } else {
        b
    }
}

/// Larger of two mathematical integers.
pub open spec fn spec_max(a: int, b: int) -> int {
    if a > b {
        a
    } else {
        b
    }
}

/// Returns the smaller of two axis values.
pub fn quantity_min(a: i64, b: i64) -> (r: i64)
    ensures
        r == spec_min(a as int, b as int),
{
    if a <= b {
        a
    } else {
        b
    }
}

/// Returns the larger of two axis values.
pub fn quantity_max(a: i64, b: i64) -> (r: i64)
    ensures
        r == spec_max(a as int, b as int),
{
    if a >= b {
        a
    } else {
        b
    }
}

/// A well-formed interval is ordered (`start <= end`), so its duration is
/// non-negative.
pub proof fn lemma_interval_duration_nonneg(iv: Interval)
    requires
        iv.spec_wf(),
    ensures
        iv.spec_start() <= iv.spec_end(),
        iv.spec_duration() >= 0,
{
}

/// Two intervals with equal bounds are equal.
pub proof fn lemma_interval_ext_equal(a: Interval, b: Interval)
    requires
        a.spec_start() == b.spec_start(),
        a.spec_end() == b.spec_end(),
    ensures
        a == b,
{
}

/// Overlap is symmetric, and abutting half-open intervals
/// (`a.end == b.start`) never overlap.
pub proof fn lemma_overlaps_symmetric_adjacent(a: Interval, b: Interval)
    requires
        a.spec_wf(),
        b.spec_wf(),
    ensures
        a.spec_overlaps(b) == b.spec_overlaps(a),
        a.spec_end() == b.spec_start() ==> !a.spec_overlaps(b),
{
}

} // verus!
