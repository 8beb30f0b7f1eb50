//! Earliest start, deadline and flexibility metrics.
//!
//! All three metrics combine a task's precomputed solution-space windows,
//! the task's size on the axis, and the **static horizon** — the fixed,
//! whole-run scheduling boundary, never a shrinking "remaining window".
//! The outer loop tracks its progress in a separate cursor; passing a moved
//! cursor here would understate flexibility and break determinism between
//! incremental and batch evaluation.

use vstd::prelude::*;

use crate::interval::{spec_max, spec_min, Interval, AXIS_BOUND};
use crate::interval_set::{canonical_seq, lemma_canonical_pairwise, IntervalSet};
use crate::solution_space::{
    lemma_space_windows_unique, space_contains, space_windows, SolutionSpace,
};
use crate::task::Task;

verus! {

/// Start of the overlap of window `w` with horizon `h`.
pub open spec fn inter_lo(w: Interval, h: Interval) -> int {
    spec_max(w.spec_start(), h.spec_start())
}

/// End of the overlap of window `w` with horizon `h`.
pub open spec fn inter_hi(w: Interval, h: Interval) -> int {
    spec_min(w.spec_end(), h.spec_end())
}

/// Whether a task of `size` fits in window `w` clipped to horizon `h`: the
/// two overlap and the overlap is at least `size` long.
pub open spec fn window_fits(w: Interval, size: i64, h: Interval) -> bool {
    w.spec_overlaps(h) && inter_hi(w, h) - inter_lo(w, h) >= size
}

/// The earliest start time offered by `ws` in ascending order: the start of
/// the first horizon-clipped window that holds the task, if any.
pub open spec fn est_of(ws: Seq<Interval>, size: i64, h: Interval) -> Option<int>
    decreases ws.len(),
{
    if ws.len() == 0 {
        None
    } else if window_fits(ws[0], size, h) {
        Some(inter_lo(ws[0], h))
    } else {
        est_of(ws.drop_first(), size, h)
    }
}

/// The latest start time offered by `ws`: the clipped end of the last
/// horizon-clipped window that holds the task, minus the task size.
pub open spec fn deadline_of(ws: Seq<Interval>, size: i64, h: Interval) -> Option<int>
    decreases ws.len(),
{
    if ws.len() == 0 {
        None
    } else if window_fits(ws.last(), size, h) {
        Some(inter_hi(ws.last(), h) - size)
    } else {
        deadline_of(ws.drop_last(), size, h)
    }
}

/// The flexibility numerator: the summed lengths of the horizon-clipped
/// windows that hold the task.  Flexibility itself is this sum divided by
/// the task size.
pub open spec fn flex_num_of(ws: Seq<Interval>, size: i64, h: Interval) -> int
    decreases ws.len(),
{
    if ws.len() == 0 {
        0
    } else {
        flex_num_of(ws.drop_last(), size, h) + if window_fits(ws.last(), size, h) {
            inter_hi(ws.last(), h) - inter_lo(ws.last(), h)
        } else {
            0
        }
    }
}

/// Task flexibility as an exact ratio: how many times the task fits into
/// its qualifying horizon-clipped windows.  The value is
/// `numerator / denominator`; a value below one means the task cannot be
/// placed at all.
#[derive(Debug, Clone, Copy, PartialEq, Eq, Structural)]
pub struct Flexibility {
    /// Summed lengths of the qualifying horizon-clipped windows.
    pub numerator: i64,
    /// The task's size on the axis.
    pub denominator: i64,
}

proof fn lemma_est_skip_step(ws: Seq<Interval>, i: int, size: i64, h: Interval)
    requires
        0 <= i < ws.len(),
        !window_fits(ws[i], size, h),
    ensures
        est_of(ws.skip(i), size, h) == est_of(ws.skip(i + 1), size, h),
{
    assert(ws.skip(i)[0] == ws[i]);
    assert(ws.skip(i).drop_first() =~= ws.skip(i + 1));
}

proof fn lemma_est_none(ws: Seq<Interval>, size: i64, h: Interval)
    requires
        forall|k: int| 0 <= k < ws.len() ==> !window_fits(#[trigger] ws[k], size, h),
    ensures
        est_of(ws, size, h) is None,
    decreases ws.len(),
{
    if ws.len() > 0 {
        assert(!window_fits(ws[0], size, h));
        assert(forall|k: int|
            0 <= k < ws.drop_first().len() ==> !window_fits(
                #[trigger] ws.drop_first()[k],
                size,
                h,
            ));
        lemma_est_none(ws.drop_first(), size, h);
    }
}

proof fn lemma_deadline_take_step(ws: Seq<Interval>, j: int, size: i64, h: Interval)
    requires
        0 < j <= ws.len(),
        !window_fits(ws[j - 1], size, h),
    ensures
        deadline_of(ws.take(j), size, h) == deadline_of(ws.take(j - 1), size, h),
{
    assert(ws.take(j).last() == ws[j - 1]);
    assert(ws.take(j).drop_last() =~= ws.take(j - 1));
}

proof fn lemma_deadline_none(ws: Seq<Interval>, size: i64, h: Interval)
    requires
        forall|k: int| 0 <= k < ws.len() ==> !window_fits(#[trigger] ws[k], size, h),
    ensures
        deadline_of(ws, size, h) is None,
    decreases ws.len(),
{
    if ws.len() > 0 {
        assert(!window_fits(ws.last(), size, h));
        assert(forall|k: int|
            0 <= k < ws.drop_last().len() ==> !window_fits(#[trigger] ws.drop_last()[k], size, h));
        lemma_deadline_none(ws.drop_last(), size, h);
    }
}

proof fn lemma_flex_take_step(ws: Seq<Interval>, i: int, size: i64, h: Interval)
    requires
        0 <= i < ws.len(),
    ensures
        flex_num_of(ws.take(i + 1), size, h) == flex_num_of(ws.take(i), size, h) + (
        if window_fits(ws[i], size, h) {
            inter_hi(ws[i], h) - inter_lo(ws[i], h)
        } else {
            0int
        }),
{
    assert(ws.take(i + 1).last() == ws[i]);
    assert(ws.take(i + 1).drop_last() =~= ws.take(i));
}

proof fn lemma_flex_rest_zero(ws: Seq<Interval>, i: int, size: i64, h: Interval)
    requires
        0 <= i <= ws.len(),
        forall|k: int| i <= k < ws.len() ==> !window_fits(#[trigger] ws[k], size, h),
    ensures
        flex_num_of(ws, size, h) == flex_num_of(ws.take(i), size, h),
    decreases ws.len() - i,
{
    if i == ws.len() {
        assert(ws.take(i) =~= ws);
    } else {
        lemma_flex_take_step(ws, ws.len() as int - 1, size, h);
        assert(ws.take(ws.len() as int) =~= ws);
        assert(!window_fits(ws[ws.len() - 1], size, h));
        assert(forall|k: int|
            i <= k < ws.take(ws.len() as int - 1).len() ==> !window_fits(
                #[trigger] ws.take(ws.len() as int - 1)[k],
                size,
                h,
            ));
        lemma_flex_rest_zero(ws.take(ws.len() as int - 1), i, size, h);
        assert(ws.take(ws.len() as int - 1).take(i) =~= ws.take(i));
    }
}

/// The flexibility numerator is never negative: qualifying windows
/// contribute their (positive) clipped length and the rest contribute
/// nothing.
pub proof fn lemma_flex_nonneg(ws: Seq<Interval>, size: i64, h: Interval)
    requires
        crate::interval_set::seq_wf(ws),
        h.spec_wf(),
    ensures
        flex_num_of(ws, size, h) >= 0,
    decreases ws.len(),
{
    if ws.len() > 0 {
        assert(ws.last().spec_wf());
        assert(forall|k: int|
            0 <= k < ws.drop_last().len() ==> (#[trigger] ws.drop_last()[k]).spec_wf());
        lemma_flex_nonneg(ws.drop_last(), size, h);
    }
}

proof fn lemma_flex_with_fit(ws: Seq<Interval>, size: i64, h: Interval)
    requires
        crate::interval_set::seq_wf(ws),
        h.spec_wf(),
        exists|k: int| 0 <= k < ws.len() && window_fits(#[trigger] ws[k], size, h),
    ensures
        flex_num_of(ws, size, h) >= size,
    decreases ws.len(),
{
    let k = choose|k: int| 0 <= k < ws.len() && window_fits(#[trigger] ws[k], size, h);
    assert(forall|k2: int|
        0 <= k2 < ws.drop_last().len() ==> (#[trigger] ws.drop_last()[k2]).spec_wf());
    lemma_flex_nonneg(ws.drop_last(), size, h);
    if k == ws.len() - 1 {
        assert(ws.last().spec_wf());
    } else {
        assert(ws.drop_last()[k] == ws[k]);
        lemma_flex_with_fit(ws.drop_last(), size, h);
    }
}

proof fn lemma_est_none_iff(ws: Seq<Interval>, size: i64, h: Interval)
    ensures
        (est_of(ws, size, h) is None) <==> (forall|k: int|
            0 <= k < ws.len() ==> !window_fits(#[trigger] ws[k], size, h)),
    decreases ws.len(),
{
    if ws.len() > 0 {
        lemma_est_none_iff(ws.drop_first(), size, h);
        if est_of(ws, size, h) is None {
            assert forall|k: int| 0 <= k < ws.len() implies !window_fits(
                #[trigger] ws[k],
                size,
                h,
            ) by {
                if k > 0 {
                    assert(ws.drop_first()[k - 1] == ws[k]);
                }
            }
        } else {
            if !window_fits(ws[0], size, h) {
                let k = choose|k: int|
                    0 <= k < ws.drop_first().len() && window_fits(
                        #[trigger] ws.drop_first()[k],
                        size,
                        h,
                    );
                assert(ws.drop_first()[k] == ws[k + 1]);
                assert(window_fits(ws[k + 1], size, h));
            }
        }
    }
}

/// Flexibility below one signals an impossible task: the numerator stays
/// under the task size exactly when no horizon-clipped window holds the
/// task, which is exactly when the earliest-start scan comes up empty.
pub proof fn lemma_flexibility_threshold(ws: Seq<Interval>, size: i64, h: Interval)
    requires
        crate::interval_set::seq_wf(ws),
        h.spec_wf(),
        size > 0,
    ensures
        (flex_num_of(ws, size, h) < size) <==> (est_of(ws, size, h) is None),
{
    lemma_est_none_iff(ws, size, h);
    if est_of(ws, size, h) is None {
        lemma_flex_rest_zero(ws, 0, size, h);
        assert(ws.take(0) =~= Seq::<Interval>::empty());
    } else {
        let k = choose|k: int| 0 <= k < ws.len() && window_fits(#[trigger] ws[k], size, h);
        lemma_flex_with_fit(ws, size, h);
    }
}

/// Scans the windows in ascending order for the first horizon-clipped
/// window that holds the task.
fn est_scan(sets: &IntervalSet, task_size: i64, horizon: Interval) -> (r: Option<i64>)
    ensures
        r is Some <==> est_of(sets@, task_size, horizon) is Some,
        r is Some ==> r->0 == est_of(sets@, task_size, horizon)->0,
{
    proof {
        use_type_invariant(sets);
    }
    let ghost ws = sets@;
    let n: usize = sets.len();
    let mut i: usize = 0;
    proof {
        assert(ws.skip(0int) =~= ws);
    }
    while i < n
        invariant
            n == ws.len(),
            0 <= i <= n,
            ws == sets@,
            canonical_seq(ws),
            est_of(ws, task_size, horizon) == est_of(ws.skip(i as int), task_size, horizon),
        decreases n - i,
    {
        let w: Interval = sets.get(i);
        if w.end() <= horizon.start() {
            // This window ends before the horizon begins.
            proof {
                lemma_est_skip_step(ws, i as int, task_size, horizon);
            }
        } else if w.start() >= horizon.end() {
            // Windows are sorted: no later window can reach the horizon.
            proof {
                lemma_canonical_pairwise(ws);
                assert forall|k: int| 0 <= k < ws.skip(i as int).len() implies !window_fits(
                    #[trigger] ws.skip(i as int)[k],
                    task_size,
                    horizon,
                ) by {
                    assert(ws.skip(i as int)[k] == ws[i + k]);
                    assert(ws[i as int].spec_start() <= ws[i + k].spec_start());
                }
                lemma_est_none(ws.skip(i as int), task_size, horizon);
            }
            return None;
        } else {
            match w.intersection(&horizon) {
                Some(inter) => {
                    if inter.duration() >= task_size {
                        proof {
                            assert(ws.skip(i as int)[0] == ws[i as int]);
                            assert(window_fits(ws[i as int], task_size, horizon));
                        }
                        return Some(inter.start());
                    }
                    proof {
                        lemma_est_skip_step(ws, i as int, task_size, horizon);
                    }
                },
                None => {
                    proof {
                        lemma_est_skip_step(ws, i as int, task_size, horizon);
                    }
                },
            }
        }
        i += 1;
    }
    proof {
        assert(ws.skip(n as int) =~= Seq::<Interval>::empty());
    }
    None
}

/// Finds the earliest start time for a task: the start of the first
/// solution-space window which, clipped to the static horizon, holds the
/// task.  `None` when no window qualifies or the task has no entry in the
/// solution space.
pub fn compute_est<T: Task>(
    task: &T,
    task_id: &str,
    solution_space: &SolutionSpace,
    horizon: Interval,
) -> (r: Option<i64>)
    ensures
        !space_contains(solution_space@, task_id@) ==> r is None,
        forall|ws: Seq<Interval>|
            #![trigger space_windows(solution_space@, task_id@, ws)]
            space_windows(solution_space@, task_id@, ws) ==> {
                &&& (r is Some <==> est_of(ws, task.spec_size(), horizon) is Some)
                &&& (r is Some ==> r->0 == est_of(ws, task.spec_size(), horizon)->0)
            },
{
    proof {
        use_type_invariant(solution_space);
    }
    let task_size: i64 = task.size();
    match solution_space.get_intervals(task_id) {
        Some(sets) => {
            let r: Option<i64> = est_scan(sets, task_size, horizon);
            proof {
                assert forall|ws: Seq<Interval>|
                    space_windows(solution_space@, task_id@, ws) implies {
                    &&& (r is Some <==> est_of(ws, task.spec_size(), horizon) is Some)
                    &&& (r is Some ==> r->0 == est_of(ws, task.spec_size(), horizon)->0)
                } by {
                    lemma_space_windows_unique(solution_space@, task_id@, ws, sets@);
                }
            }
            r
        },
        None => {
            proof {
                lemma_no_entry_no_windows(solution_space@, task_id@);
            }
            None
        },
    }
}

/// Without an entry for `id` there is no registered window sequence.
proof fn lemma_no_entry_no_windows(s: Seq<(crate::schedule::Id, IntervalSet)>, id: Seq<char>)
    requires
        !space_contains(s, id),
    ensures
        forall|ws: Seq<Interval>| #![trigger space_windows(s, id, ws)] !space_windows(s, id, ws),
{
    assert forall|ws: Seq<Interval>| !space_windows(s, id, ws) by {
        if space_windows(s, id, ws) {
            let i = choose|i: int| 0 <= i < s.len() && (#[trigger] s[i]).0@ == id && s[i].1@ == ws;
            assert(space_contains(s, id));
        }
    }
}

/// Scans the windows in descending order for the last horizon-clipped
/// window that holds the task.
fn deadline_scan(sets: &IntervalSet, task_size: i64, horizon: Interval) -> (r: Option<i64>)
    requires
        0 <= task_size <= AXIS_BOUND,
    ensures
        r is Some <==> deadline_of(sets@, task_size, horizon) is Some,
        r is Some ==> r->0 == deadline_of(sets@, task_size, horizon)->0,
{
    proof {
        use_type_invariant(sets);
        use_type_invariant(horizon);
    }
    let ghost ws = sets@;
    let n: usize = sets.len();
    let mut j: usize = n;
    proof {
        assert(ws.take(n as int) =~= ws);
    }
    while j > 0
        invariant
            n == ws.len(),
            0 <= j <= n,
            ws == sets@,
            canonical_seq(ws),
            0 <= task_size <= AXIS_BOUND,
            deadline_of(ws, task_size, horizon) == deadline_of(
                ws.take(j as int),
                task_size,
                horizon,
            ),
        decreases j,
    {
        let w: Interval = sets.get(j - 1);
        if w.start() >= horizon.end() {
            // This window begins after the horizon ends.
            proof {
                lemma_deadline_take_step(ws, j as int, task_size, horizon);
            }
        } else if w.end() <= horizon.start() {
            // Windows are sorted: no earlier window can reach the horizon.
            proof {
                lemma_canonical_pairwise(ws);
                assert forall|k: int| 0 <= k < ws.take(j as int - 1).len() implies !window_fits(
                    #[trigger] ws.take(j as int - 1)[k],
                    task_size,
                    horizon,
                ) by {
                    assert(ws.take(j as int - 1)[k] == ws[k]);
                    if k < j - 1 {
                        assert(ws[k].spec_end() <= ws[j - 1].spec_start());
                        assert(ws[j - 1].spec_wf());
                    }
                }
                lemma_deadline_none(ws.take(j as int - 1), task_size, horizon);
                lemma_deadline_take_step(ws, j as int, task_size, horizon);
            }
            return None;
        } else {
            match w.intersection(&horizon) {
                Some(inter) => {
                    if inter.duration() >= task_size {
                        proof {
                            use_type_invariant(inter);
                            assert(ws.take(j as int).last() == ws[j as int - 1]);
                            assert(window_fits(ws[j as int - 1], task_size, horizon));
                        }
                        return Some(inter.end() - task_size);
                    }
                    proof {
                        lemma_deadline_take_step(ws, j as int, task_size, horizon);
                    }
                },
                None => {
                    proof {
                        lemma_deadline_take_step(ws, j as int, task_size, horizon);
                    }
                },
            }
        }
        j -= 1;
    }
    proof {
        assert(ws.take(0int) =~= Seq::<Interval>::empty());
    }
    None
}

/// Finds the latest possible start time (deadline) for a task: scans the
/// windows in descending order for the last one which, clipped to the
/// static horizon, holds the task, and returns the clipped end minus the
/// task size.  `None` when no window qualifies or the task has no entry.
pub fn compute_deadline<T: Task>(
    task: &T,
    task_id: &str,
    solution_space: &SolutionSpace,
    horizon: Interval,
) -> (r: Option<i64>)
    requires
        0 <= task.spec_size() <= AXIS_BOUND,
    ensures
        !space_contains(solution_space@, task_id@) ==> r is None,
        forall|ws: Seq<Interval>|
            #![trigger space_windows(solution_space@, task_id@, ws)]
            space_windows(solution_space@, task_id@, ws) ==> {
                &&& (r is Some <==> deadline_of(ws, task.spec_size(), horizon) is Some)
                &&& (r is Some ==> r->0 == deadline_of(ws, task.spec_size(), horizon)->0)
            },
{
    proof {
        use_type_invariant(solution_space);
    }
    let task_size: i64 = task.size();
    match solution_space.get_intervals(task_id) {
        Some(sets) => {
            let r: Option<i64> = deadline_scan(sets, task_size, horizon);
            proof {
                assert forall|ws: Seq<Interval>|
                    space_windows(solution_space@, task_id@, ws) implies {
                    &&& (r is Some <==> deadline_of(ws, task.spec_size(), horizon) is Some)
                    &&& (r is Some ==> r->0 == deadline_of(ws, task.spec_size(), horizon)->0)
                } by {
                    lemma_space_windows_unique(solution_space@, task_id@, ws, sets@);
                }
            }
            r
        },
        None => {
            proof {
                lemma_no_entry_no_windows(solution_space@, task_id@);
            }
            None
        },
    }
}

/// Sums the clipped lengths of the qualifying windows.
fn flex_scan(sets: &IntervalSet, task_size: i64, horizon: Interval) -> (r: i64)
    ensures
        r == flex_num_of(sets@, task_size, horizon),
{
    proof {
        use_type_invariant(sets);
        use_type_invariant(horizon);
    }
    let ghost ws = sets@;
    let n: usize = sets.len();
    let mut numerator: i64 = 0;
    let mut i: usize = 0;
    let ghost mut prev_end: int = horizon.spec_start();
    proof {
        assert(ws.take(0int) =~= Seq::<Interval>::empty());
    }
    while i < n
        invariant
            n == ws.len(),
            0 <= i <= n,
            ws == sets@,
            canonical_seq(ws),
            horizon.spec_wf(),
            horizon.spec_start() <= prev_end <= horizon.spec_end(),
            0 <= numerator <= prev_end - horizon.spec_start(),
            forall|k: int|
                i <= k < n ==> prev_end <= spec_max(
                    (#[trigger] ws[k]).spec_start(),
                    horizon.spec_start(),
                ),
            numerator == flex_num_of(ws.take(i as int), task_size, horizon),
        decreases n - i,
    {
        let w: Interval = sets.get(i);
        proof {
            lemma_canonical_pairwise(ws);
            lemma_flex_take_step(ws, i as int, task_size, horizon);
            assert(ws[i as int].spec_wf());
        }
        if w.end() <= horizon.start() {
            // This window ends before the horizon begins: contributes nothing.
        } else if w.start() >= horizon.end() {
            // Windows are sorted: the remaining windows contribute nothing.
            proof {
                assert forall|k: int| i <= k < ws.len() implies !window_fits(
                    #[trigger] ws[k],
                    task_size,
                    horizon,
                ) by {
                    assert(ws[i as int].spec_start() <= ws[k].spec_start());
                }
                lemma_flex_rest_zero(ws, i as int, task_size, horizon);
            }
            return numerator;
        } else {
            match w.intersection(&horizon) {
                Some(inter) => {
                    proof {
                        use_type_invariant(inter);
                    }
                    let d: i64 = inter.duration();
                    if d >= task_size {
                        numerator = numerator + d;
                        proof {
                            prev_end = inter_hi(ws[i as int], horizon);
                        }
                    }
                },
                None => {},
            }
        }
        i += 1;
    }
    proof {
        assert(ws.take(n as int) =~= ws);
    }
    numerator
}

/// Computes task flexibility: the ratio of the summed lengths of the
/// qualifying horizon-clipped windows to the task size.  A ratio below one
/// means the task is impossible; a ratio below a caller-supplied threshold
/// marks it endangered.  A task with no solution-space entry has numerator
/// zero.  Windows are pairwise disjoint (the canonical-set invariant), so
/// nothing is double-counted.
pub fn compute_flexibility<T: Task>(
    task: &T,
    task_id: &str,
    solution_space: &SolutionSpace,
    horizon: Interval,
) -> (r: Flexibility)
    ensures
        r.denominator == task.spec_size(),
        !space_contains(solution_space@, task_id@) ==> r.numerator == 0,
        forall|ws: Seq<Interval>|
            #![trigger space_windows(solution_space@, task_id@, ws)]
            space_windows(solution_space@, task_id@, ws) ==> r.numerator == flex_num_of(
                ws,
                task.spec_size(),
                horizon,
            ),
{
    proof {
        use_type_invariant(solution_space);
    }
    let task_size: i64 = task.size();
    match solution_space.get_intervals(task_id) {
        Some(sets) => {
            let numerator: i64 = flex_scan(sets, task_size, horizon);
            proof {
                assert forall|ws: Seq<Interval>|
                    space_windows(solution_space@, task_id@, ws) implies numerator == flex_num_of(
                    ws,
                    task.spec_size(),
                    horizon,
                ) by {
                    lemma_space_windows_unique(solution_space@, task_id@, ws, sets@);
                }
            }
            Flexibility { numerator, denominator: task_size }
        },
        None => {
            proof {
                lemma_no_entry_no_windows(solution_space@, task_id@);
            }
            Flexibility { numerator: 0, denominator: task_size }
        },
    }
}

} // verus!
