//! Canonical sets of disjoint half-open intervals.
//!
//! An [`IntervalSet`] is the feasible region of a task: an ordered sequence
//! of intervals, sorted ascending by start, in which no two intervals
//! overlap.  Abutting intervals (`prev.end == next.start`) are allowed and do
//! not violate canonicity.

use vstd::prelude::*;

use crate::interval::{AXIS_BOUND, Interval, quantity_max, quantity_min, spec_max, spec_min};

verus! {

/// Every interval of the sequence is well formed.
pub open spec fn seq_wf(s: Seq<Interval>) -> bool {
    forall|i: int| 0 <= i < s.len() ==> (#[trigger] s[i]).spec_wf()
}

/// The canonical-sequence invariant: well-formed intervals, sorted ascending
/// by start, pairwise non-overlapping.  Expressed locally: each interval ends
/// at or before the next one starts (adjacency allowed).
pub open spec fn canonical_seq(s: Seq<Interval>) -> bool {
    &&& seq_wf(s)
    &&& forall|i: int|
        0 <= i < s.len() - 1 ==> (#[trigger] s[i]).spec_end() <= s[i + 1].spec_start()
}

/// A canonical sequence with no empty interval and no abutting pair: the
/// unique representation of its point set.  Set operations return sets in
/// this form.
pub open spec fn normalized_seq(s: Seq<Interval>) -> bool {
    &&& canonical_seq(s)
    &&& forall|i: int| 0 <= i < s.len() ==> (#[trigger] s[i]).spec_start() < s[i].spec_end()
    &&& forall|i: int|
        0 <= i < s.len() - 1 ==> (#[trigger] s[i]).spec_end() < s[i + 1].spec_start()
}

/// Point membership in a sequence of intervals.
pub open spec fn seq_mem(s: Seq<Interval>, p: int) -> bool {
    exists|i: int| 0 <= i < s.len() && (#[trigger] s[i]).spec_contains(p)
}

/// Intervals sorted ascending by start (the weaker pre-state of
/// normalization; canonical sequences satisfy it).
pub open spec fn sorted_by_start(s: Seq<Interval>) -> bool {
    forall|i: int|
        0 <= i < s.len() - 1 ==> (#[trigger] s[i]).spec_start() <= s[i + 1].spec_start()
}

/// In a canonical sequence every earlier interval ends at or before every
/// later one starts, not merely its immediate neighbour.
pub proof fn lemma_canonical_pairwise(s: Seq<Interval>)
    requires
        canonical_seq(s),
    ensures
        forall|i: int, j: int|
            0 <= i < j < s.len() ==> (#[trigger] s[i]).spec_end() <= (#[trigger] s[j]).spec_start(),
        sorted_by_start(s),
{
    assert forall|i: int, j: int| 0 <= i < j < s.len() implies (#[trigger] s[i]).spec_end()
        <= (#[trigger] s[j]).spec_start() by {
        lemma_canonical_pair(s, i, j);
    }
}

proof fn lemma_canonical_pair(s: Seq<Interval>, i: int, j: int)
    requires
        canonical_seq(s),
        0 <= i < j < s.len(),
    ensures
        s[i].spec_end() <= s[j].spec_start(),
    decreases j - i,
{
    if j == i + 1 {
    } else {
        lemma_canonical_pair(s, i, j - 1);
        assert(s[j - 1].spec_wf());
    }
}

/// Returns true if `intervals` is canonical: intervals are sorted by start
/// and do not overlap (previous end at or before next start).
pub fn is_canonical(intervals: &Vec<Interval>) -> (r: bool)
    ensures
        r == canonical_seq(intervals@),
{
    let n: usize = intervals.len();
    if n == 0 {
        return true;
    }
    let mut k: usize = 0;
    while k < n - 1
        invariant
            n == intervals@.len(),
            1 <= n,
            0 <= k <= n,
            forall|i: int| 0 <= i < k ==> (#[trigger] intervals@[i]).spec_wf(),
            forall|i: int|
                0 <= i < k ==> (#[trigger] intervals@[i]).spec_end()
                    <= intervals@[i + 1].spec_start(),
        decreases n - k,
    {
        let prev: Interval = intervals[k];
        let curr: Interval = intervals[k + 1];
        proof {
            use_type_invariant(prev);
            use_type_invariant(curr);
        }
        if curr.overlaps(&prev) || prev.end() > curr.start() {
            return false;
        }
        k += 1;
    }
    let last: Interval = intervals[n - 1];
    proof {
        use_type_invariant(last);
    }
    true
}

/// A feasible region: disjoint windows in canonical order.
#[derive(Debug)]
pub struct IntervalSet {
    items: Vec<Interval>,
}

impl View for IntervalSet {
    type V = Seq<Interval>;

    closed spec fn view(&self) -> Seq<Interval> {
        self.items@
    }
}

impl IntervalSet {
    /// The canonical-sequence invariant holds of every interval set.
    #[verifier::type_invariant]
    pub open spec fn spec_canonical(self) -> bool {
        canonical_seq(self@)
    }

    /// The empty set.
    pub fn new() -> (r: IntervalSet)
        ensures
            r@ =~= Seq::<Interval>::empty(),
            normalized_seq(r@),
            forall|p: int| #![trigger seq_mem(r@, p)] !seq_mem(r@, p),
    {
        let r = IntervalSet { items: Vec::new() };
        proof {
            lemma_seq_mem_empty();
            assert(r@ =~= Seq::<Interval>::empty());
        }
        r
    }

    /// The normalized set of the points of `range`: a one-interval set when
    /// `range` is non-empty, the empty set otherwise.
    pub fn of_range(range: Interval) -> (r: IntervalSet)
        ensures
            normalized_seq(r@),
            forall|p: int| #![trigger seq_mem(r@, p)] seq_mem(r@, p) == range.spec_contains(p),
    {
        proof {
            use_type_invariant(range);
        }
        if range.start() < range.end() {
            let r = IntervalSet::from_interval(range);
            proof {
                assert forall|p: int| #![trigger seq_mem(r@, p)] seq_mem(r@, p)
                    == range.spec_contains(p) by {
                    if seq_mem(r@, p) {
                        let i = choose|i: int|
                            0 <= i < r@.len() && (#[trigger] r@[i]).spec_contains(p);
                    }
                    if range.spec_contains(p) {
                        assert(r@[0].spec_contains(p));
                    }
                }
            }
            r
        } else {
            IntervalSet::new()
        }
    }

    /// The set of a single interval.
    pub fn from_interval(iv: Interval) -> (r: IntervalSet)
        ensures
            r@ =~= seq![iv],
    {
        proof {
            use_type_invariant(iv);
        }
        let mut items: Vec<Interval> = Vec::new();
        items.push(iv);
        IntervalSet { items }
    }

    /// Builds a set from a vector of intervals; returns `None` when the
    /// vector is not in canonical order.
    pub fn from_intervals(intervals: Vec<Interval>) -> (r: Option<IntervalSet>)
        ensures
            r is Some <==> canonical_seq(intervals@),
            r is Some ==> r->0@ =~= intervals@,
    {
        if is_canonical(&intervals) {
            Some(IntervalSet { items: intervals })
        } else {
            None
        }
    }

    pub fn len(&self) -> (r: usize)
        ensures
            r == self@.len(),
    {
        self.items.len()
    }

    pub fn is_empty(&self) -> (r: bool)
        ensures
            r == (self@.len() == 0),
    {
        self.items.len() == 0
    }

    /// The interval at position `i` in canonical order.
    pub fn get(&self, i: usize) -> (r: Interval)
        requires
            i < self@.len(),
        ensures
            r == self@[i as int],
    {
        self.items[i]
    }
}

/// In a start-sorted sequence every earlier interval starts at or before
/// every later one.
pub proof fn lemma_sorted_pairwise(s: Seq<Interval>)
    requires
        sorted_by_start(s),
    ensures
        forall|i: int, j: int|
            0 <= i <= j < s.len() ==> (#[trigger] s[i]).spec_start()
                <= (#[trigger] s[j]).spec_start(),
{
    assert forall|i: int, j: int| 0 <= i <= j < s.len() implies (#[trigger] s[i]).spec_start()
        <= (#[trigger] s[j]).spec_start() by {
        lemma_sorted_pair(s, i, j);
    }
}

proof fn lemma_sorted_pair(s: Seq<Interval>, i: int, j: int)
    requires
        sorted_by_start(s),
        0 <= i <= j < s.len(),
    ensures
        s[i].spec_start() <= s[j].spec_start(),
    decreases j - i,
{
    if i < j {
        lemma_sorted_pair(s, i, j - 1);
    }
}

/// Membership in `s.push(x)` is membership in `s` or membership in `x`.
proof fn lemma_seq_mem_push(s: Seq<Interval>, x: Interval)
    ensures
        forall|p: int|
            #![trigger seq_mem(s.push(x), p)]
            seq_mem(s.push(x), p) == (seq_mem(s, p) || x.spec_contains(p)),
{
    assert forall|p: int|
        seq_mem(s.push(x), p) == (seq_mem(s, p) || x.spec_contains(p)) by {
        if seq_mem(s.push(x), p) {
            let i = choose|i: int| 0 <= i < s.push(x).len() && (#[trigger] s.push(x)[i]).spec_contains(p);
            if i < s.len() {
                assert(s[i].spec_contains(p));
                assert(seq_mem(s, p));
            } else {
                assert(s.push(x)[i] == x);
            }
        }
        if seq_mem(s, p) {
            let i = choose|i: int| 0 <= i < s.len() && (#[trigger] s[i]).spec_contains(p);
            assert(s.push(x)[i].spec_contains(p));
            assert(seq_mem(s.push(x), p));
        }
        if x.spec_contains(p) {
            assert(s.push(x)[s.len() as int].spec_contains(p));
            assert(seq_mem(s.push(x), p));
        }
    }
}

/// No point belongs to the empty sequence.
proof fn lemma_seq_mem_empty()
    ensures
        forall|p: int| #![trigger seq_mem(Seq::<Interval>::empty(), p)] !seq_mem(
            Seq::<Interval>::empty(),
            p,
        ),
{
    assert forall|p: int| !seq_mem(Seq::<Interval>::empty(), p) by {
        if seq_mem(Seq::<Interval>::empty(), p) {
            let i = choose|i: int|
                0 <= i < Seq::<Interval>::empty().len() && (#[trigger] Seq::<Interval>::empty()[i]).spec_contains(p);
        }
    }
}

/// No interval of a well-formed sequence reaches outside the axis bound.
proof fn lemma_seq_mem_bounded(s: Seq<Interval>)
    requires
        seq_wf(s),
    ensures
        forall|p: int|
            #![trigger seq_mem(s, p)]
            seq_mem(s, p) ==> -(AXIS_BOUND as int) <= p < AXIS_BOUND as int + 1,
{
    assert forall|p: int| seq_mem(s, p) implies -(AXIS_BOUND as int) <= p < AXIS_BOUND as int
        + 1 by {
        let i = choose|i: int| 0 <= i < s.len() && (#[trigger] s[i]).spec_contains(p);
        assert(s[i].spec_wf());
    }
}
/// Loop state of [`normalize_sorted`]: the first `k` input intervals have
/// been folded into the normalized output `out` plus the pending window
/// `[cs, ce)`, which starts at or before every unprocessed interval.
spec fn norm_inv(v: Seq<Interval>, k: int, out: Seq<Interval>, cs: int, ce: int) -> bool {
    &&& 1 <= k <= v.len()
    &&& sorted_by_start(v)
    &&& seq_wf(v)
    &&& -(AXIS_BOUND as int) <= cs <= ce <= AXIS_BOUND as int
    &&& forall|i: int| k <= i < v.len() ==> cs <= (#[trigger] v[i]).spec_start()
    &&& normalized_seq(out)
    &&& forall|i: int| 0 <= i < out.len() ==> (#[trigger] out[i]).spec_end() < cs
    &&& forall|p: int|
        #![trigger seq_mem(out, p)]
        (seq_mem(out, p) || (cs <= p < ce)) == seq_mem(v.take(k), p)
}

proof fn norm_inv_init(v: Seq<Interval>)
    requires
        sorted_by_start(v),
        seq_wf(v),
        v.len() > 0,
    ensures
        norm_inv(v, 1, Seq::<Interval>::empty(), v[0].spec_start(), v[0].spec_end()),
{
    lemma_sorted_pairwise(v);
    lemma_seq_mem_empty();
    lemma_seq_mem_push(Seq::<Interval>::empty(), v[0]);
    assert(v.take(1) =~= Seq::<Interval>::empty().push(v[0]));
    assert(v[0].spec_wf());
}

proof fn norm_inv_merge(v: Seq<Interval>, k: int, out: Seq<Interval>, cs: int, ce: int)
    requires
        norm_inv(v, k, out, cs, ce),
        k < v.len(),
        v[k].spec_start() <= ce,
    ensures
        norm_inv(v, k + 1, out, cs, spec_max(ce, v[k].spec_end())),
{
    let w = v[k];
    assert(w.spec_wf());
    let ce2 = spec_max(ce, w.spec_end());
    lemma_seq_mem_push(v.take(k), w);
    assert(v.take(k + 1) =~= v.take(k).push(w));
    assert forall|p: int| #![trigger seq_mem(out, p)] (seq_mem(out, p) || (cs <= p < ce2))
        == seq_mem(v.take(k + 1), p) by {
        assert(seq_mem(v.take(k).push(w), p) == (seq_mem(v.take(k), p) || w.spec_contains(p)));
        assert((seq_mem(out, p) || (cs <= p < ce)) == seq_mem(v.take(k), p));
    }
}

proof fn norm_inv_advance(
    v: Seq<Interval>,
    k: int,
    out: Seq<Interval>,
    cs: int,
    ce: int,
    ni: Interval,
)
    requires
        norm_inv(v, k, out, cs, ce),
        k < v.len(),
        v[k].spec_start() > ce,
        cs < ce ==> ni.spec_start() == cs && ni.spec_end() == ce,
    ensures
        cs < ce ==> norm_inv(v, k + 1, out.push(ni), v[k].spec_start(), v[k].spec_end()),
        cs >= ce ==> norm_inv(v, k + 1, out, v[k].spec_start(), v[k].spec_end()),
{
    let w = v[k];
    assert(w.spec_wf());
    lemma_sorted_pairwise(v);
    lemma_seq_mem_push(v.take(k), w);
    assert(v.take(k + 1) =~= v.take(k).push(w));
    if cs < ce {
        let out2 = out.push(ni);
        lemma_seq_mem_push(out, ni);
        assert forall|p: int| #![trigger seq_mem(out2, p)] (seq_mem(out2, p) || (w.spec_start()
            <= p < w.spec_end())) == seq_mem(v.take(k + 1), p) by {
            assert(seq_mem(out2, p) == (seq_mem(out, p) || ni.spec_contains(p)));
            assert(seq_mem(v.take(k).push(w), p) == (seq_mem(v.take(k), p) || w.spec_contains(p)));
            assert((seq_mem(out, p) || (cs <= p < ce)) == seq_mem(v.take(k), p));
        }
    } else {
        assert forall|p: int| #![trigger seq_mem(out, p)] (seq_mem(out, p) || (w.spec_start() <= p
            < w.spec_end())) == seq_mem(v.take(k + 1), p) by {
            assert(seq_mem(v.take(k).push(w), p) == (seq_mem(v.take(k), p) || w.spec_contains(p)));
            assert((seq_mem(out, p) || (cs <= p < ce)) == seq_mem(v.take(k), p));
        }
    }
}

proof fn norm_inv_final(v: Seq<Interval>, out: Seq<Interval>, cs: int, ce: int, ni: Interval)
    requires
        norm_inv(v, v.len() as int, out, cs, ce),
        cs < ce ==> ni.spec_start() == cs && ni.spec_end() == ce,
    ensures
        cs < ce ==> normalized_seq(out.push(ni)),
        cs < ce ==> forall|p: int|
            #![trigger seq_mem(out.push(ni), p)]
            seq_mem(out.push(ni), p) == seq_mem(v, p),
        cs >= ce ==> forall|p: int| #![trigger seq_mem(out, p)] seq_mem(out, p) == seq_mem(v, p),
{
    assert(v.take(v.len() as int) =~= v);
    if cs < ce {
        lemma_seq_mem_push(out, ni);
        assert forall|p: int| #![trigger seq_mem(out.push(ni), p)] seq_mem(out.push(ni), p)
            == seq_mem(v, p) by {
            assert(seq_mem(out.push(ni), p) == (seq_mem(out, p) || ni.spec_contains(p)));
            assert((seq_mem(out, p) || (cs <= p < ce)) == seq_mem(v.take(v.len() as int), p));
        }
    } else {
        assert forall|p: int| #![trigger seq_mem(out, p)] seq_mem(out, p) == seq_mem(v, p) by {
            assert((seq_mem(out, p) || (cs <= p < ce)) == seq_mem(v.take(v.len() as int), p));
        }
    }
}

/// Coalesces a start-sorted vector into normalized form: empty intervals
/// vanish and overlapping or abutting runs merge, without changing the point
/// set.
fn normalize_sorted(v: Vec<Interval>) -> (r: Vec<Interval>)
    requires
        sorted_by_start(v@),
        seq_wf(v@),
    ensures
        normalized_seq(r@),
        forall|p: int| #![trigger seq_mem(r@, p)] seq_mem(r@, p) == seq_mem(v@, p),
{
    let n: usize = v.len();
    let mut out: Vec<Interval> = Vec::new();
    if n == 0 {
        proof {
            lemma_seq_mem_empty();
            assert(out@ =~= Seq::<Interval>::empty());
            assert(v@ =~= Seq::<Interval>::empty());
        }
        return out;
    }
    let first: Interval = v[0];
    let mut cs: i64 = first.start();
    let mut ce: i64 = first.end();
    let mut k: usize = 1;
    proof {
        norm_inv_init(v@);
        assert(out@ =~= Seq::<Interval>::empty());
    }
    while k < n
        invariant
            n == v@.len(),
            1 <= k <= n,
            norm_inv(v@, k as int, out@, cs as int, ce as int),
        decreases n - k,
    {
        let w: Interval = v[k];
        if w.start() <= ce {
            proof {
                norm_inv_merge(v@, k as int, out@, cs as int, ce as int);
            }
            if w.end() > ce {
                ce = w.end();
            }
        } else if cs < ce {
            let ni: Interval = Interval::new(cs, ce);
            proof {
                norm_inv_advance(v@, k as int, out@, cs as int, ce as int, ni);
            }
            out.push(ni);
            cs = w.start();
            ce = w.end();
        } else {
            proof {
                norm_inv_advance(v@, k as int, out@, cs as int, ce as int, w);
            }
            cs = w.start();
            ce = w.end();
        }
        k += 1;
    }
    if cs < ce {
        let ni: Interval = Interval::new(cs, ce);
        proof {
            norm_inv_final(v@, out@, cs as int, ce as int, ni);
        }
        out.push(ni);
    } else {
        proof {
            norm_inv_final(v@, out@, cs as int, ce as int, first);
        }
    }
    out
}

/// Loop state of [`merge_by_start`]: `out` holds the first `i` intervals of
/// `a` and the first `j` of `b`, in start order.
spec fn merge_inv(a: Seq<Interval>, b: Seq<Interval>, i: int, j: int, out: Seq<Interval>) -> bool {
    &&& 0 <= i <= a.len()
    &&& 0 <= j <= b.len()
    &&& canonical_seq(a)
    &&& canonical_seq(b)
    &&& sorted_by_start(out)
    &&& seq_wf(out)
    &&& (out.len() > 0 && i < a.len() ==> out.last().spec_start() <= a[i].spec_start())
    &&& (out.len() > 0 && j < b.len() ==> out.last().spec_start() <= b[j].spec_start())
    &&& forall|p: int|
        #![trigger seq_mem(out, p)]
        seq_mem(out, p) == (seq_mem(a.take(i), p) || seq_mem(b.take(j), p))
}

proof fn merge_inv_init(a: Seq<Interval>, b: Seq<Interval>)
    requires
        canonical_seq(a),
        canonical_seq(b),
    ensures
        merge_inv(a, b, 0, 0, Seq::<Interval>::empty()),
{
    lemma_seq_mem_empty();
    assert(a.take(0) =~= Seq::<Interval>::empty());
    assert(b.take(0) =~= Seq::<Interval>::empty());
}

proof fn merge_inv_step_a(a: Seq<Interval>, b: Seq<Interval>, i: int, j: int, out: Seq<Interval>)
    requires
        merge_inv(a, b, i, j, out),
        i < a.len(),
        j < b.len() ==> a[i].spec_start() <= b[j].spec_start(),
    ensures
        merge_inv(a, b, i + 1, j, out.push(a[i])),
{
    let w = a[i];
    lemma_canonical_pairwise(a);
    lemma_seq_mem_push(out, w);
    lemma_seq_mem_push(a.take(i), w);
    assert(a.take(i + 1) =~= a.take(i).push(w));
    assert(w.spec_wf());
    assert forall|p: int| #![trigger seq_mem(out.push(w), p)] seq_mem(out.push(w), p) == (seq_mem(
        a.take(i + 1),
        p,
    ) || seq_mem(b.take(j), p)) by {
        assert(seq_mem(out.push(w), p) == (seq_mem(out, p) || w.spec_contains(p)));
        assert(seq_mem(a.take(i).push(w), p) == (seq_mem(a.take(i), p) || w.spec_contains(p)));
        assert(seq_mem(out, p) == (seq_mem(a.take(i), p) || seq_mem(b.take(j), p)));
    }
}

proof fn merge_inv_step_b(a: Seq<Interval>, b: Seq<Interval>, i: int, j: int, out: Seq<Interval>)
    requires
        merge_inv(a, b, i, j, out),
        j < b.len(),
        i < a.len() ==> b[j].spec_start() <= a[i].spec_start(),
    ensures
        merge_inv(a, b, i, j + 1, out.push(b[j])),
{
    let w = b[j];
    lemma_canonical_pairwise(b);
    lemma_seq_mem_push(out, w);
    lemma_seq_mem_push(b.take(j), w);
    assert(b.take(j + 1) =~= b.take(j).push(w));
    assert(w.spec_wf());
    assert forall|p: int| #![trigger seq_mem(out.push(w), p)] seq_mem(out.push(w), p) == (seq_mem(
        a.take(i),
        p,
    ) || seq_mem(b.take(j + 1), p)) by {
        assert(seq_mem(out.push(w), p) == (seq_mem(out, p) || w.spec_contains(p)));
        assert(seq_mem(b.take(j).push(w), p) == (seq_mem(b.take(j), p) || w.spec_contains(p)));
        assert(seq_mem(out, p) == (seq_mem(a.take(i), p) || seq_mem(b.take(j), p)));
    }
}

/// Start-order merge of two canonical sequences; the result is start-sorted
/// and covers exactly the union of the two point sets.
fn merge_by_start(a: &Vec<Interval>, b: &Vec<Interval>) -> (r: Vec<Interval>)
    requires
        canonical_seq(a@),
        canonical_seq(b@),
    ensures
        sorted_by_start(r@),
        seq_wf(r@),
        forall|p: int|
            #![trigger seq_mem(r@, p)]
            seq_mem(r@, p) == (seq_mem(a@, p) || seq_mem(b@, p)),
{
    let alen: usize = a.len();
    let blen: usize = b.len();
    let mut out: Vec<Interval> = Vec::new();
    let mut i: usize = 0;
    let mut j: usize = 0;
    proof {
        merge_inv_init(a@, b@);
        assert(out@ =~= Seq::<Interval>::empty());
    }
    while i < alen || j < blen
        invariant
            alen == a@.len(),
            blen == b@.len(),
            i <= alen,
            j <= blen,
            merge_inv(a@, b@, i as int, j as int, out@),
        decreases alen - i + blen - j,
    {
        let take_a: bool = if j == blen {
            true
        } else if i == alen {
            false
        } else {
            a[i].start() <= b[j].start()
        };
        if take_a {
            let w: Interval = a[i];
            proof {
                merge_inv_step_a(a@, b@, i as int, j as int, out@);
            }
            out.push(w);
            i += 1;
        } else {
            let w: Interval = b[j];
            proof {
                merge_inv_step_b(a@, b@, i as int, j as int, out@);
            }
            out.push(w);
            j += 1;
        }
    }
    proof {
        assert(a@.take(alen as int) =~= a@);
        assert(b@.take(blen as int) =~= b@);
        assert forall|p: int| #![trigger seq_mem(out@, p)] seq_mem(out@, p) == (seq_mem(a@, p)
            || seq_mem(b@, p)) by {
            assert(seq_mem(out@, p) == (seq_mem(a@.take(alen as int), p) || seq_mem(
                b@.take(blen as int),
                p,
            )));
        }
    }
    out
}

/// Larger of the two current starts in the intersection sweep.
spec fn pair_lo(a: Seq<Interval>, b: Seq<Interval>, i: int, j: int) -> int {
    spec_max(a[i].spec_start(), b[j].spec_start())
}

/// Smaller of the two current ends in the intersection sweep.
spec fn pair_hi(a: Seq<Interval>, b: Seq<Interval>, i: int, j: int) -> int {
    spec_min(a[i].spec_end(), b[j].spec_end())
}

/// Loop state of [`intersect_raw`]: all common points below `done` are in
/// `out`, `out` reaches no further than `done`, and the sweep fronts `i`,
/// `j` straddle `done`.
spec fn inter_inv(
    a: Seq<Interval>,
    b: Seq<Interval>,
    i: int,
    j: int,
    out: Seq<Interval>,
    done: int,
) -> bool {
    &&& 0 <= i <= a.len()
    &&& 0 <= j <= b.len()
    &&& canonical_seq(a)
    &&& canonical_seq(b)
    &&& canonical_seq(out)
    &&& forall|p: int|
        #![trigger seq_mem(out, p)]
        p < done ==> (seq_mem(out, p) == (seq_mem(a, p) && seq_mem(b, p)))
    &&& forall|idx: int| 0 <= idx < out.len() ==> (#[trigger] out[idx]).spec_end() <= done
    &&& (i < a.len() ==> a[i].spec_end() >= done)
    &&& (j < b.len() ==> b[j].spec_end() >= done)
    &&& forall|k: int| 0 <= k < i ==> (#[trigger] a[k]).spec_end() <= done
    &&& forall|l: int| 0 <= l < j ==> (#[trigger] b[l]).spec_end() <= done
    &&& (i < a.len() && j < b.len() ==> (a[i].spec_start() >= done || b[j].spec_start() >= done))
}

proof fn inter_inv_init(a: Seq<Interval>, b: Seq<Interval>)
    requires
        canonical_seq(a),
        canonical_seq(b),
    ensures
        inter_inv(a, b, 0, 0, Seq::<Interval>::empty(), -(AXIS_BOUND as int) - 1),
{
    let done = -(AXIS_BOUND as int) - 1;
    lemma_seq_mem_empty();
    lemma_seq_mem_bounded(a);
    lemma_seq_mem_bounded(b);
    if a.len() > 0 {
        assert(a[0].spec_wf());
    }
    if b.len() > 0 {
        assert(b[0].spec_wf());
    }
}

/// Any point of `[done, pair_hi)` that is common to `a` and `b` lies in the
/// current pair `a[i]`, `b[j]`.
proof fn inter_pinch(a: Seq<Interval>, b: Seq<Interval>, i: int, j: int, out: Seq<Interval>, done: int, p: int)
    requires
        inter_inv(a, b, i, j, out, done),
        i < a.len(),
        j < b.len(),
        done <= p < pair_hi(a, b, i, j),
        seq_mem(a, p),
        seq_mem(b, p),
    ensures
        a[i].spec_contains(p),
        b[j].spec_contains(p),
        pair_lo(a, b, i, j) <= p,
{
    lemma_canonical_pairwise(a);
    lemma_canonical_pairwise(b);
    let ka = choose|ka: int| 0 <= ka < a.len() && (#[trigger] a[ka]).spec_contains(p);
    let kb = choose|kb: int| 0 <= kb < b.len() && (#[trigger] b[kb]).spec_contains(p);
    assert(ka == i);
    assert(kb == j);
}

proof fn inter_inv_step(
    a: Seq<Interval>,
    b: Seq<Interval>,
    i: int,
    j: int,
    out: Seq<Interval>,
    done: int,
    ni: Interval,
)
    requires
        inter_inv(a, b, i, j, out, done),
        i < a.len(),
        j < b.len(),
        pair_lo(a, b, i, j) < pair_hi(a, b, i, j) ==> ni.spec_start() == pair_lo(a, b, i, j)
            && ni.spec_end() == pair_hi(a, b, i, j),
    ensures
        pair_lo(a, b, i, j) < pair_hi(a, b, i, j) && a[i].spec_end() <= b[j].spec_end()
            ==> inter_inv(a, b, i + 1, j, out.push(ni), pair_hi(a, b, i, j)),
        pair_lo(a, b, i, j) < pair_hi(a, b, i, j) && a[i].spec_end() > b[j].spec_end()
            ==> inter_inv(a, b, i, j + 1, out.push(ni), pair_hi(a, b, i, j)),
        pair_lo(a, b, i, j) >= pair_hi(a, b, i, j) && a[i].spec_end() <= b[j].spec_end()
            ==> inter_inv(a, b, i + 1, j, out, pair_hi(a, b, i, j)),
        pair_lo(a, b, i, j) >= pair_hi(a, b, i, j) && a[i].spec_end() > b[j].spec_end()
            ==> inter_inv(a, b, i, j + 1, out, pair_hi(a, b, i, j)),
{
    let lo = pair_lo(a, b, i, j);
    let hi = pair_hi(a, b, i, j);
    let out2 = if lo < hi {
        out.push(ni)
    } else {
        out
    };
    lemma_canonical_pairwise(a);
    lemma_canonical_pairwise(b);
    assert(a[i].spec_wf());
    assert(b[j].spec_wf());
    if lo < hi {
        lemma_seq_mem_push(out, ni);
    }
    assert(lo >= done);
    assert forall|p: int| #![trigger seq_mem(out2, p)] p < hi implies (seq_mem(out2, p) == (
    seq_mem(a, p) && seq_mem(b, p))) by {
        if lo < hi {
            assert(seq_mem(out2, p) == (seq_mem(out, p) || ni.spec_contains(p)));
        }
        if p < done {
        } else {
            if seq_mem(a, p) && seq_mem(b, p) {
                inter_pinch(a, b, i, j, out, done, p);
            }
            if seq_mem(out, p) {
                let ko = choose|ko: int| 0 <= ko < out.len() && (#[trigger] out[ko]).spec_contains(p);
                assert(false);
            }
            if lo < hi && ni.spec_contains(p) {
                assert(a[i].spec_contains(p));
                assert(b[j].spec_contains(p));
            }
        }
    }
    if i + 1 < a.len() {
        assert(a[i + 1].spec_wf());
    }
    if j + 1 < b.len() {
        assert(b[j + 1].spec_wf());
    }
}

proof fn inter_inv_final(
    a: Seq<Interval>,
    b: Seq<Interval>,
    i: int,
    j: int,
    out: Seq<Interval>,
    done: int,
)
    requires
        inter_inv(a, b, i, j, out, done),
        i == a.len() || j == b.len(),
    ensures
        forall|p: int|
            #![trigger seq_mem(out, p)]
            seq_mem(out, p) == (seq_mem(a, p) && seq_mem(b, p)),
{
    assert forall|p: int| #![trigger seq_mem(out, p)] seq_mem(out, p) == (seq_mem(a, p)
        && seq_mem(b, p)) by {
        if p >= done {
            if seq_mem(a, p) && seq_mem(b, p) {
                let ka = choose|ka: int| 0 <= ka < a.len() && (#[trigger] a[ka]).spec_contains(p);
                let kb = choose|kb: int| 0 <= kb < b.len() && (#[trigger] b[kb]).spec_contains(p);
                assert(false);
            }
            if seq_mem(out, p) {
                let ko = choose|ko: int| 0 <= ko < out.len() && (#[trigger] out[ko]).spec_contains(p);
                assert(false);
            }
        }
    }
}

/// Two-pointer intersection of two canonical sequences; the result is
/// canonical and covers exactly the common points.
fn intersect_raw(a: &Vec<Interval>, b: &Vec<Interval>) -> (r: Vec<Interval>)
    requires
        canonical_seq(a@),
        canonical_seq(b@),
    ensures
        canonical_seq(r@),
        forall|p: int|
            #![trigger seq_mem(r@, p)]
            seq_mem(r@, p) == (seq_mem(a@, p) && seq_mem(b@, p)),
{
    let alen: usize = a.len();
    let blen: usize = b.len();
    let mut out: Vec<Interval> = Vec::new();
    let mut i: usize = 0;
    let mut j: usize = 0;
    let ghost mut done: int = -(AXIS_BOUND as int) - 1;
    proof {
        inter_inv_init(a@, b@);
        assert(out@ =~= Seq::<Interval>::empty());
    }
    while i < alen && j < blen
        invariant
            alen == a@.len(),
            blen == b@.len(),
            i <= alen,
            j <= blen,
            inter_inv(a@, b@, i as int, j as int, out@, done),
        decreases alen - i + blen - j,
    {
        let ai: Interval = a[i];
        let bj: Interval = b[j];
        proof {
            assert(a@[i as int].spec_wf());
            assert(b@[j as int].spec_wf());
        }
        let s: i64 = quantity_max(ai.start(), bj.start());
        let e: i64 = quantity_min(ai.end(), bj.end());
        if s < e {
            let ni: Interval = Interval::new(s, e);
            proof {
                inter_inv_step(a@, b@, i as int, j as int, out@, done, ni);
                done = pair_hi(a@, b@, i as int, j as int);
            }
            out.push(ni);
        } else {
            proof {
                inter_inv_step(a@, b@, i as int, j as int, out@, done, ai);
                done = pair_hi(a@, b@, i as int, j as int);
            }
        }
        if ai.end() <= bj.end() {
            i += 1;
        } else {
            j += 1;
        }
    }
    proof {
        inter_inv_final(a@, b@, i as int, j as int, out@, done);
    }
    out
}

/// Loop state of [`gaps_raw`]: `out` holds the uncovered sub-ranges of
/// `range` below the frontier `cur`; everything at or above `cur` is still
/// open.
spec fn gaps_inv(
    items: Seq<Interval>,
    range: Interval,
    k: int,
    out: Seq<Interval>,
    cur: int,
) -> bool {
    &&& 0 <= k <= items.len()
    &&& canonical_seq(items)
    &&& range.spec_wf()
    &&& range.spec_start() <= cur <= range.spec_end()
    &&& sorted_by_start(out)
    &&& seq_wf(out)
    &&& forall|p: int|
        #![trigger seq_mem(out, p)]
        p < cur ==> (seq_mem(out, p) == (range.spec_contains(p) && !seq_mem(items, p)))
    &&& forall|idx: int| 0 <= idx < out.len() ==> (#[trigger] out[idx]).spec_end() <= cur
    &&& forall|idx: int|
        0 <= idx < out.len() ==> (#[trigger] out[idx]).spec_start() >= range.spec_start()
    &&& forall|k2: int|
        0 <= k2 < k ==> spec_min((#[trigger] items[k2]).spec_end(), range.spec_end()) <= cur
}

proof fn gaps_inv_init(items: Seq<Interval>, range: Interval)
    requires
        canonical_seq(items),
        range.spec_wf(),
    ensures
        gaps_inv(items, range, 0, Seq::<Interval>::empty(), range.spec_start()),
{
    lemma_seq_mem_empty();
}

proof fn gaps_inv_step(
    items: Seq<Interval>,
    range: Interval,
    k: int,
    out: Seq<Interval>,
    cur: int,
    gi: Interval,
)
    requires
        gaps_inv(items, range, k, out, cur),
        k < items.len(),
        cur < spec_min(items[k].spec_start(), range.spec_end()) ==> gi.spec_start() == cur
            && gi.spec_end() == spec_min(items[k].spec_start(), range.spec_end()),
    ensures
        cur < spec_min(items[k].spec_start(), range.spec_end()) ==> gaps_inv(
            items,
            range,
            k + 1,
            out.push(gi),
            spec_max(cur, spec_min(items[k].spec_end(), range.spec_end())),
        ),
        cur >= spec_min(items[k].spec_start(), range.spec_end()) ==> gaps_inv(
            items,
            range,
            k + 1,
            out,
            spec_max(cur, spec_min(items[k].spec_end(), range.spec_end())),
        ),
{
    let w = items[k];
    let ge = spec_min(w.spec_start(), range.spec_end());
    let we = spec_min(w.spec_end(), range.spec_end());
    let out2 = if cur < ge {
        out.push(gi)
    } else {
        out
    };
    let cur2 = spec_max(cur, we);
    lemma_canonical_pairwise(items);
    assert(w.spec_wf());
    if cur < ge {
        lemma_seq_mem_push(out, gi);
    }
    assert forall|p: int| #![trigger seq_mem(out2, p)] p < cur2 implies (seq_mem(out2, p) == (
    range.spec_contains(p) && !seq_mem(items, p))) by {
        if cur < ge {
            assert(seq_mem(out2, p) == (seq_mem(out, p) || gi.spec_contains(p)));
        }
        if p < cur {
        } else {
            // p is in [cur, cur2): below the gap end it is uncovered, from
            // the gap end on it lies inside items[k].
            if seq_mem(items, p) {
                let k2 = choose|k2: int|
                    0 <= k2 < items.len() && (#[trigger] items[k2]).spec_contains(p);
                if k2 < k {
                    assert(spec_min(items[k2].spec_end(), range.spec_end()) <= cur);
                    assert(items[k2].spec_wf());
                }
            }
            if seq_mem(out, p) {
                let ko = choose|ko: int|
                    0 <= ko < out.len() && (#[trigger] out[ko]).spec_contains(p);
                assert(false);
            }
        }
    }
}

proof fn gaps_inv_final(
    items: Seq<Interval>,
    range: Interval,
    out: Seq<Interval>,
    cur: int,
    gi: Interval,
)
    requires
        gaps_inv(items, range, items.len() as int, out, cur),
        cur < range.spec_end() ==> gi.spec_start() == cur && gi.spec_end() == range.spec_end(),
    ensures
        cur < range.spec_end() ==> sorted_by_start(out.push(gi)),
        cur < range.spec_end() ==> seq_wf(out.push(gi)),
        cur < range.spec_end() ==> forall|p: int|
            #![trigger seq_mem(out.push(gi), p)]
            seq_mem(out.push(gi), p) == (range.spec_contains(p) && !seq_mem(items, p)),
        cur >= range.spec_end() ==> forall|p: int|
            #![trigger seq_mem(out, p)]
            seq_mem(out, p) == (range.spec_contains(p) && !seq_mem(items, p)),
{
    let out2 = if cur < range.spec_end() {
        out.push(gi)
    } else {
        out
    };
    if cur < range.spec_end() {
        lemma_seq_mem_push(out, gi);
    }
    assert forall|p: int| #![trigger seq_mem(out2, p)] seq_mem(out2, p) == (range.spec_contains(p)
        && !seq_mem(items, p)) by {
        if cur < range.spec_end() {
            assert(seq_mem(out2, p) == (seq_mem(out, p) || gi.spec_contains(p)));
        }
        if p < cur {
        } else {
            if seq_mem(items, p) {
                let k2 = choose|k2: int|
                    0 <= k2 < items.len() && (#[trigger] items[k2]).spec_contains(p);
                assert(spec_min(items[k2].spec_end(), range.spec_end()) <= cur);
                assert(items[k2].spec_wf());
            }
            if seq_mem(out, p) {
                let ko = choose|ko: int|
                    0 <= ko < out.len() && (#[trigger] out[ko]).spec_contains(p);
                assert(false);
            }
        }
    }
}

/// Gaps of a canonical sequence within `range`: a start-sorted cover of the
/// points of `range` that the sequence does not cover.
fn gaps_raw(items: &Vec<Interval>, range: Interval) -> (r: Vec<Interval>)
    requires
        canonical_seq(items@),
    ensures
        sorted_by_start(r@),
        seq_wf(r@),
        forall|p: int|
            #![trigger seq_mem(r@, p)]
            seq_mem(r@, p) == (range.spec_contains(p) && !seq_mem(items@, p)),
{
    proof {
        use_type_invariant(range);
    }
    let re: i64 = range.end();
    let n: usize = items.len();
    let mut out: Vec<Interval> = Vec::new();
    let mut cur: i64 = range.start();
    let mut k: usize = 0;
    proof {
        gaps_inv_init(items@, range);
        assert(out@ =~= Seq::<Interval>::empty());
    }
    while k < n
        invariant
            n == items@.len(),
            0 <= k <= n,
            re == range.spec_end(),
            gaps_inv(items@, range, k as int, out@, cur as int),
        decreases n - k,
    {
        let w: Interval = items[k];
        proof {
            assert(items@[k as int].spec_wf());
        }
        let ge: i64 = quantity_min(w.start(), re);
        if cur < ge {
            let gi: Interval = Interval::new(cur, ge);
            proof {
                gaps_inv_step(items@, range, k as int, out@, cur as int, gi);
            }
            out.push(gi);
        } else {
            proof {
                gaps_inv_step(items@, range, k as int, out@, cur as int, w);
            }
        }
        let we: i64 = quantity_min(w.end(), re);
        if we > cur {
            cur = we;
        }
        k += 1;
    }
    if cur < re {
        let gi: Interval = Interval::new(cur, re);
        proof {
            gaps_inv_final(items@, range, out@, cur as int, gi);
        }
        out.push(gi);
    } else {
        proof {
            gaps_inv_final(items@, range, out@, cur as int, range);
        }
    }
    out
}
/// The normalized form is the unique representation of a point set: two
/// normalized sequences covering exactly the same points are equal.
pub proof fn lemma_normalized_unique(a: Seq<Interval>, b: Seq<Interval>)
    requires
        normalized_seq(a),
        normalized_seq(b),
        forall|p: int| seq_mem(a, p) == seq_mem(b, p),
    ensures
        a =~= b,
    decreases a.len(),
{
    lemma_canonical_pairwise(a);
    lemma_canonical_pairwise(b);
    if a.len() == 0 {
        if b.len() > 0 {
            assert(b[0].spec_start() < b[0].spec_end());
            assert(b[0].spec_contains(b[0].spec_start()));
            assert(seq_mem(b, b[0].spec_start()));
            let i = choose|i: int| 0 <= i < a.len() && (#[trigger] a[i]).spec_contains(b[0].spec_start());
            assert(false);
        }
    } else if b.len() == 0 {
        assert(a[0].spec_contains(a[0].spec_start()));
        assert(seq_mem(a, a[0].spec_start()));
        let i = choose|i: int| 0 <= i < b.len() && (#[trigger] b[i]).spec_contains(a[0].spec_start());
        assert(false);
    } else {
        lemma_normalized_heads_equal(a, b);
        lemma_normalized_heads_equal(b, a);
        crate::interval::lemma_interval_ext_equal(a[0], b[0]);
        let a1 = a.drop_first();
        let b1 = b.drop_first();
        assert forall|p: int| seq_mem(a1, p) == seq_mem(b1, p) by {
            lemma_normalized_tail_mem(a, p);
            lemma_normalized_tail_mem(b, p);
        }
        assert(forall|i: int| 0 <= i < a1.len() ==> a1[i] == a[i + 1]);
        assert(forall|i: int| 0 <= i < b1.len() ==> b1[i] == b[i + 1]);
        lemma_normalized_unique(a1, b1);
        assert forall|i: int| 0 <= i < a.len() implies a[i] == b[i] by {
            if i > 0 {
                assert(a1[i - 1] == b1[i - 1]);
            }
        }
    }
}

/// In two normalized sequences with the same point set, the first interval
/// of one starts no earlier, and ends no earlier, than the first of the
/// other.
proof fn lemma_normalized_heads_equal(a: Seq<Interval>, b: Seq<Interval>)
    requires
        normalized_seq(a),
        normalized_seq(b),
        forall|p: int| seq_mem(a, p) == seq_mem(b, p),
        a.len() > 0,
        b.len() > 0,
    ensures
        b[0].spec_start() <= a[0].spec_start(),
        a[0].spec_start() == b[0].spec_start() ==> a[0].spec_end() <= b[0].spec_end(),
{
    lemma_canonical_pairwise(a);
    lemma_canonical_pairwise(b);
    // The start of a's head is covered by b, and everything b covers lies
    // at or after b's head start.
    assert(a[0].spec_contains(a[0].spec_start()));
    assert(seq_mem(a, a[0].spec_start()));
    let k = choose|k: int| 0 <= k < b.len() && (#[trigger] b[k]).spec_contains(a[0].spec_start());
    assert(b[0].spec_start() <= b[k].spec_start());
    if a[0].spec_start() == b[0].spec_start() && a[0].spec_end() > b[0].spec_end() {
        // Then b's head end is an interior point of a's head, so b covers
        // it; but the covering interval of b can be neither its head nor a
        // later one.
        let p = b[0].spec_end();
        assert(b[0].spec_wf());
        assert(a[0].spec_contains(p));
        assert(seq_mem(a, p));
        let k2 = choose|k2: int| 0 <= k2 < b.len() && (#[trigger] b[k2]).spec_contains(p);
        if k2 > 0 {
            assert(b[0].spec_end() < b[1].spec_start());
            assert(b[1].spec_start() <= b[k2].spec_start());
        }
        assert(false);
    }
}

/// Dropping the head of a normalized sequence removes exactly the points
/// below the head's end.
proof fn lemma_normalized_tail_mem(a: Seq<Interval>, p: int)
    requires
        normalized_seq(a),
        a.len() > 0,
    ensures
        seq_mem(a.drop_first(), p) == (seq_mem(a, p) && p >= a[0].spec_end()),
{
    lemma_canonical_pairwise(a);
    let a1 = a.drop_first();
    assert(forall|i: int| 0 <= i < a1.len() ==> a1[i] == a[i + 1]);
    if seq_mem(a1, p) {
        let i = choose|i: int| 0 <= i < a1.len() && (#[trigger] a1[i]).spec_contains(p);
        assert(a[i + 1].spec_contains(p));
        assert(seq_mem(a, p));
        assert(a[0].spec_end() < a[1].spec_start());
        assert(a[1].spec_start() <= a[i + 1].spec_start());
    }
    if seq_mem(a, p) && p >= a[0].spec_end() {
        let i = choose|i: int| 0 <= i < a.len() && (#[trigger] a[i]).spec_contains(p);
        assert(i > 0);
        assert(a1[i - 1].spec_contains(p));
        assert(seq_mem(a1, p));
    }
}


impl IntervalSet {
    /// Set union: merges overlapping and abutting windows back into
    /// normalized canonical form.  A point is in the result exactly when it
    /// is in either operand.
    pub fn union(&self, other: &IntervalSet) -> (r: IntervalSet)
        ensures
            normalized_seq(r@),
            forall|p: int|
                #![trigger seq_mem(r@, p)]
                seq_mem(r@, p) == (seq_mem(self@, p) || seq_mem(other@, p)),
    {
        proof {
            use_type_invariant(self);
            use_type_invariant(other);
        }
        let merged: Vec<Interval> = merge_by_start(&self.items, &other.items);
        IntervalSet { items: normalize_sorted(merged) }
    }

    /// Set intersection.  A point is in the result exactly when it is in
    /// both operands; the result is normalized.
    pub fn intersect(&self, other: &IntervalSet) -> (r: IntervalSet)
        ensures
            normalized_seq(r@),
            forall|p: int|
                #![trigger seq_mem(r@, p)]
                seq_mem(r@, p) == (seq_mem(self@, p) && seq_mem(other@, p)),
    {
        proof {
            use_type_invariant(self);
            use_type_invariant(other);
        }
        let raw: Vec<Interval> = intersect_raw(&self.items, &other.items);
        proof {
            lemma_canonical_pairwise(raw@);
        }
        IntervalSet { items: normalize_sorted(raw) }
    }

    /// Set complement within `range`.  A point is in the result exactly when
    /// it is in `range` but not in this set; the result is normalized.
    pub fn complement_within(&self, range: Interval) -> (r: IntervalSet)
        ensures
            normalized_seq(r@),
            forall|p: int|
                #![trigger seq_mem(r@, p)]
                seq_mem(r@, p) == (range.spec_contains(p) && !seq_mem(self@, p)),
    {
        proof {
            use_type_invariant(self);
        }
        let raw: Vec<Interval> = gaps_raw(&self.items, range);
        IntervalSet { items: normalize_sorted(raw) }
    }
}

} // verus!
