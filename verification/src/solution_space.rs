//! Precomputed static feasibility windows, per task.
//!
//! A [`SolutionSpace`] maps each registered task id to the canonical
//! [`IntervalSet`] obtained by evaluating the task's static constraint tree
//! over the full scheduling horizon, once, before the scheduling loop
//! begins.  Absence of a task id means "no precomputed window data", which
//! is distinct from an empty window set.

use vstd::prelude::*;

use crate::interval_set::IntervalSet;
use crate::schedule::Id;

verus! {

/// There is an entry for this id.
pub open spec fn space_contains(s: Seq<(Id, IntervalSet)>, id: Seq<char>) -> bool {
    exists|i: int| 0 <= i < s.len() && (#[trigger] s[i]).0@ == id
}

/// There is an entry pairing this id with these windows.  Since ids are
/// unique in a solution space, this pins the windows of `id`.
pub open spec fn space_windows(s: Seq<(Id, IntervalSet)>, id: Seq<char>, ws: Seq<crate::interval::Interval>) -> bool {
    exists|i: int| 0 <= i < s.len() && (#[trigger] s[i]).0@ == id && s[i].1@ == ws
}

/// Task ids are unique.
pub open spec fn space_wf(s: Seq<(Id, IntervalSet)>) -> bool {
    forall|i: int, j: int| 0 <= i < j < s.len() ==> (#[trigger] s[i]).0@ != (#[trigger] s[j]).0@
}

/// Per-task precomputed feasibility windows.
#[derive(Debug)]
pub struct SolutionSpace {
    entries: Vec<(Id, IntervalSet)>,
}

impl View for SolutionSpace {
    type V = Seq<(Id, IntervalSet)>;

    closed spec fn view(&self) -> Seq<(Id, IntervalSet)> {
        self.entries@
    }
}

impl SolutionSpace {
    /// Task ids are unique.
    #[verifier::type_invariant]
    pub open spec fn spec_wf(self) -> bool {
        space_wf(self@)
    }

    /// The empty solution space.
    pub fn new() -> (r: SolutionSpace)
        ensures
            r@ =~= Seq::<(Id, IntervalSet)>::empty(),
    {
        SolutionSpace { entries: Vec::new() }
    }

    pub fn len(&self) -> (r: usize)
        ensures
            r == self@.len(),
    {
        self.entries.len()
    }

    pub fn is_empty(&self) -> (r: bool)
        ensures
            r == (self@.len() == 0),
    {
        self.entries.len() == 0
    }

    /// Stores `intervals` as the precomputed windows of `task_id`,
    /// replacing any earlier entry for the same id.
    pub fn set_intervals(&mut self, task_id: String, intervals: IntervalSet)
        ensures
            space_windows(final(self)@, task_id@, intervals@),
            forall|id2: Seq<char>|
                id2 != task_id@ ==> (#[trigger] space_contains(final(self)@, id2)
                    == space_contains(old(self)@, id2)),
            forall|id2: Seq<char>, ws: Seq<crate::interval::Interval>|
                id2 != task_id@ ==> (#[trigger] space_windows(final(self)@, id2, ws)
                    == space_windows(old(self)@, id2, ws)),
    {
        proof {
            use_type_invariant(&*self);
        }
        let mut entries: Vec<(Id, IntervalSet)> = Vec::new();
        std::mem::swap(&mut entries, &mut self.entries);
        let ghost old_entries = entries@;
        let n: usize = entries.len();
        let mut i: usize = 0;
        let mut found: bool = false;
        while i < n && !found
            invariant
                n == entries@.len(),
                0 <= i <= n,
                entries@ == old_entries,
                !found ==> forall|k: int| 0 <= k < i ==> (#[trigger] old_entries[k]).0@ != task_id@,
                found ==> i < n && old_entries[i as int].0@ == task_id@,
            decreases n - i, (if found { 0int } else { 1int }),
        {
            if entries[i].0 == task_id {
                found = true;
            } else {
                i += 1;
            }
        }
        if found {
            let ghost removed = old_entries.remove(i as int);
            entries.remove(i);
            entries.push((task_id, intervals));
            proof {
                lemma_space_replace(old_entries, removed, i as int, entries@, task_id@, intervals);
            }
        } else {
            entries.push((task_id, intervals));
            proof {
                let s2 = entries@;
                assert(s2.last().0@ == task_id@ && s2.last().1 == intervals);
                assert(space_windows(s2, task_id@, intervals@));
                assert forall|id2: Seq<char>| id2 != task_id@ implies (#[trigger] space_contains(
                    s2,
                    id2,
                ) == space_contains(old_entries, id2)) by {
                    lemma_space_push_other(old_entries, s2, id2);
                }
                assert forall|id2: Seq<char>, ws: Seq<crate::interval::Interval>|
                    id2 != task_id@ implies (#[trigger] space_windows(s2, id2, ws)
                    == space_windows(old_entries, id2, ws)) by {
                    lemma_space_push_other(old_entries, s2, id2);
                }
            }
        }
        self.entries = entries;
    }

    /// Evaluates a task's static constraint tree once over the full
    /// scheduling horizon and stores the resulting canonical windows under
    /// the task's id.  This one-time precomputation is what keeps the
    /// scheduling loop's static feasibility checks cheap.
    pub fn precompute<L: crate::constraints::Constraint>(
        &mut self,
        task_id: String,
        tree: &crate::constraints::ConstraintExpr<L>,
        horizon: crate::interval::Interval,
    )
        ensures
            exists|ws: Seq<crate::interval::Interval>|
                {
                    &&& #[trigger] space_windows(final(self)@, task_id@, ws)
                    &&& crate::interval_set::normalized_seq(ws)
                    &&& forall|p: int|
                        crate::interval_set::seq_mem(ws, p) == (horizon.spec_contains(p)
                            && tree.spec_holds(p))
                },
            forall|id2: Seq<char>|
                id2 != task_id@ ==> (#[trigger] space_contains(final(self)@, id2)
                    == space_contains(old(self)@, id2)),
            forall|id2: Seq<char>, ws: Seq<crate::interval::Interval>|
                id2 != task_id@ ==> (#[trigger] space_windows(final(self)@, id2, ws)
                    == space_windows(old(self)@, id2, ws)),
    {
        let windows: IntervalSet = tree.evaluate(horizon);
        let ghost ws = windows@;
        self.set_intervals(task_id, windows);
        proof {
            assert(space_windows(self@, task_id@, ws));
        }
    }

    /// The precomputed windows of `task_id`, or `None` when the id was
    /// never registered.
    pub fn get_intervals(&self, task_id: &str) -> (r: Option<&IntervalSet>)
        ensures
            r is Some <==> space_contains(self@, task_id@),
            r is Some ==> space_windows(self@, task_id@, r->0@),
    {
        let key: String = task_id.to_owned();
        let n: usize = self.entries.len();
        let mut i: usize = 0;
        while i < n
            invariant
                n == self@.len(),
                0 <= i <= n,
                key@ == task_id@,
                forall|k: int| 0 <= k < i ==> (#[trigger] self@[k]).0@ != task_id@,
            decreases n - i,
        {
            if self.entries[i].0 == key {
                assert(self@[i as int].0@ == task_id@);
                return Some(&self.entries[i].1);
            }
            i += 1;
        }
        None
    }
}

/// After replacing the entry of `id` (removing index `i` of `s0` and pushing
/// the new pair), `id` maps to the new windows and every other id is
/// untouched.
proof fn lemma_space_replace(
    s0: Seq<(Id, IntervalSet)>,
    s1: Seq<(Id, IntervalSet)>,
    i: int,
    s2: Seq<(Id, IntervalSet)>,
    id: Seq<char>,
    nv: IntervalSet,
)
    requires
        space_wf(s0),
        0 <= i < s0.len(),
        s0[i].0@ == id,
        s1 == s0.remove(i),
        s2.len() == s1.len() + 1,
        forall|k: int| 0 <= k < s1.len() ==> s2[k] == s1[k],
        s2.last().0@ == id,
        s2.last().1 == nv,
    ensures
        space_wf(s2),
        space_windows(s2, id, nv@),
        forall|id2: Seq<char>|
            id2 != id ==> (#[trigger] space_contains(s2, id2) == space_contains(s0, id2)),
        forall|id2: Seq<char>, ws: Seq<crate::interval::Interval>|
            id2 != id ==> (#[trigger] space_windows(s2, id2, ws) == space_windows(s0, id2, ws)),
{
    assert(space_windows(s2, id, nv@));
    assert forall|a: int, b: int| 0 <= a < b < s2.len() implies (#[trigger] s2[a]).0@
        != (#[trigger] s2[b]).0@ by {
        if b < s2.len() - 1 {
            index_into_removed(s0, i, a);
            index_into_removed(s0, i, b);
        } else {
            index_into_removed(s0, i, a);
        }
    }
    assert forall|id2: Seq<char>| id2 != id implies (#[trigger] space_contains(s2, id2)
        == space_contains(s0, id2)) by {
        if space_contains(s2, id2) {
            let k = choose|k: int| 0 <= k < s2.len() && (#[trigger] s2[k]).0@ == id2;
            assert(k < s1.len());
            index_into_removed(s0, i, k);
        }
        if space_contains(s0, id2) {
            let k = choose|k: int| 0 <= k < s0.len() && (#[trigger] s0[k]).0@ == id2;
            let k1: int = if k < i {
                k
            } else {
                k - 1
            };
            assert(s1[k1] == s0[k]);
            assert(s2[k1].0@ == id2);
        }
    }
    assert forall|id2: Seq<char>, ws: Seq<crate::interval::Interval>| id2 != id implies (
    #[trigger] space_windows(s2, id2, ws) == space_windows(s0, id2, ws)) by {
        if space_windows(s2, id2, ws) {
            let k = choose|k: int|
                0 <= k < s2.len() && (#[trigger] s2[k]).0@ == id2 && s2[k].1@ == ws;
            assert(k < s1.len());
            index_into_removed(s0, i, k);
        }
        if space_windows(s0, id2, ws) {
            let k = choose|k: int|
                0 <= k < s0.len() && (#[trigger] s0[k]).0@ == id2 && s0[k].1@ == ws;
            let k1: int = if k < i {
                k
            } else {
                k - 1
            };
            assert(s1[k1] == s0[k]);
            assert(s2[k1].0@ == id2 && s2[k1].1@ == ws);
        }
    }
}

/// How indices of `s.remove(i)` map back into `s`.
proof fn index_into_removed(s: Seq<(Id, IntervalSet)>, i: int, k: int)
    requires
        0 <= i < s.len(),
        0 <= k < s.len() - 1,
    ensures
        s.remove(i)[k] == (if k < i {
            s[k]
        } else {
            s[k + 1]
        }),
{
}

/// In a well-formed solution space, at most one window sequence is
/// registered under any id.
pub proof fn lemma_space_windows_unique(
    s: Seq<(Id, IntervalSet)>,
    id: Seq<char>,
    ws1: Seq<crate::interval::Interval>,
    ws2: Seq<crate::interval::Interval>,
)
    requires
        space_wf(s),
        space_windows(s, id, ws1),
        space_windows(s, id, ws2),
    ensures
        ws1 == ws2,
{
    let i1 = choose|i: int| 0 <= i < s.len() && (#[trigger] s[i]).0@ == id && s[i].1@ == ws1;
    let i2 = choose|i: int| 0 <= i < s.len() && (#[trigger] s[i]).0@ == id && s[i].1@ == ws2;
    assert(i1 == i2);
}

/// Pushing a pair with a different id neither adds nor removes entries of
/// `id2`.
proof fn lemma_space_push_other(
    s0: Seq<(Id, IntervalSet)>,
    s2: Seq<(Id, IntervalSet)>,
    id2: Seq<char>,
)
    requires
        s2.len() == s0.len() + 1,
        forall|k: int| 0 <= k < s0.len() ==> s2[k] == s0[k],
        s2.last().0@ != id2,
    ensures
        space_contains(s2, id2) == space_contains(s0, id2),
        forall|ws: Seq<crate::interval::Interval>|
            #![trigger space_windows(s2, id2, ws)]
            space_windows(s2, id2, ws) == space_windows(s0, id2, ws),
{
    if space_contains(s2, id2) {
        let k = choose|k: int| 0 <= k < s2.len() && (#[trigger] s2[k]).0@ == id2;
        assert(s0[k].0@ == id2);
    }
    if space_contains(s0, id2) {
        let k = choose|k: int| 0 <= k < s0.len() && (#[trigger] s0[k]).0@ == id2;
        assert(s2[k].0@ == id2);
    }
    assert forall|ws: Seq<crate::interval::Interval>| #![trigger space_windows(s2, id2, ws)] true
        implies space_windows(s2, id2, ws) == space_windows(s0, id2, ws) by {
        if space_windows(s2, id2, ws) {
            let k = choose|k: int|
                0 <= k < s2.len() && (#[trigger] s2[k]).0@ == id2 && s2[k].1@ == ws;
            assert(s0[k].0@ == id2 && s0[k].1@ == ws);
        }
        if space_windows(s0, id2, ws) {
            let k = choose|k: int|
                0 <= k < s0.len() && (#[trigger] s0[k]).0@ == id2 && s0[k].1@ == ws;
            assert(s2[k].0@ == id2 && s2[k].1@ == ws);
        }
    }
}

} // verus!
