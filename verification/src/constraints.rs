//! The static constraint expression tree.
//!
//! A [`ConstraintExpr`] combines leaf feasibility rules with AND, OR and NOT
//! into a polymorphic expression tree.  Evaluated over a query range it
//! yields the canonical [`IntervalSet`] of sub-ranges where the combined
//! rule holds, using only data fixed before scheduling starts:
//!
//! - AND is set intersection of the children's results (no children: the
//!   full query range, the identity of intersection);
//! - OR is set union, merging overlapping and abutting windows back into
//!   canonical form (no children: the empty set, the identity of union);
//! - NOT is the complement of its single child's result within the query
//!   range (childless: the full query range).

use vstd::prelude::*;

use crate::interval::Interval;
use crate::interval_set::{normalized_seq, seq_mem, IntervalSet};

verus! {

/// Errors raised by constraint tree edits.  A closed enumeration with value
/// equality; always recoverable by choosing a different tree edit.
#[derive(Debug, Clone, PartialEq, Eq, Structural)]
pub enum ConstraintError {
    /// A child was attached to a leaf node.
    CannotAddChildToLeaf,
    /// A second child was attached to a NOT node.
    CannotAddChildToNot,
}

impl ConstraintError {
    /// The diagnostic text of this error.
    pub fn message(&self) -> (r: String)
        ensures
            *self is CannotAddChildToLeaf ==> r@ == "Cannot add child to a leaf node"@,
            *self is CannotAddChildToNot ==> r@ == "Cannot add child to a NOT node"@,
    {
        match self {
            ConstraintError::CannotAddChildToLeaf => "Cannot add child to a leaf node".to_owned(),
            ConstraintError::CannotAddChildToNot => "Cannot add child to a NOT node".to_owned(),
        }
    }
}

/// A static feasibility rule.
///
/// Given a query range, a rule yields the canonical set of the points of
/// the range where it holds, using only data fixed before the scheduling
/// loop; evaluation is deterministic and pinned pointwise by `spec_allows`.
pub trait Constraint: Send + Sync {
    /// Whether the rule holds at point `p`.
    spec fn spec_allows(&self, p: int) -> bool;

    /// The sub-ranges of `range` where the rule holds.
    fn compute_intervals(&self, range: Interval) -> (r: IntervalSet)
        ensures
            normalized_seq(r@),
            forall|p: int|
                #![trigger seq_mem(r@, p)]
                seq_mem(r@, p) == (range.spec_contains(p) && self.spec_allows(p)),
    ;

    /// A stable human-readable description, for diagnostics only.
    fn stringify(&self) -> String;
}

/// The representative built-in leaf rule: it holds exactly on a fixed
/// canonical set of windows.
#[derive(Debug)]
pub struct IntervalConstraint {
    windows: IntervalSet,
}

impl View for IntervalConstraint {
    type V = Seq<Interval>;

    closed spec fn view(&self) -> Seq<Interval> {
        self.windows@
    }
}

impl IntervalConstraint {
    /// A rule allowing exactly the points of `windows`.
    pub fn new(windows: IntervalSet) -> (r: IntervalConstraint)
        ensures
            r@ == windows@,
    {
        IntervalConstraint { windows }
    }
}

impl Constraint for IntervalConstraint {
    open spec fn spec_allows(&self, p: int) -> bool {
        seq_mem(self@, p)
    }

    fn compute_intervals(&self, range: Interval) -> (r: IntervalSet) {
        self.windows.intersect(&IntervalSet::of_range(range))
    }

    fn stringify(&self) -> (r: String)
        ensures
            r@ == "IntervalConstraint"@,
    {
        "IntervalConstraint".to_owned()
    }
}

/// A polymorphic constraint expression tree over leaf rules of type `L`.
///
/// A NOT node holds at most one child; the vector form exists so that a
/// childless NOT can be built first and filled by [`ConstraintExpr::add_child`].
#[derive(Debug)]
pub enum ConstraintExpr<L> {
    /// A concrete feasibility rule.
    Leaf(L),
    /// Holds where all children hold.
    And(Vec<ConstraintExpr<L>>),
    /// Holds where at least one child holds.
    Or(Vec<ConstraintExpr<L>>),
    /// Holds where its single child does not.
    Not(Vec<ConstraintExpr<L>>),
}

impl<L: Constraint> ConstraintExpr<L> {
    /// Whether the tree admits point `p`.  A childless NOT complements the
    /// empty result, so it holds everywhere.
    pub open spec fn spec_holds(self, p: int) -> bool
        decreases self,
    {
        match self {
            ConstraintExpr::Leaf(c) => c.spec_allows(p),
            ConstraintExpr::And(cs) => forall|i: int|
                0 <= i < cs@.len() ==> (#[trigger] cs@[i]).spec_holds(p),
            ConstraintExpr::Or(cs) => exists|i: int|
                0 <= i < cs@.len() && (#[trigger] cs@[i]).spec_holds(p),
            ConstraintExpr::Not(cs) => cs@.len() == 0 || !cs@[0].spec_holds(p),
        }
    }
}

impl<L> ConstraintExpr<L> {
    /// A leaf node wrapping the rule `c`.
    pub fn leaf(c: L) -> (r: Self)
        ensures
            r == ConstraintExpr::Leaf(c),
    {
        ConstraintExpr::Leaf(c)
    }

    /// An AND node with no children yet.
    pub fn and() -> (r: Self)
        ensures
            r matches ConstraintExpr::And(cs) && cs@.len() == 0,
    {
        ConstraintExpr::And(Vec::new())
    }

    /// An OR node with no children yet.
    pub fn or() -> (r: Self)
        ensures
            r matches ConstraintExpr::Or(cs) && cs@.len() == 0,
    {
        ConstraintExpr::Or(Vec::new())
    }

    /// A NOT node with no child yet.
    pub fn not() -> (r: Self)
        ensures
            r matches ConstraintExpr::Not(cs) && cs@.len() == 0,
    {
        ConstraintExpr::Not(Vec::new())
    }

    /// Attaches `child` under this node.
    ///
    /// Fails on a leaf, and on a NOT node that already has its child; AND
    /// and OR accept arbitrarily many children.  On failure the tree is
    /// unchanged.
    pub fn add_child(&mut self, child: Self) -> (r: Result<(), ConstraintError>)
        ensures
            (*old(self)) is Leaf ==> r == Err::<(), ConstraintError>(
                ConstraintError::CannotAddChildToLeaf,
            ) && *final(self) == *old(self),
            (*old(self)) is Not && (*old(self))->Not_0@.len() > 0 ==> r == Err::<(), ConstraintError>(
                ConstraintError::CannotAddChildToNot,
            ) && *final(self) == *old(self),
            (*old(self)) is Not && (*old(self))->Not_0@.len() == 0 ==> r == Ok::<(), ConstraintError>(())
                && (*final(self)) is Not && (*final(self))->Not_0@ =~= seq![child],
            (*old(self)) is And ==> r == Ok::<(), ConstraintError>(()) && (*final(self)) is And
                && (*final(self))->And_0@ == (*old(self))->And_0@.push(child),
            (*old(self)) is Or ==> r == Ok::<(), ConstraintError>(()) && (*final(self)) is Or
                && (*final(self))->Or_0@ == (*old(self))->Or_0@.push(child),
    {
        match self {
            ConstraintExpr::Leaf(_) => Err(ConstraintError::CannotAddChildToLeaf),
            ConstraintExpr::And(cs) => {
                cs.push(child);
                Ok(())
            },
            ConstraintExpr::Or(cs) => {
                cs.push(child);
                Ok(())
            },
            ConstraintExpr::Not(cs) => {
                if cs.len() > 0 {
                    Err(ConstraintError::CannotAddChildToNot)
                } else {
                    cs.push(child);
                    Ok(())
                }
            },
        }
    }
}

impl<L: Constraint> ConstraintExpr<L> {
    /// Evaluates the tree over `range`: the canonical set of the points of
    /// `range` that the combined rule admits.
    pub fn evaluate(&self, range: Interval) -> (r: IntervalSet)
        ensures
            normalized_seq(r@),
            forall|p: int|
                #![trigger seq_mem(r@, p)]
                seq_mem(r@, p) == (range.spec_contains(p) && self.spec_holds(p)),
        decreases *self,
    {
        match self {
            ConstraintExpr::Leaf(c) => c.compute_intervals(range),
            ConstraintExpr::And(cs) => {
                let mut acc: IntervalSet = IntervalSet::of_range(range);
                let n: usize = cs.len();
                let mut i: usize = 0;
                while i < n
                    invariant
                        n == cs@.len(),
                        0 <= i <= n,
                        (*self) is And,
                        (*self)->And_0 == *cs,
                        normalized_seq(acc@),
                        forall|p: int|
                            #![trigger seq_mem(acc@, p)]
                            seq_mem(acc@, p) == (range.spec_contains(p) && (forall|j: int|
                                0 <= j < i ==> (#[trigger] cs@[j]).spec_holds(p))),
                    decreases n - i,
                {
                    proof {
                        assert(decreases_to!(*self => (*self)->And_0));
                        assert((*self)->And_0 == *cs);
                        vstd::std_specs::vec::axiom_vec_decreases_to_view(*cs);
                        assert(decreases_to!(cs@ => cs@[i as int]));
                        assert(decreases_to!(*self => cs@[i as int]));
                    }
                    let ri: IntervalSet = cs[i].evaluate(range);
                    let acc2: IntervalSet = acc.intersect(&ri);
                    proof {
                        assert forall|p: int| #![trigger seq_mem(acc2@, p)] seq_mem(acc2@, p) == (
                        range.spec_contains(p) && (forall|j: int|
                            0 <= j < i + 1 ==> (#[trigger] cs@[j]).spec_holds(p))) by {
                            assert(seq_mem(acc2@, p) == (seq_mem(acc@, p) && seq_mem(ri@, p)));
                        }
                    }
                    acc = acc2;
                    i += 1;
                }
                acc
            },
            ConstraintExpr::Or(cs) => {
                let mut acc: IntervalSet = IntervalSet::new();
                let n: usize = cs.len();
                let mut i: usize = 0;
                while i < n
                    invariant
                        n == cs@.len(),
                        0 <= i <= n,
                        (*self) is Or,
                        (*self)->Or_0 == *cs,
                        normalized_seq(acc@),
                        forall|p: int|
                            #![trigger seq_mem(acc@, p)]
                            seq_mem(acc@, p) == (range.spec_contains(p) && (exists|j: int|
                                0 <= j < i && (#[trigger] cs@[j]).spec_holds(p))),
                    decreases n - i,
                {
                    proof {
                        assert(decreases_to!(*self => (*self)->Or_0));
                        assert((*self)->Or_0 == *cs);
                        vstd::std_specs::vec::axiom_vec_decreases_to_view(*cs);
                        assert(decreases_to!(cs@ => cs@[i as int]));
                        assert(decreases_to!(*self => cs@[i as int]));
                    }
                    let ri: IntervalSet = cs[i].evaluate(range);
                    let acc2: IntervalSet = acc.union(&ri);
                    proof {
                        assert forall|p: int| #![trigger seq_mem(acc2@, p)] seq_mem(acc2@, p) == (
                        range.spec_contains(p) && (exists|j: int|
                            0 <= j < i + 1 && (#[trigger] cs@[j]).spec_holds(p))) by {
                            assert(seq_mem(acc2@, p) == (seq_mem(acc@, p) || seq_mem(ri@, p)));
                            if seq_mem(acc@, p) {
                                let j = choose|j: int|
                                    0 <= j < i && (#[trigger] cs@[j]).spec_holds(p);
                            }
                        }
                    }
                    acc = acc2;
                    i += 1;
                }
                acc
            },
            ConstraintExpr::Not(cs) => {
                if cs.len() == 0 {
                    IntervalSet::of_range(range)
                } else {
                    proof {
                        assert(decreases_to!(*self => (*self)->Not_0));
                        assert((*self)->Not_0 == *cs);
                        vstd::std_specs::vec::axiom_vec_decreases_to_view(*cs);
                        assert(decreases_to!(cs@ => cs@[0]));
                        assert(decreases_to!(*self => cs@[0]));
                    }
                    let inner: IntervalSet = cs[0].evaluate(range);
                    inner.complement_within(range)
                }
            },
        }
    }
}

} // verus!
