//! Range addition and point query over `i64` sums, without an accessor for
//! the bounds.

use crate::pointsum::PointSumTree;
use vstd::prelude::*;

verus! {

/// A tree over the points of `[lower, upper]` that adds a value to every
/// point of a range and reads the total at one point: a [`PointSumTree`]
/// without the accessor for its bounds.
#[derive(PartialEq, Eq, Debug)]
pub struct PointMaxTree {
    root: PointSumTree,
}

impl View for PointMaxTree {
    type V = Map<int, int>;

    /// The total at every point of the domain.
    open spec fn view(&self) -> Map<int, int> {
        self.sums()@
    }
}

impl PointMaxTree {
    /// The tree of sums that this tree is.
    pub closed spec fn sums(&self) -> PointSumTree {
        self.root
    }

    /// The tree of sums is well formed.
    pub open spec fn wf(&self) -> bool {
        self.sums().wf()
    }

    /// The lower end of the domain.
    pub open spec fn lower(&self) -> int {
        self.sums().lower()
    }

    /// The upper end of the domain.
    pub open spec fn upper(&self) -> int {
        self.sums().upper()
    }

    /// Makes the tree over `[lower_bound, upper_bound]`, with zero at every point.
    pub fn new(lower_bound: i64, upper_bound: i64) -> (t: Self)
        requires
            lower_bound <= upper_bound,
        ensures
            t.sums() == PointSumTree::fresh(lower_bound as int, upper_bound as int),
            t.wf(),
            t.lower() == lower_bound,
            t.upper() == upper_bound,
            t@ == Map::new(|p: int| lower_bound <= p <= upper_bound, |p: int| 0int),
            forall|p: int|
                #![trigger t.sums().crest(p)]
                #![trigger t.sums().trough(p)]
                t.sums().crest(p) == 0 && t.sums().trough(p) == 0,
    {
        PointMaxTree { root: PointSumTree::new(lower_bound, upper_bound) }
    }

    /// Adds `value` to every point of `[start, end]`.
    pub fn insert(&mut self, start: i64, end: i64, value: i64)
        requires
            old(self).wf(),
            old(self).lower() <= start <= end <= old(self).upper(),
            old(self).sums().admits(start as int, end as int, value as int),
        ensures
            final(self).sums() == old(self).sums().inserted(start as int, end as int, value as int),
            final(self).wf(),
            old(self).sums().adding(start as int, end as int, value as int, final(self).sums()),
    {
        self.root.insert(start, end, value);
    }

    /// The total at `point`, or `None` where `point` lies outside the domain.
    pub fn query(&self, point: i64) -> (r: Option<i64>)
        requires
            self.wf(),
        ensures
            r == self.sums().answer(point as int),
            r is Some ==> r->0 == self@[point as int],
    {
        self.root.query(point)
    }
}

} // verus!
