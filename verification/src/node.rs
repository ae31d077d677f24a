//! The node that the two generic trees are made of, and its snapshot.

use crate::common::floor_mid;
use crate::operator::clones_exactly;
use vstd::prelude::*;

verus! {

/// One interval `[start, end]` of a tree that is there, with the aggregate
/// stored for it and the halves below it that are there.
pub struct Node<S> {
    pub start: i64,
    pub end: i64,
    pub value: S,
    pub left: Option<Box<Node<S>>>,
    pub right: Option<Box<Node<S>>>,
}

impl<S> Node<S> {
    /// The node covers exactly `[lo, hi]`, a single point has no halves, and
    /// every half that exists covers its side of the floor cut.
    pub open spec fn wf(self, lo: int, hi: int) -> bool
        decreases self,
    {
        let m = floor_mid(lo, hi);
        &&& self.start == lo
        &&& self.end == hi
        &&& lo <= hi
        &&& lo == hi ==> self.left is None && self.right is None
        &&& match self.left {
            Some(l) => l.start == lo && l.end == m && l.wf(lo, m),
            None => true,
        }
        &&& match self.right {
            Some(r) => r.start == m + 1 && r.end == hi && r.wf(m + 1, hi),
            None => true,
        }
    }

    /// The node over `[lo, hi]` that holds the default and has no halves.
    pub open spec fn fresh(lo: int, hi: int, d: S) -> Node<S> {
        Node { start: lo as i64, end: hi as i64, value: d, left: None, right: None }
    }

    /// The half itself where it exists, else a fresh one over `[lo, hi]`.
    pub open spec fn grown(half: Option<Box<Node<S>>>, lo: int, hi: int, d: S) -> Node<S> {
        match half {
            Some(n) => *n,
            None => Self::fresh(lo, hi, d),
        }
    }

    /// The aggregate that the tree below this node stores for `[a, b]`, if
    /// that interval is there.
    pub open spec fn stored(self, a: int, b: int) -> Option<S>
        decreases self,
    {
        let m = floor_mid(self.start as int, self.end as int);
        if a == self.start && b == self.end {
            Some(self.value)
        } else if b <= m {
            match self.left {
                Some(l) => l.stored(a, b),
                None => None,
            }
        } else if a > m {
            match self.right {
                Some(r) => r.stored(a, b),
                None => None,
            }
        } else {
            None
        }
    }

    /// The snapshot of the tree below this node: every interval that is
    /// there, with its aggregate.
    pub open spec fn cells(self) -> Map<(int, int), S> {
        Map::new(
            |k: (int, int)| self.stored(k.0, k.1) is Some,
            |k: (int, int)| self.stored(k.0, k.1)->0,
        )
    }

    /// The snapshot `cells` holds, for the intervals in `[lo, hi]`, what the
    /// tree below this node stores.
    pub open spec fn shown_by(self, cells: Map<(int, int), S>, lo: int, hi: int) -> bool {
        forall|a: int, b: int|
            #![trigger self.stored(a, b)]
            lo <= a <= b <= hi ==> {
                &&& cells.dom().contains((a, b)) <==> self.stored(a, b) is Some
                &&& self.stored(a, b) is Some ==> cells[(a, b)] == self.stored(a, b)->0
            }
    }

    /// A snapshot that shows a node holds the node's aggregate and shows
    /// each half that exists; of a half that does not exist it holds
    /// nothing.
    pub proof fn lemma_half_shown(self, cells: Map<(int, int), S>, lo: int, hi: int)
        requires
            self.wf(lo, hi),
            self.shown_by(cells, lo, hi),
        ensures
            cells.dom().contains((lo, hi)),
            cells[(lo, hi)] == self.value,
            lo < hi ==> match self.left {
                Some(l) => l.shown_by(cells, lo, floor_mid(lo, hi)),
                None => !cells.dom().contains((lo, floor_mid(lo, hi))),
            },
            lo < hi ==> match self.right {
                Some(r) => r.shown_by(cells, floor_mid(lo, hi) + 1, hi),
                None => !cells.dom().contains((floor_mid(lo, hi) + 1, hi)),
            },
    {
        let m = floor_mid(lo, hi);
        assert(self.stored(lo, hi) == Some(self.value));
        if lo < hi {
            assert(self.stored(lo, m) == match self.left {
                Some(l) => l.stored(lo, m),
                None => None,
            });
            assert(self.stored(m + 1, hi) == match self.right {
                Some(r) => r.stored(m + 1, hi),
                None => None,
            });
            match self.left {
                None => {},
                Some(l) => {
                    assert forall|a: int, b: int|
                        #![trigger l.stored(a, b)]
                        lo <= a <= b <= m implies {
                        &&& cells.dom().contains((a, b)) <==> l.stored(a, b) is Some
                        &&& l.stored(a, b) is Some ==> cells[(a, b)] == l.stored(a, b)->0
                    } by {
                        assert(self.stored(a, b) == l.stored(a, b));
                    }
                },
            }
            match self.right {
                None => {},
                Some(r) => {
                    assert forall|a: int, b: int|
                        #![trigger r.stored(a, b)]
                        m + 1 <= a <= b <= hi implies {
                        &&& cells.dom().contains((a, b)) <==> r.stored(a, b) is Some
                        &&& r.stored(a, b) is Some ==> cells[(a, b)] == r.stored(a, b)->0
                    } by {
                        assert(self.stored(a, b) == r.stored(a, b));
                    }
                },
            }
        }
    }
}

impl<S: Clone> Node<S> {
    /// Makes the node over `[start, end]` that holds a clone of the default.
    pub fn new(start: i64, end: i64, default_value: &S) -> (n: Self)
        requires
            clones_exactly(*default_value),
        ensures
            n == Self::fresh(start as int, end as int, *default_value),
    {
        Node { start: start, end: end, value: default_value.clone(), left: None, right: None }
    }

    /// Makes a fresh node as the half of another.
    pub fn new_son(start: i64, end: i64, default_value: &S) -> (n: Option<Box<Self>>)
        requires
            clones_exactly(*default_value),
        ensures
            n == Some(Box::new(Self::fresh(start as int, end as int, *default_value))),
    {
        Some(Box::new(Node::new(start, end, default_value)))
    }
}

} // verus!
