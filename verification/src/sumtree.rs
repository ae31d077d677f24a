//! The tree of `i64` sums with the ceil cut, and what keeps its additions
//! within `i64`.

use vstd::prelude::*;

verus! {

/// Where the ceil policy cuts the interval `[start, end]`: the lower half is
/// `[start, m - 1]` and the upper half `[m, end]`.
pub open spec fn ceil_mid(start: int, end: int) -> int {
    start + (end - start) / 2 + 1
}

/// The ceil midpoint of a proper interval.
fn mid(start: i64, end: i64) -> (m: i64)
    requires
        start < end,
    ensures
        m == ceil_mid(start as int, end as int),
        start < m <= end,
{
    let width: i128 = end as i128 - start as i128;
    (start as i128 + width / 2 + 1) as i64
}

/// What is added up along the path from the root to a point.
pub enum Gauge {
    /// The stored aggregates themselves.
    Net,
    /// Only the positive aggregates.
    Rise,
    /// Only the negative aggregates.
    Fall,
}

/// The share of one stored aggregate under a gauge.
pub open spec fn weigh(g: Gauge, v: int) -> int {
    match g {
        Gauge::Net => v,
        Gauge::Rise => if v > 0 { v } else { 0 },
        Gauge::Fall => if v < 0 { v } else { 0 },
    }
}

/// A lazily grown tree of sums. A `Leaf` covers one point; a `Node` covers
/// `[start, end]` with `start < end` and grows its halves on demand.
#[derive(PartialEq, Eq, Debug)]
pub enum Tree {
    Node { start: i64, end: i64, value: i64, left: Option<Box<Tree>>, right: Option<Box<Tree>> },
    Leaf(i64),
}

impl Tree {
    /// The tree covers exactly `[lo, hi]` and every child covers its half.
    pub open spec fn wf(self, lo: int, hi: int) -> bool
        decreases self,
    {
        match self {
            Tree::Leaf(_) => lo == hi,
            Tree::Node { start, end, value, left, right } => {
                &&& start == lo
                &&& end == hi
                &&& lo < hi
                &&& match left {
                    Some(l) => l.wf(lo, ceil_mid(lo, hi) - 1),
                    None => true,
                }
                &&& match right {
                    Some(r) => r.wf(ceil_mid(lo, hi), hi),
                    None => true,
                }
            },
        }
    }

    /// The gauge's total over the nodes met on the way down to `p`. A half that
    /// was never grown adds nothing.
    pub open spec fn tally(self, g: Gauge, p: int) -> int
        decreases self,
    {
        match self {
            Tree::Leaf(v) => weigh(g, v as int),
            Tree::Node { start, end, value, left, right } => {
                weigh(g, value as int) + (if p < ceil_mid(start as int, end as int) {
                    match left {
                        Some(l) => l.tally(g, p),
                        None => 0,
                    }
                } else {
                    match right {
                        Some(r) => r.tally(g, p),
                        None => 0,
                    }
                })
            },
        }
    }

    /// Every partial sum on the way to `p` lies between the two outer tallies.
    pub open spec fn in_reach(self, p: int) -> bool {
        i64::MIN <= self.tally(Gauge::Fall, p) && self.tally(Gauge::Rise, p) <= i64::MAX
    }

    /// The aggregate stored at the top of the tree.
    pub open spec fn stored(self) -> int {
        match self {
            Tree::Leaf(v) => v as int,
            Tree::Node { start, end, value, left, right } => value as int,
        }
    }

    /// The outer tallies enclose the net tally, zero, and the share of the top.
    pub proof fn lemma_tally_order(self, p: int)
        ensures
            self.tally(Gauge::Fall, p) <= self.tally(Gauge::Net, p) <= self.tally(Gauge::Rise, p),
            self.tally(Gauge::Fall, p) <= weigh(Gauge::Fall, self.stored()) <= 0,
            0 <= weigh(Gauge::Rise, self.stored()) <= self.tally(Gauge::Rise, p),
        decreases self,
    {
        match self {
            Tree::Leaf(_) => {},
            Tree::Node { start, end, value, left, right } => {
                if p < ceil_mid(start as int, end as int) {
                    if let Some(l) = left {
                        l.lemma_tally_order(p);
                    }
                } else {
                    if let Some(r) = right {
                        r.lemma_tally_order(p);
                    }
                }
            },
        }
    }

    /// The tree that covers `[lo, hi]` and holds nothing yet.
    pub open spec fn fresh(lo: int, hi: int) -> Tree {
        if lo == hi {
            Tree::Leaf(0)
        } else {
            Tree::Node { start: lo as i64, end: hi as i64, value: 0, left: None, right: None }
        }
    }

    /// The half itself where it was grown already, else a fresh one over
    /// `[lo, hi]`.
    pub open spec fn grown(half: Option<Box<Tree>>, lo: int, hi: int) -> Tree {
        match half {
            Some(t) => *t,
            None => Self::fresh(lo, hi),
        }
    }

    /// The tree after `v` was added over `[from, to]`, for a tree that covers
    /// `[lo, hi]`. A node that lies within `[from, to]` takes `v` itself; any
    /// other hands each half the part of `[from, to]` that falls into it.
    pub open spec fn inserted(self, lo: int, hi: int, from: int, to: int, v: int) -> Tree
        decreases hi - lo,
    {
        match self {
            Tree::Leaf(x) => Tree::Leaf((x + v) as i64),
            Tree::Node { start, end, value, left, right } => {
                let m = ceil_mid(lo, hi);
                if from <= lo && hi <= to {
                    Tree::Node { start, end, value: (value + v) as i64, left, right }
                } else if lo < hi {
                    Tree::Node {
                        start,
                        end,
                        value,
                        left: if from < m {
                            Some(
                                Box::new(
                                    Self::grown(left, lo, m - 1).inserted(
                                        lo,
                                        m - 1,
                                        from,
                                        if to < m { to } else { m - 1 },
                                        v,
                                    ),
                                ),
                            )
                        } else {
                            left
                        },
                        right: if to >= m {
                            Some(
                                Box::new(
                                    Self::grown(right, m, hi).inserted(
                                        m,
                                        hi,
                                        if from >= m { from } else { m },
                                        to,
                                        v,
                                    ),
                                ),
                            )
                        } else {
                            right
                        },
                    }
                } else {
                    self
                }
            },
        }
    }

    /// What one insertion of `v` over `[from, to]` does to a tally at `p`.
    pub open spec fn shifted(
        before: int,
        after: int,
        from: int,
        to: int,
        v: int,
        g: Gauge,
        p: int,
    ) -> bool {
        if from <= p <= to {
            match g {
                Gauge::Net => after == before + v,
                _ => before + weigh(Gauge::Fall, v) <= after <= before + weigh(Gauge::Rise, v),
            }
        } else {
            after == before
        }
    }

    /// Whether `v` can be added at every point of `[from, to]` without
    /// leaving `i64`.
    #[verifier::opaque]
    pub open spec fn admits(self, from: int, to: int, v: int) -> bool {
        forall|p: int|
            from <= p <= to ==> i64::MIN <= #[trigger] self.tally(Gauge::Fall, p) + v && self.tally(
                Gauge::Rise,
                p,
            ) + v <= i64::MAX
    }

    /// Where `v` can be added over a range, the aggregate at the top can take
    /// it.
    pub proof fn lemma_top_admits(self, from: int, to: int, v: int)
        requires
            self.admits(from, to, v),
            from <= to,
        ensures
            i64::MIN <= self.stored() + v <= i64::MAX,
    {
        reveal(Tree::admits);
        self.lemma_tally_order(from);
        assert(i64::MIN <= self.tally(Gauge::Fall, from) + v);
    }

    /// A half inherits from its parent that `v` can be added over a range on
    /// its side of the cut.
    pub proof fn lemma_half_admits(self, half: Tree, lo: int, hi: int, from: int, to: int, v: int)
        requires
            self.wf(lo, hi),
            self is Node,
            self.admits(from, to, v),
            ({
                let m = ceil_mid(lo, hi);
                ||| to < m && half == Self::grown(self->left, lo, m - 1)
                ||| from >= m && half == Self::grown(self->right, m, hi)
            }),
        ensures
            half.admits(from, to, v),
    {
        reveal(Tree::admits);
        assert forall|q: int| from <= q <= to implies i64::MIN <= #[trigger] half.tally(
            Gauge::Fall,
            q,
        ) + v && half.tally(Gauge::Rise, q) + v <= i64::MAX by {
            self.lemma_tally_order(q);
            half.lemma_tally_order(q);
            assert(i64::MIN <= self.tally(Gauge::Fall, q) + v);
        }
    }

    /// What can be added over a range can be added over a part of it.
    pub proof fn lemma_part_admits(self, from: int, to: int, v: int, part_from: int, part_to: int)
        requires
            self.admits(from, to, v),
            from <= part_from,
            part_to <= to,
        ensures
            self.admits(part_from, part_to, v),
    {
        reveal(Tree::admits);
    }

    /// Insertion keeps the shape.
    pub proof fn lemma_inserted_wf(self, lo: int, hi: int, from: int, to: int, v: int)
        requires
            self.wf(lo, hi),
            i64::MIN <= lo <= from <= to <= hi <= i64::MAX,
        ensures
            self.inserted(lo, hi, from, to, v).wf(lo, hi),
        decreases hi - lo,
    {
        match self {
            Tree::Leaf(x) => {},
            Tree::Node { start, end, value, left, right } => {
                let m = ceil_mid(lo, hi);
                if from <= lo && hi <= to {
                } else {
                    if from < m {
                        let t = if to < m { to } else { m - 1 };
                        Self::grown(left, lo, m - 1).lemma_inserted_wf(lo, m - 1, from, t, v);
                    }
                    if to >= m {
                        let f = if from >= m { from } else { m };
                        Self::grown(right, m, hi).lemma_inserted_wf(m, hi, f, to, v);
                    }
                }
            },
        }
    }

    /// Insertion moves the tallies of the points in `[from, to]`, and of no
    /// others.
    pub proof fn lemma_inserted_tally(
        self,
        lo: int,
        hi: int,
        from: int,
        to: int,
        v: int,
        g: Gauge,
        p: int,
    )
        requires
            self.wf(lo, hi),
            i64::MIN <= lo <= from <= to <= hi <= i64::MAX,
            self.admits(from, to, v),
            lo <= p <= hi,
        ensures
            Self::shifted(
                self.tally(g, p),
                self.inserted(lo, hi, from, to, v).tally(g, p),
                from,
                to,
                v,
                g,
                p,
            ),
        decreases hi - lo,
    {
        self.lemma_top_admits(from, to, v);
        match self {
            Tree::Leaf(x) => {},
            Tree::Node { start, end, value, left, right } => {
                let m = ceil_mid(lo, hi);
                if from <= lo && hi <= to {
                } else if p < m {
                    if from < m {
                        let l = Self::grown(left, lo, m - 1);
                        let t = if to < m { to } else { m - 1 };
                        self.lemma_part_admits(from, to, v, from, t);
                        self.lemma_half_admits(l, lo, hi, from, t, v);
                        l.lemma_inserted_tally(lo, m - 1, from, t, v, g, p);
                    }
                } else {
                    if to >= m {
                        let r = Self::grown(right, m, hi);
                        let f = if from >= m { from } else { m };
                        self.lemma_part_admits(from, to, v, f, to);
                        self.lemma_half_admits(r, lo, hi, f, to, v);
                        r.lemma_inserted_tally(m, hi, f, to, v, g, p);
                    }
                }
            },
        }
    }

    /// Makes the tree over `[start, end]` that holds nothing yet.
    pub(crate) fn new(start: i64, end: i64) -> (t: Tree)
        requires
            start <= end,
        ensures
            t == Self::fresh(start as int, end as int),
    {
        if start == end {
            Tree::Leaf(0)
        } else {
            Tree::Node { start: start, end: end, left: None, right: None, value: 0 }
        }
    }

    /// Makes a fresh tree as the half of another.
    fn new_son(start: i64, end: i64) -> (t: Option<Box<Tree>>)
        requires
            start <= end,
        ensures
            t == Some(Box::new(Self::fresh(start as int, end as int))),
    {
        Some(Box::new(Tree::new(start, end)))
    }

    /// Adds `value_i` over `[start_i, end_i]`: to this node where the range
    /// is all of it, else to the halves that the range reaches.
    pub(crate) fn insert(
        &mut self,
        start_i: i64,
        end_i: i64,
        value_i: i64,
        Ghost(lo): Ghost<int>,
        Ghost(hi): Ghost<int>,
    )
        requires
            old(self).wf(lo, hi),
            lo <= start_i <= end_i <= hi,
            old(self).admits(start_i as int, end_i as int, value_i as int),
        ensures
            *final(self) == old(self).inserted(
                lo,
                hi,
                start_i as int,
                end_i as int,
                value_i as int,
            ),
        decreases hi - lo,
    {
        let ghost from = start_i as int;
        let ghost to = end_i as int;
        let ghost v = value_i as int;
        proof {
            old(self).lemma_top_admits(from, to, v);
        }
        match self {
            Tree::Leaf(value) => {
                *value = *value + value_i;
            },
            Tree::Node { start, end, value, left, right } => {
                let mid_n = mid(*start, *end);
                if *start == start_i && *end == end_i {
                    *value = *value + value_i;
                    return ;
                }
                if end_i < mid_n {
                    if left.is_none() {
                        *left = Tree::new_son(*start, mid_n - 1);
                    }
                    match left {
                        Some(n) => {
                            proof {
                                old(self).lemma_half_admits(**n, lo, hi, from, to, v);
                            }
                            n.insert(start_i, end_i, value_i, Ghost(lo), Ghost(mid_n - 1));
                        },
                        None => {},
                    }
                } else if start_i >= mid_n {
                    if right.is_none() {
                        *right = Tree::new_son(mid_n, *end);
                    }
                    match right {
                        Some(n) => {
                            proof {
                                old(self).lemma_half_admits(**n, lo, hi, from, to, v);
                            }
                            n.insert(start_i, end_i, value_i, Ghost(mid_n as int), Ghost(hi));
                        },
                        None => {},
                    }
                } else {
                    if left.is_none() {
                        *left = Tree::new_son(*start, mid_n - 1);
                    }
                    match left {
                        Some(n) => {
                            proof {
                                old(self).lemma_part_admits(from, to, v, from, mid_n - 1);
                                old(self).lemma_half_admits(**n, lo, hi, from, mid_n - 1, v);
                            }
                            n.insert(start_i, mid_n - 1, value_i, Ghost(lo), Ghost(mid_n - 1));
                        },
                        None => {},
                    }
                    if right.is_none() {
                        *right = Tree::new_son(mid_n, *end);
                    }
                    match right {
                        Some(n) => {
                            proof {
                                old(self).lemma_part_admits(from, to, v, mid_n as int, to);
                                old(self).lemma_half_admits(**n, lo, hi, mid_n as int, to, v);
                            }
                            n.insert(mid_n, end_i, value_i, Ghost(mid_n as int), Ghost(hi));
                        },
                        None => {},
                    }
                }
            },
        }
    }

    /// Adds onto `acc` the aggregates on the way down to `point`.
    pub(crate) fn query(
        &self,
        point: i64,
        acc: i64,
        Ghost(lo): Ghost<int>,
        Ghost(hi): Ghost<int>,
    ) -> (r: i64)
        requires
            self.wf(lo, hi),
            lo <= point <= hi,
            i64::MIN <= acc + self.tally(Gauge::Fall, point as int),
            acc + self.tally(Gauge::Rise, point as int) <= i64::MAX,
        ensures
            r == acc + self.tally(Gauge::Net, point as int),
        decreases self,
    {
        proof {
            self.lemma_tally_order(point as int);
        }
        match self {
            Tree::Leaf(value) => acc + *value,
            Tree::Node { start, end, value, left, right } => {
                let mid = mid(*start, *end);
                let acc = *value + acc;
                if point < mid {
                    match left {
                        Some(n) => n.query(point, acc, Ghost(lo), Ghost(mid - 1)),
                        None => acc,
                    }
                } else {
                    match right {
                        Some(n) => n.query(point, acc, Ghost(mid as int), Ghost(hi)),
                        None => acc,
                    }
                }
            },
        }
    }
}

} // verus!
