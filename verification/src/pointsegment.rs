//! Point update and range query with a combine operator of the caller.

use crate::common::{floor_mid, is_visited, lemma_visited_within, mid, one};
use crate::node::Node;
use crate::operator::{
    clones_exactly, folded_in, is_total, lawful, lemma_assoc, lemma_comm, lemma_swap_last,
    lemma_total_blank, lemma_total_same, lemma_total_settled, lemma_total_split,
    lemma_total_update, models, settled, total,
};
use crate::snapshot::{gather_cells, held, points, raise_cells};
use vstd::prelude::*;

verus! {

impl<P> Node<P> {
    /// The aggregate of the single point `p`: what its leaf holds, or the
    /// default where the way down to the leaf is not there yet.
    spec fn at(self, d: P, p: int) -> P
        decreases self,
    {
        if self.start == self.end {
            self.value
        } else {
            let son = if p <= floor_mid(self.start as int, self.end as int) {
                self.left
            } else {
                self.right
            };
            match son {
                None => d,
                Some(n) => n.at(d, p),
            }
        }
    }

    /// The aggregates of the points of `[lo, hi]`, point by point.
    spec fn table(self, d: P, lo: int, hi: int) -> Map<int, P> {
        Map::new(|p: int| lo <= p <= hi, |p: int| self.at(d, p))
    }

    /// The node after `v` was inserted at `p`, for a node that covers
    /// `[lo, hi]`: `v` is combined into its aggregate and into that of every
    /// node between it and the leaf of `p`, which all exist afterwards.
    spec fn raised(self, g: spec_fn(P, P) -> P, d: P, lo: int, hi: int, p: int, v: P) -> Node<P>
        decreases hi - lo,
    {
        let m = floor_mid(lo, hi);
        Node {
            value: g(self.value, v),
            left: if lo < hi && p <= m {
                Some(Box::new(Self::grown(self.left, lo, m, d).raised(g, d, lo, m, p, v)))
            } else {
                self.left
            },
            right: if lo < hi && p > m {
                Some(Box::new(Self::grown(self.right, m + 1, hi, d).raised(g, d, m + 1, hi, p, v)))
            } else {
                self.right
            },
            ..self
        }
    }

    /// What a query over `[from, to]` gathers onto `acc`: the aggregate of
    /// every node of the canonical decomposition of `[from, to]` that exists,
    /// from the lowest interval up.
    spec fn gather(self, g: spec_fn(P, P) -> P, from: int, to: int, acc: P) -> P
        decreases self,
    {
        let m = floor_mid(self.start as int, self.end as int);
        if self.start == from && self.end == to {
            g(self.value, acc)
        } else if to <= m {
            match self.left {
                None => acc,
                Some(n) => n.gather(g, from, to, acc),
            }
        } else if from > m {
            match self.right {
                None => acc,
                Some(n) => n.gather(g, from, to, acc),
            }
        } else {
            let acc_l = match self.left {
                None => acc,
                Some(n) => n.gather(g, from, m, acc),
            };
            match self.right {
                None => acc_l,
                Some(n) => n.gather(g, m + 1, to, acc_l),
            }
        }
    }

    /// Every node holds the total of the points it covers.
    spec fn tidy(self, g: spec_fn(P, P) -> P, d: P, lo: int, hi: int) -> bool
        decreases self,
    {
        &&& self.value == total(self.table(d, lo, hi), g, d, lo, hi)
        &&& match self.left {
            Some(l) => l.tidy(g, d, lo, floor_mid(lo, hi)),
            None => true,
        }
        &&& match self.right {
            Some(r) => r.tidy(g, d, floor_mid(lo, hi) + 1, hi),
            None => true,
        }
    }

    /// The aggregate of a point is what the snapshot holds for the point.
    proof fn lemma_at_stored(self, d: P, lo: int, hi: int, p: int)
        requires
            self.wf(lo, hi),
            lo <= p <= hi,
        ensures
            self.at(d, p) == held(self.cells(), d, (p, p)),
        decreases self,
    {
        let m = floor_mid(lo, hi);
        if lo < hi {
            if p <= m {
                match self.left {
                    None => {},
                    Some(l) => {
                        l.lemma_at_stored(d, lo, m, p);
                    },
                }
            } else {
                match self.right {
                    None => {},
                    Some(r) => {
                        r.lemma_at_stored(d, m + 1, hi, p);
                    },
                }
            }
        }
    }

    /// After an insertion at `p`, the intervals on the way to `p` hold the
    /// value combined onto what they held, and nothing else has changed.
    proof fn lemma_raised_stored(
        self,
        g: spec_fn(P, P) -> P,
        d: P,
        lo: int,
        hi: int,
        p: int,
        v: P,
        a: int,
        b: int,
    )
        requires
            self.wf(lo, hi),
            lo <= p <= hi,
        ensures
            self.raised(g, d, lo, hi, p, v).stored(a, b) == (if is_visited(lo, hi, p, p, a, b) {
                Some(
                    g(
                        match self.stored(a, b) {
                            Some(x) => x,
                            None => d,
                        },
                        v,
                    ),
                )
            } else {
                self.stored(a, b)
            }),
        decreases hi - lo,
    {
        let m = floor_mid(lo, hi);
        let after = self.raised(g, d, lo, hi, p, v);
        if is_visited(lo, hi, p, p, a, b) {
            lemma_visited_within(lo, hi, p, p, a, b);
        }
        if lo < hi {
            if is_visited(lo, m, p, p, a, b) {
                lemma_visited_within(lo, m, p, p, a, b);
            }
            if is_visited(m + 1, hi, p, p, a, b) {
                lemma_visited_within(m + 1, hi, p, p, a, b);
            }
            if a == lo && b == hi {
            } else if b <= m {
                if p <= m {
                    let l = Self::grown(self.left, lo, m, d);
                    l.lemma_raised_stored(g, d, lo, m, p, v, a, b);
                    assert(after.left == Some(Box::new(l.raised(g, d, lo, m, p, v))));
                }
            } else if a > m {
                if p > m {
                    let r = Self::grown(self.right, m + 1, hi, d);
                    r.lemma_raised_stored(g, d, m + 1, hi, p, v, a, b);
                    assert(after.right == Some(Box::new(r.raised(g, d, m + 1, hi, p, v))));
                }
            } else {
            }
        }
    }

    /// The snapshot after an insertion is the raised snapshot.
    proof fn lemma_raised_cells(self, g: spec_fn(P, P) -> P, d: P, lo: int, hi: int, p: int, v: P)
        requires
            self.wf(lo, hi),
            lo <= p <= hi,
        ensures
            self.raised(g, d, lo, hi, p, v).cells() == raise_cells(
                self.cells(),
                g,
                d,
                lo,
                hi,
                p,
                v,
            ),
    {
        let after = self.raised(g, d, lo, hi, p, v);
        let expected = raise_cells(self.cells(), g, d, lo, hi, p, v);
        assert forall|k: (int, int)|
            #![trigger after.cells().dom().contains(k)]
            #![trigger expected.dom().contains(k)]
            (after.cells().dom().contains(k) <==> expected.dom().contains(k)) && (
            after.cells().dom().contains(k) ==> after.cells()[k] == expected[k]) by {
            self.lemma_raised_stored(g, d, lo, hi, p, v, k.0, k.1);
        }
        assert(after.cells() =~= expected);
    }

    /// What a query gathers from the tree is what it gathers from the
    /// snapshot.
    proof fn lemma_gather_cells(
        self,
        cells: Map<(int, int), P>,
        g: spec_fn(P, P) -> P,
        lo: int,
        hi: int,
        from: int,
        to: int,
        acc: P,
    )
        requires
            self.wf(lo, hi),
            self.shown_by(cells, lo, hi),
            from <= to,
            from <= hi,
            lo <= to,
        ensures
            self.gather(
                g,
                if from >= lo { from } else { lo },
                if to <= hi { to } else { hi },
                acc,
            ) == gather_cells(cells, g, lo, hi, from, to, acc),
        decreases self,
    {
        let m = floor_mid(lo, hi);
        self.lemma_half_shown(cells, lo, hi);
        if from <= lo && hi <= to {
        } else {
            let acc_l = if from <= m {
                gather_cells(cells, g, lo, m, from, to, acc)
            } else {
                acc
            };
            if from <= m {
                match self.left {
                    None => {
                        assert(gather_cells(cells, g, lo, m, from, to, acc) == acc);
                    },
                    Some(l) => {
                        l.lemma_gather_cells(cells, g, lo, m, from, to, acc);
                    },
                }
            }
            if to > m {
                match self.right {
                    None => {
                        assert(gather_cells(cells, g, m + 1, hi, from, to, acc_l) == acc_l);
                    },
                    Some(r) => {
                        r.lemma_gather_cells(cells, g, m + 1, hi, from, to, acc_l);
                    },
                }
            }
        }
    }

    /// A fresh node holds the default at every point, and is tidy.
    proof fn lemma_fresh(g: spec_fn(P, P) -> P, d: P, lo: int, hi: int)
        requires
            i64::MIN <= lo <= hi <= i64::MAX,
        ensures
            Self::fresh(lo, hi, d).wf(lo, hi),
            forall|p: int| #[trigger] Self::fresh(lo, hi, d).at(d, p) == d,
            g(d, d) == d ==> Self::fresh(lo, hi, d).tidy(g, d, lo, hi),
    {
        if g(d, d) == d {
            lemma_total_blank(Self::fresh(lo, hi, d).table(d, lo, hi), g, d, lo, hi);
        }
    }

    /// Insertion keeps the shape.
    proof fn lemma_raised_wf(self, g: spec_fn(P, P) -> P, d: P, lo: int, hi: int, p: int, v: P)
        requires
            self.wf(lo, hi),
            i64::MIN <= lo <= p <= hi <= i64::MAX,
        ensures
            self.raised(g, d, lo, hi, p, v).wf(lo, hi),
        decreases hi - lo,
    {
        let m = floor_mid(lo, hi);
        if lo < hi {
            if p <= m {
                Self::grown(self.left, lo, m, d).lemma_raised_wf(g, d, lo, m, p, v);
            } else {
                Self::grown(self.right, m + 1, hi, d).lemma_raised_wf(g, d, m + 1, hi, p, v);
            }
        }
    }

    /// Insertion at `p` combines `v` onto the aggregate of `p` and leaves
    /// every other point as it was.
    proof fn lemma_raised_at(
        self,
        g: spec_fn(P, P) -> P,
        d: P,
        lo: int,
        hi: int,
        p: int,
        v: P,
        q: int,
    )
        requires
            self.wf(lo, hi),
            lo <= p <= hi,
            lo <= q <= hi,
        ensures
            self.raised(g, d, lo, hi, p, v).at(d, q) == (if q == p {
                g(self.at(d, p), v)
            } else {
                self.at(d, q)
            }),
        decreases hi - lo,
    {
        let m = floor_mid(lo, hi);
        if lo < hi {
            if p <= m {
                if q <= m {
                    Self::grown(self.left, lo, m, d).lemma_raised_at(g, d, lo, m, p, v, q);
                }
            } else {
                if q > m {
                    Self::grown(self.right, m + 1, hi, d).lemma_raised_at(g, d, m + 1, hi, p, v, q);
                }
            }
        }
    }

    /// Insertion at `p` changes the table of the node at `p` alone.
    proof fn lemma_raised_table(self, g: spec_fn(P, P) -> P, d: P, lo: int, hi: int, p: int, v: P)
        requires
            self.wf(lo, hi),
            lo <= p <= hi,
        ensures
            self.raised(g, d, lo, hi, p, v).table(d, lo, hi) == self.table(d, lo, hi).insert(
                p,
                g(self.table(d, lo, hi)[p], v),
            ),
    {
        let after = self.raised(g, d, lo, hi, p, v);
        assert forall|q: int| lo <= q <= hi implies #[trigger] after.table(d, lo, hi)[q]
            == self.table(d, lo, hi).insert(p, g(self.table(d, lo, hi)[p], v))[q] by {
            self.lemma_raised_at(g, d, lo, hi, p, v, q);
        }
        assert(after.table(d, lo, hi) =~= self.table(d, lo, hi).insert(
            p,
            g(self.table(d, lo, hi)[p], v),
        ));
    }

    /// The table of a half is the table of the node on that half's side.
    proof fn lemma_half_total(
        self,
        g: spec_fn(P, P) -> P,
        d: P,
        lo: int,
        hi: int,
        from: int,
        to: int,
    )
        requires
            self.wf(lo, hi),
            lo < hi,
            lo <= from,
            to <= hi,
        ensures
            to <= floor_mid(lo, hi) ==> total(
                Self::grown(self.left, lo, floor_mid(lo, hi), d).table(d, lo, floor_mid(lo, hi)),
                g,
                d,
                from,
                to,
            ) == total(self.table(d, lo, hi), g, d, from, to),
            from > floor_mid(lo, hi) ==> total(
                Self::grown(self.right, floor_mid(lo, hi) + 1, hi, d).table(
                    d,
                    floor_mid(lo, hi) + 1,
                    hi,
                ),
                g,
                d,
                from,
                to,
            ) == total(self.table(d, lo, hi), g, d, from, to),
    {
        let m = floor_mid(lo, hi);
        if to <= m {
            lemma_total_same(
                Self::grown(self.left, lo, m, d).table(d, lo, m),
                self.table(d, lo, hi),
                g,
                d,
                from,
                to,
            );
        }
        if from > m {
            lemma_total_same(
                Self::grown(self.right, m + 1, hi, d).table(d, m + 1, hi),
                self.table(d, lo, hi),
                g,
                d,
                from,
                to,
            );
        }
    }

    /// Insertion keeps a tidy node tidy.
    proof fn lemma_raised_tidy(self, g: spec_fn(P, P) -> P, d: P, lo: int, hi: int, p: int, v: P)
        requires
            self.wf(lo, hi),
            i64::MIN <= lo <= p <= hi <= i64::MAX,
            lawful(g, d),
            self.tidy(g, d, lo, hi),
        ensures
            self.raised(g, d, lo, hi, p, v).tidy(g, d, lo, hi),
        decreases hi - lo,
    {
        let m = floor_mid(lo, hi);
        self.lemma_raised_table(g, d, lo, hi, p, v);
        lemma_total_update(self.table(d, lo, hi), g, d, lo, hi, p, v);
        if lo < hi {
            if p <= m {
                Self::lemma_fresh(g, d, lo, m);
                Self::grown(self.left, lo, m, d).lemma_raised_tidy(g, d, lo, m, p, v);
            } else {
                Self::lemma_fresh(g, d, m + 1, hi);
                Self::grown(self.right, m + 1, hi, d).lemma_raised_tidy(g, d, m + 1, hi, p, v);
            }
        }
    }

    /// On a tidy node a query gathers the total of its range.
    proof fn lemma_gather_total(
        self,
        g: spec_fn(P, P) -> P,
        d: P,
        lo: int,
        hi: int,
        from: int,
        to: int,
        acc: P,
    )
        requires
            self.wf(lo, hi),
            i64::MIN <= lo <= from <= to <= hi <= i64::MAX,
            lawful(g, d),
            self.tidy(g, d, lo, hi),
            settled(g, d, acc),
        ensures
            self.gather(g, from, to, acc) == g(total(self.table(d, lo, hi), g, d, from, to), acc),
            settled(g, d, self.gather(g, from, to, acc)),
        decreases self,
    {
        let m = floor_mid(lo, hi);
        let table = self.table(d, lo, hi);
        if lo == from && hi == to {
            Self::lemma_onto_settled(g, d, self.value, acc);
        } else if to <= m {
            self.lemma_half_total(g, d, lo, hi, from, to);
            Self::lemma_fresh(g, d, lo, m);
            match self.left {
                None => {
                    lemma_total_blank(Self::fresh(lo, m, d).table(d, lo, m), g, d, from, to);
                    lemma_comm(g, d, acc);
                },
                Some(n) => {
                    n.lemma_gather_total(g, d, lo, m, from, to, acc);
                },
            }
        } else if from > m {
            self.lemma_half_total(g, d, lo, hi, from, to);
            Self::lemma_fresh(g, d, m + 1, hi);
            match self.right {
                None => {
                    let blank = Self::fresh(m + 1, hi, d).table(d, m + 1, hi);
                    lemma_total_blank(blank, g, d, from, to);
                    lemma_comm(g, d, acc);
                },
                Some(n) => {
                    n.lemma_gather_total(g, d, m + 1, hi, from, to, acc);
                },
            }
        } else {
            let t1 = total(table, g, d, from, m);
            let t2 = total(table, g, d, m + 1, to);
            self.lemma_half_total(g, d, lo, hi, from, m);
            self.lemma_half_total(g, d, lo, hi, m + 1, to);
            Self::lemma_fresh(g, d, lo, m);
            Self::lemma_fresh(g, d, m + 1, hi);
            let acc_l = match self.left {
                None => acc,
                Some(n) => n.gather(g, from, m, acc),
            };
            match self.left {
                None => {
                    lemma_total_blank(Self::fresh(lo, m, d).table(d, lo, m), g, d, from, m);
                    lemma_comm(g, d, acc);
                },
                Some(n) => {
                    n.lemma_gather_total(g, d, lo, m, from, m, acc);
                },
            }
            assert(acc_l == g(t1, acc));
            assert(settled(g, d, acc_l));
            match self.right {
                None => {
                    let blank = Self::fresh(m + 1, hi, d).table(d, m + 1, hi);
                    lemma_total_blank(blank, g, d, m + 1, to);
                    lemma_comm(g, d, acc_l);
                },
                Some(n) => {
                    n.lemma_gather_total(g, d, m + 1, hi, m + 1, to, acc_l);
                },
            }
            assert(self.gather(g, from, to, acc) == g(t2, g(t1, acc)));
            lemma_assoc(g, t2, t1, acc);
            lemma_comm(g, t2, t1);
            lemma_total_split(table, g, d, from, m, to);
        }
    }

    /// Whatever is combined in front of a settled aggregate leaves it settled.
    proof fn lemma_onto_settled(g: spec_fn(P, P) -> P, d: P, x: P, acc: P)
        requires
            lawful(g, d),
            settled(g, d, acc),
        ensures
            settled(g, d, g(x, acc)),
    {
        lemma_assoc(g, x, acc, d);
    }
}

impl<P: Clone> Node<P> {
    /// Gathers onto `acc` the aggregates of the canonical decomposition of
    /// `[start_q, end_q]`, as far as its intervals are there.
    fn query_range<F: Fn(&P, &P) -> P>(
        &self,
        start_q: i64,
        end_q: i64,
        combine: &F,
        acc: P,
    ) -> (r: P)
        requires
            self.wf(self.start as int, self.end as int),
            self.start <= start_q <= end_q <= self.end,
            is_total(*combine),
        ensures
            forall|g: spec_fn(P, P) -> P| #[trigger]
                models(*combine, g) ==> r == self.gather(g, start_q as int, end_q as int, acc),
        decreases self,
    {
        if self.start == start_q && self.end == end_q {
            return combine(&self.value, &acc);
        }
        let mid = mid(self.start, self.end);

        if end_q <= mid {
            match &self.left {
                None => acc,
                Some(n) => n.query_range(start_q, end_q, combine, acc),
            }
        } else if start_q > mid {
            match &self.right {
                None => acc,
                Some(n) => n.query_range(start_q, end_q, combine, acc),
            }
        } else {
            let acc_l = match &self.left {
                None => acc,
                Some(n) => n.query_range(start_q, mid, combine, acc),
            };
            let acc_r = match &self.right {
                None => acc_l,
                Some(n) => n.query_range(mid + one(), end_q, combine, acc_l),
            };
            acc_r
        }
    }

    /// Combines `point_data` into this node and into every node on the way
    /// down to the leaf of `point_n`, growing the way where it is missing.
    fn insert_point<F: Fn(&P, &P) -> P>(
        &mut self,
        point_n: i64,
        point_data: P,
        default: &P,
        combine: &F,
    )
        requires
            old(self).wf(old(self).start as int, old(self).end as int),
            old(self).start <= point_n <= old(self).end,
            is_total(*combine),
            clones_exactly(*default),
        ensures
            final(self).wf(old(self).start as int, old(self).end as int),
            forall|g: spec_fn(P, P) -> P| #[trigger]
                models(*combine, g) ==> *final(self) == old(self).raised(
                    g,
                    *default,
                    old(self).start as int,
                    old(self).end as int,
                    point_n as int,
                    point_data,
                ),
        decreases old(self).end - old(self).start,
    {
        let mid = mid(self.start, self.end);
        self.value = combine(&self.value, &point_data);
        if self.start == self.end {
            return ;
        }
        if point_n <= mid {
            if self.left.is_none() {
                self.left = Node::new_son(self.start, mid, default);
            }
            match &mut self.left {
                Some(n) => n.insert_point(point_n, point_data, default, combine),
                None => {},
            }
        } else {
            if self.right.is_none() {
                self.right = Node::new_son(mid + one(), self.end, default);
            }
            match &mut self.right {
                Some(n) => n.insert_point(point_n, point_data, default, combine),
                None => {},
            }
        }
    }
}

/// A tree over the points of `[lower, upper]` that combines a value into one
/// point and reads the aggregate of a range.
///
/// Its view is a snapshot: the intervals that are there, each with the
/// aggregate stored for it. What the tree computes is stated relative to a
/// function `g` that says what the combine operator returns (see
/// [`models`]).
pub struct PointSegmentTree<P, F> {
    root: Node<P>,
    lower_bound: i64,
    upper_bound: i64,
    default: P,
    combine: F,
}

impl<P: Clone, F: Fn(&P, &P) -> P> View for PointSegmentTree<P, F> {
    type V = Map<(int, int), P>;

    /// The intervals that are there, each with its aggregate.
    closed spec fn view(&self) -> Map<(int, int), P> {
        self.root.cells()
    }
}

impl<P: Clone, F: Fn(&P, &P) -> P> PointSegmentTree<P, F> {
    /// The lower end of the domain.
    pub closed spec fn lower(&self) -> int {
        self.lower_bound as int
    }

    /// The upper end of the domain.
    pub closed spec fn upper(&self) -> int {
        self.upper_bound as int
    }

    /// The aggregate that stands for "nothing inserted".
    pub closed spec fn default_value(&self) -> P {
        self.default
    }

    /// The combine operator.
    pub closed spec fn combiner(&self) -> F {
        self.combine
    }

    /// The bounds are in order, the nodes tile the domain by the floor cut,
    /// the operator accepts every pair and the default clones exactly.
    pub closed spec fn wf(&self) -> bool {
        &&& self.lower_bound <= self.upper_bound
        &&& self.root.wf(self.lower_bound as int, self.upper_bound as int)
        &&& is_total(self.combine)
        &&& clones_exactly(self.default)
    }

    /// The aggregate of every single point of the domain: all that was
    /// inserted there, combined onto the default in the order it came.
    pub open spec fn table(&self) -> Map<int, P> {
        points(self@, self.default_value(), self.lower(), self.upper())
    }

    /// Every interval that is there holds the total, under `g`, of the
    /// points it covers.
    pub closed spec fn tidy(&self, g: spec_fn(P, P) -> P) -> bool {
        self.root.tidy(g, self.default, self.lower_bound as int, self.upper_bound as int)
    }

    /// The tree over `[lower, upper]` before anything was inserted.
    pub closed spec fn fresh(lower: int, upper: int, d: P, f: F) -> Self {
        PointSegmentTree {
            root: Node::fresh(lower, upper, d),
            lower_bound: lower as i64,
            upper_bound: upper as i64,
            default: d,
            combine: f,
        }
    }

    /// The tree after `v` was inserted at `point`.
    pub closed spec fn inserted(&self, g: spec_fn(P, P) -> P, point: int, v: P) -> Self {
        PointSegmentTree {
            root: self.root.raised(
                g,
                self.default,
                self.lower_bound as int,
                self.upper_bound as int,
                point,
                v,
            ),
            ..*self
        }
    }

    /// The tree after the insertions `updates`, from the first to the last.
    pub open spec fn replayed(&self, g: spec_fn(P, P) -> P, updates: Seq<(int, P)>) -> Self
        decreases updates.len(),
    {
        if updates.len() == 0 {
            *self
        } else {
            self.replayed(g, updates.drop_last()).inserted(g, updates.last().0, updates.last().1)
        }
    }

    /// `other` has the bounds, the default and the operator of this tree.
    pub open spec fn alike(&self, other: Self) -> bool {
        &&& other.lower() == self.lower()
        &&& other.upper() == self.upper()
        &&& other.default_value() == self.default_value()
        &&& other.combiner() == self.combiner()
    }

    /// What inserting `v` at `point` makes of this tree: in `after`, every
    /// interval on the way from the root to `point` is there and has `v`
    /// combined onto what it held. That combines `v` onto the aggregate of
    /// `point` and leaves every other point as it was. Where the operator is
    /// lawful, a tidy tree stays tidy.
    pub open spec fn inserting(
        &self,
        g: spec_fn(P, P) -> P,
        point: int,
        v: P,
        after: Self,
    ) -> bool {
        &&& after@ == raise_cells(
            self@,
            g,
            self.default_value(),
            self.lower(),
            self.upper(),
            point,
            v,
        )
        &&& after.table() == self.table().insert(point, g(self.table()[point], v))
        &&& lawful(g, self.default_value()) && self.tidy(g) ==> after.tidy(g)
    }

    /// What a query over `[start, end]` answers.
    pub open spec fn answer(&self, g: spec_fn(P, P) -> P, start: int, end: int) -> Option<P> {
        if start <= end && self.lower() <= start && end <= self.upper() {
            Some(
                gather_cells(
                    self@,
                    g,
                    self.lower(),
                    self.upper(),
                    start,
                    end,
                    self.default_value(),
                ),
            )
        } else {
            None
        }
    }

    /// The table holds, at every point, what the way down to it ends in.
    proof fn lemma_table(&self)
        requires
            self.wf(),
        ensures
            self.table() == self.root.table(
                self.default,
                self.lower_bound as int,
                self.upper_bound as int,
            ),
    {
        let lo = self.lower_bound as int;
        let hi = self.upper_bound as int;
        assert forall|p: int| lo <= p <= hi implies #[trigger] self.table()[p]
            == self.root.table(self.default, lo, hi)[p] by {
            self.root.lemma_at_stored(self.default, lo, hi, p);
        }
        assert(self.table() =~= self.root.table(self.default, lo, hi));
    }

    /// A fresh tree has the bounds, the default and the operator it was made
    /// with; its root alone is there, holding the default, so that it holds
    /// the default at every point. A query over the whole domain answers the
    /// default combined with itself, a query over any other range inside the
    /// bounds the default, and any other query nothing. The tree is tidy
    /// where combining the default with itself gives the default.
    pub proof fn law_fresh(lower: int, upper: int, d: P, f: F, g: spec_fn(P, P) -> P)
        requires
            i64::MIN <= lower <= upper <= i64::MAX,
            is_total(f),
            clones_exactly(d),
        ensures
            Self::fresh(lower, upper, d, f).wf(),
            Self::fresh(lower, upper, d, f).lower() == lower,
            Self::fresh(lower, upper, d, f).upper() == upper,
            Self::fresh(lower, upper, d, f).default_value() == d,
            Self::fresh(lower, upper, d, f).combiner() == f,
            Self::fresh(lower, upper, d, f)@ == Map::<(int, int), P>::empty().insert(
                (lower, upper),
                d,
            ),
            Self::fresh(lower, upper, d, f).table() == Map::new(
                |p: int| lower <= p <= upper,
                |p: int| d,
            ),
            g(d, d) == d ==> Self::fresh(lower, upper, d, f).tidy(g),
            forall|start: int, end: int|
                #![trigger Self::fresh(lower, upper, d, f).answer(g, start, end)]
                Self::fresh(lower, upper, d, f).answer(g, start, end) == (if start == lower && end
                    == upper {
                    Some(g(d, d))
                } else if lower <= start <= end <= upper {
                    Some(d)
                } else {
                    None
                }),
    {
        let t = Self::fresh(lower, upper, d, f);
        let m = floor_mid(lower, upper);
        Node::lemma_fresh(g, d, lower, upper);
        assert(t@ =~= Map::<(int, int), P>::empty().insert((lower, upper), d));
        assert(t.table() =~= Map::new(|p: int| lower <= p <= upper, |p: int| d));
        assert forall|start: int, end: int|
            #![trigger t.answer(g, start, end)]
            lower <= start <= end <= upper && !(start == lower && end == upper) implies t.answer(
            g,
            start,
            end,
        ) == Some(d) by {
            assert(gather_cells(t@, g, lower, m, start, end, d) == d);
            assert(gather_cells(t@, g, m + 1, upper, start, end, d) == d);
        }
    }

    /// Inserting keeps the tree well formed, with its bounds, default and
    /// operator, and does to it what [`Self::inserting`] says.
    pub proof fn law_inserted(&self, g: spec_fn(P, P) -> P, point: int, v: P)
        requires
            self.wf(),
            self.lower() <= point <= self.upper(),
        ensures
            self.inserted(g, point, v).wf(),
            self.alike(self.inserted(g, point, v)),
            self.inserting(g, point, v, self.inserted(g, point, v)),
    {
        let lo = self.lower_bound as int;
        let hi = self.upper_bound as int;
        self.root.lemma_raised_wf(g, self.default, lo, hi, point, v);
        self.root.lemma_raised_cells(g, self.default, lo, hi, point, v);
        self.root.lemma_raised_table(g, self.default, lo, hi, point, v);
        self.lemma_table();
        self.inserted(g, point, v).lemma_table();
        if lawful(g, self.default) && self.tidy(g) {
            self.root.lemma_raised_tidy(g, self.default, lo, hi, point, v);
        }
    }

    /// On a tidy tree with a lawful operator, a query over a range inside the
    /// bounds answers the total of the points of the range, as a plain table
    /// would.
    pub proof fn law_answer(&self, g: spec_fn(P, P) -> P, start: int, end: int)
        requires
            self.wf(),
            self.lower() <= start <= end <= self.upper(),
            lawful(g, self.default_value()),
            self.tidy(g),
        ensures
            self.answer(g, start, end) == Some(
                total(self.table(), g, self.default_value(), start, end),
            ),
    {
        let lo = self.lower_bound as int;
        let hi = self.upper_bound as int;
        let d = self.default;
        self.lemma_table();
        self.root.lemma_gather_total(g, d, lo, hi, start, end, d);
        self.root.lemma_gather_cells(self@, g, lo, hi, start, end, d);
        lemma_total_settled(self.table(), g, d, start, end);
    }

    /// Where the operator is lawful, two insertions give the same table in
    /// either order.
    pub proof fn law_inserted_order(&self, g: spec_fn(P, P) -> P, qa: int, va: P, qb: int, vb: P)
        requires
            self.wf(),
            self.lower() <= qa <= self.upper(),
            self.lower() <= qb <= self.upper(),
            lawful(g, self.default_value()),
        ensures
            self.inserted(g, qa, va).inserted(g, qb, vb).table() == self.inserted(
                g,
                qb,
                vb,
            ).inserted(g, qa, va).table(),
    {
        let a_then_b = self.inserted(g, qa, va).inserted(g, qb, vb);
        let b_then_a = self.inserted(g, qb, vb).inserted(g, qa, va);
        self.law_inserted(g, qa, va);
        self.law_inserted(g, qb, vb);
        self.inserted(g, qa, va).law_inserted(g, qb, vb);
        self.inserted(g, qb, vb).law_inserted(g, qa, va);
        lemma_swap_last(g, self.table()[qa], va, vb);
        assert(a_then_b.table() =~= b_then_a.table());
    }

    /// After any number of insertions into a tidy tree with a lawful
    /// operator, a query over a range answers what the range totalled
    /// before, with the values inserted at points of the range combined
    /// onto it, and with no other value.
    pub proof fn law_replayed(
        &self,
        g: spec_fn(P, P) -> P,
        updates: Seq<(int, P)>,
        start: int,
        end: int,
    )
        requires
            self.wf(),
            self.tidy(g),
            lawful(g, self.default_value()),
            forall|i: int|
                0 <= i < updates.len() ==> self.lower() <= (#[trigger] updates[i]).0
                    <= self.upper(),
            self.lower() <= start <= end <= self.upper(),
        ensures
            self.replayed(g, updates).wf(),
            self.replayed(g, updates).tidy(g),
            self.alike(self.replayed(g, updates)),
            self.replayed(g, updates).answer(g, start, end) == Some(
                folded_in(
                    updates,
                    g,
                    total(self.table(), g, self.default_value(), start, end),
                    start,
                    end,
                ),
            ),
        decreases updates.len(),
    {
        let d = self.default_value();
        if updates.len() == 0 {
            self.law_answer(g, start, end);
        } else {
            let earlier = updates.drop_last();
            let (point, value) = updates.last();
            let before = self.replayed(g, earlier);
            let after = self.replayed(g, updates);
            assert(self.lower() <= updates[updates.len() - 1].0 <= self.upper());
            assert forall|i: int| 0 <= i < earlier.len() implies self.lower() <= (
            #[trigger] earlier[i]).0 <= self.upper() by {
                assert(earlier[i] == updates[i]);
            }
            self.law_replayed(g, earlier, start, end);
            before.law_inserted(g, point, value);
            before.law_answer(g, start, end);
            after.law_answer(g, start, end);
            if start <= point <= end {
                lemma_total_update(before.table(), g, d, start, end, point, value);
            } else {
                lemma_total_same(before.table(), after.table(), g, d, start, end);
            }
        }
    }

    /// Makes the tree over `[lower_bound, upper_bound]` with nothing inserted.
    pub fn new(lower_bound: i64, upper_bound: i64, default_value: P, combine: F) -> (t: Self)
        requires
            lower_bound <= upper_bound,
            is_total(combine),
            clones_exactly(default_value),
        ensures
            t == Self::fresh(lower_bound as int, upper_bound as int, default_value, combine),
            t.wf(),
            t.lower() == lower_bound,
            t.upper() == upper_bound,
            t.default_value() == default_value,
            t.combiner() == combine,
            t@ == Map::<(int, int), P>::empty().insert(
                (lower_bound as int, upper_bound as int),
                default_value,
            ),
            t.table() == Map::new(|p: int| lower_bound <= p <= upper_bound, |p: int| default_value),
            forall|g: spec_fn(P, P) -> P|
                g(default_value, default_value) == default_value ==> #[trigger] t.tidy(g),
    {
        let ghost lo = lower_bound as int;
        let ghost hi = upper_bound as int;
        proof {
            assert forall|g: spec_fn(P, P) -> P|
                g(default_value, default_value) == default_value implies #[trigger] Self::fresh(
                lo,
                hi,
                default_value,
                combine,
            ).tidy(g) by {
                Self::law_fresh(lo, hi, default_value, combine, g);
            }
            Self::law_fresh(lo, hi, default_value, combine, |a: P, b: P| a);
        }
        let node = Node::new(lower_bound, upper_bound, &default_value);
        PointSegmentTree {
            default: default_value,
            lower_bound: lower_bound,
            upper_bound: upper_bound,
            combine: combine,
            root: node,
        }
    }

    /// Combines `point_data` into the point `point_n`.
    pub fn insert(&mut self, point_n: i64, point_data: P)
        requires
            old(self).wf(),
            old(self).lower() <= point_n <= old(self).upper(),
        ensures
            final(self).wf(),
            old(self).alike(*final(self)),
            forall|g: spec_fn(P, P) -> P| #[trigger]
                models(old(self).combiner(), g) ==> {
                    &&& *final(self) == old(self).inserted(g, point_n as int, point_data)
                    &&& old(self).inserting(g, point_n as int, point_data, *final(self))
                },
    {
        proof {
            assert forall|g: spec_fn(P, P) -> P| #[trigger]
                models(old(self).combiner(), g) implies old(self).inserting(
                g,
                point_n as int,
                point_data,
                old(self).inserted(g, point_n as int, point_data),
            ) by {
                old(self).law_inserted(g, point_n as int, point_data);
            }
        }
        self.root.insert_point(point_n, point_data, &self.default, &self.combine);
    }

    /// The aggregate of the range `[start_q, end_q]`, or `None` where the
    /// range is empty or reaches outside the domain.
    pub fn query(&self, start_q: i64, end_q: i64) -> (r: Option<P>)
        requires
            self.wf(),
        ensures
            r is Some <==> start_q <= end_q && self.lower() <= start_q && end_q <= self.upper(),
            forall|g: spec_fn(P, P) -> P| #[trigger]
                models(self.combiner(), g) ==> {
                    &&& r == self.answer(g, start_q as int, end_q as int)
                    &&& r is Some && lawful(g, self.default_value()) && self.tidy(g) ==> r == Some(
                        total(self.table(), g, self.default_value(), start_q as int, end_q as int),
                    )
                },
    {
        if end_q < start_q || start_q < self.lower_bound || end_q > self.upper_bound {
            None
        } else {
            let ghost from = start_q as int;
            let ghost to = end_q as int;
            proof {
                assert forall|g: spec_fn(P, P) -> P| #[trigger]
                    models(self.combiner(), g) implies {
                    &&& Some(self.root.gather(g, from, to, self.default)) == self.answer(
                        g,
                        from,
                        to,
                    )
                    &&& lawful(g, self.default_value()) && self.tidy(g) ==> self.answer(g, from, to)
                        == Some(total(self.table(), g, self.default_value(), from, to))
                } by {
                    self.root.lemma_gather_cells(
                        self@,
                        g,
                        self.lower(),
                        self.upper(),
                        from,
                        to,
                        self.default,
                    );
                    if lawful(g, self.default_value()) && self.tidy(g) {
                        self.law_answer(g, from, to);
                    }
                }
            }
            Some(self.root.query_range(start_q, end_q, &self.combine, self.default.clone()))
        }
    }

    /// The two ends of the domain.
    pub fn bounds(&self) -> (r: (i64, i64))
        ensures
            r.0 == self.lower(),
            r.1 == self.upper(),
    {
        (self.lower_bound, self.upper_bound)
    }
}

} // verus!
