//! Range update and point query with a combine operator of the caller.

use crate::common::{
    floor_mid, is_canonical, is_visited, lemma_canonical_visited, lemma_visited_within, mid, one,
};
use crate::node::Node;
use crate::operator::{
    associative, clones_exactly, commutative, folded_over, is_total, lawful, lemma_assoc,
    lemma_settled_step, lemma_swap_last, models, range_apply, settled,
};
use crate::snapshot::{descend, held, spread_cells, walked};
use vstd::prelude::*;

verus! {

impl<S> Node<S> {
    /// What a walk from this node down towards `p` accumulates onto `acc`:
    /// the aggregate of every node met, in order, until a half is missing.
    spec fn walk(self, g: spec_fn(S, S) -> S, p: int, acc: S) -> S
        decreases self,
    {
        let acc2 = g(acc, self.value);
        let son = if p <= floor_mid(self.start as int, self.end as int) {
            self.left
        } else {
            self.right
        };
        match son {
            None => acc2,
            Some(n) => n.walk(g, p, acc2),
        }
    }

    /// The node after `v` was inserted over `[from, to]`, for a node that
    /// covers `[lo, hi]`. A node that lies within `[from, to]` combines `v`
    /// into its own aggregate; any other hands each half the part of
    /// `[from, to]` that falls into it, growing the half where it is missing.
    spec fn spread(
        self,
        g: spec_fn(S, S) -> S,
        d: S,
        lo: int,
        hi: int,
        from: int,
        to: int,
        v: S,
    ) -> Node<S>
        decreases hi - lo,
    {
        let m = floor_mid(lo, hi);
        if from <= lo && hi <= to {
            Node { value: g(self.value, v), ..self }
        } else if lo < hi {
            Node {
                left: if from <= m {
                    Some(
                        Box::new(
                            Self::grown(self.left, lo, m, d).spread(
                                g,
                                d,
                                lo,
                                m,
                                from,
                                if to <= m { to } else { m },
                                v,
                            ),
                        ),
                    )
                } else {
                    self.left
                },
                right: if to > m {
                    Some(
                        Box::new(
                            Self::grown(self.right, m + 1, hi, d).spread(
                                g,
                                d,
                                m + 1,
                                hi,
                                if from > m { from } else { m + 1 },
                                to,
                                v,
                            ),
                        ),
                    )
                } else {
                    self.right
                },
                ..self
            }
        } else {
            self
        }
    }

    /// A walk down the tree is the walk down its snapshot.
    proof fn lemma_walk_descend(
        self,
        cells: Map<(int, int), S>,
        g: spec_fn(S, S) -> S,
        lo: int,
        hi: int,
        p: int,
        acc: S,
    )
        requires
            self.wf(lo, hi),
            self.shown_by(cells, lo, hi),
            lo <= p <= hi,
        ensures
            self.walk(g, p, acc) == descend(cells, g, lo, hi, p, acc),
        decreases self,
    {
        let m = floor_mid(lo, hi);
        let acc2 = g(acc, self.value);
        self.lemma_half_shown(cells, lo, hi);
        if lo < hi {
            if p <= m {
                match self.left {
                    None => {
                        assert(descend(cells, g, lo, m, p, acc2) == acc2);
                    },
                    Some(l) => {
                        l.lemma_walk_descend(cells, g, lo, m, p, acc2);
                    },
                }
            } else {
                match self.right {
                    None => {
                        assert(descend(cells, g, m + 1, hi, p, acc2) == acc2);
                    },
                    Some(r) => {
                        r.lemma_walk_descend(cells, g, m + 1, hi, p, acc2);
                    },
                }
            }
        }
    }

    /// What an interval holds after an update over `[from, to]`, given what
    /// it held before.
    spec fn spread_at(
        before: Option<S>,
        g: spec_fn(S, S) -> S,
        d: S,
        lo: int,
        hi: int,
        from: int,
        to: int,
        v: S,
        a: int,
        b: int,
    ) -> Option<S> {
        let base = match before {
            Some(x) => x,
            None => d,
        };
        if is_canonical(lo, hi, from, to, a, b) {
            Some(g(base, v))
        } else if is_visited(lo, hi, from, to, a, b) {
            Some(base)
        } else {
            before
        }
    }

    /// After an update, the intervals of the canonical decomposition hold
    /// the value combined onto what they held, the intervals come by on the
    /// way are there, and nothing else has changed.
    proof fn lemma_spread_stored(
        self,
        g: spec_fn(S, S) -> S,
        d: S,
        lo: int,
        hi: int,
        from: int,
        to: int,
        v: S,
        a: int,
        b: int,
    )
        requires
            self.wf(lo, hi),
            from <= to,
            from <= hi,
            lo <= to,
        ensures
            self.spread(
                g,
                d,
                lo,
                hi,
                if from >= lo { from } else { lo },
                if to <= hi { to } else { hi },
                v,
            ).stored(a, b) == Self::spread_at(self.stored(a, b), g, d, lo, hi, from, to, v, a, b),
        decreases hi - lo,
    {
        let m = floor_mid(lo, hi);
        let cf = if from >= lo { from } else { lo };
        let ct = if to <= hi { to } else { hi };
        let after = self.spread(g, d, lo, hi, cf, ct, v);
        if is_visited(lo, hi, from, to, a, b) {
            lemma_visited_within(lo, hi, from, to, a, b);
        }
        if is_canonical(lo, hi, from, to, a, b) {
            lemma_canonical_visited(lo, hi, from, to, a, b);
        }
        if from <= lo && hi <= to {
        } else {
            assert(lo < hi);
            if is_visited(lo, m, from, to, a, b) {
                lemma_visited_within(lo, m, from, to, a, b);
            }
            if is_visited(m + 1, hi, from, to, a, b) {
                lemma_visited_within(m + 1, hi, from, to, a, b);
            }
            if is_canonical(lo, m, from, to, a, b) {
                lemma_canonical_visited(lo, m, from, to, a, b);
            }
            if is_canonical(m + 1, hi, from, to, a, b) {
                lemma_canonical_visited(m + 1, hi, from, to, a, b);
            }
            if a == lo && b == hi {
            } else if b <= m {
                if from <= m {
                    let l = Self::grown(self.left, lo, m, d);
                    l.lemma_spread_stored(g, d, lo, m, from, to, v, a, b);
                    assert(after.left == Some(
                        Box::new(l.spread(g, d, lo, m, cf, if ct <= m { ct } else { m }, v)),
                    ));
                }
            } else if a > m {
                if to > m {
                    let r = Self::grown(self.right, m + 1, hi, d);
                    r.lemma_spread_stored(g, d, m + 1, hi, from, to, v, a, b);
                    assert(after.right == Some(
                        Box::new(r.spread(g, d, m + 1, hi, if cf > m { cf } else { m + 1 }, ct, v)),
                    ));
                }
            } else {
            }
        }
    }

    /// The snapshot after an update is the updated snapshot.
    proof fn lemma_spread_cells(
        self,
        g: spec_fn(S, S) -> S,
        d: S,
        lo: int,
        hi: int,
        from: int,
        to: int,
        v: S,
    )
        requires
            self.wf(lo, hi),
            lo <= from <= to <= hi,
        ensures
            self.spread(g, d, lo, hi, from, to, v).cells() == spread_cells(
                self.cells(),
                g,
                d,
                lo,
                hi,
                from,
                to,
                v,
            ),
    {
        let after = self.spread(g, d, lo, hi, from, to, v);
        let expected = spread_cells(self.cells(), g, d, lo, hi, from, to, v);
        assert forall|k: (int, int)|
            #![trigger after.cells().dom().contains(k)]
            #![trigger expected.dom().contains(k)]
            (after.cells().dom().contains(k) <==> expected.dom().contains(k)) && (
            after.cells().dom().contains(k) ==> after.cells()[k] == expected[k]) by {
            self.lemma_spread_stored(g, d, lo, hi, from, to, v, k.0, k.1);
            if is_canonical(lo, hi, from, to, k.0, k.1) {
                lemma_canonical_visited(lo, hi, from, to, k.0, k.1);
            }
        }
        assert(after.cells() =~= expected);
    }

    /// Insertion keeps the shape.
    proof fn lemma_spread_wf(
        self,
        g: spec_fn(S, S) -> S,
        d: S,
        lo: int,
        hi: int,
        from: int,
        to: int,
        v: S,
    )
        requires
            self.wf(lo, hi),
            i64::MIN <= lo <= from <= to <= hi <= i64::MAX,
        ensures
            self.spread(g, d, lo, hi, from, to, v).wf(lo, hi),
        decreases hi - lo,
    {
        let m = floor_mid(lo, hi);
        if from <= lo && hi <= to {
        } else {
            if from <= m {
                Self::grown(self.left, lo, m, d).lemma_spread_wf(
                    g,
                    d,
                    lo,
                    m,
                    from,
                    if to <= m { to } else { m },
                    v,
                );
            }
            if to > m {
                Self::grown(self.right, m + 1, hi, d).lemma_spread_wf(
                    g,
                    d,
                    m + 1,
                    hi,
                    if from > m { from } else { m + 1 },
                    to,
                    v,
                );
            }
        }
    }

    /// Combining `v` onto the accumulator before a walk gives what combining
    /// it onto the result of the walk gives.
    proof fn lemma_walk_push(self, g: spec_fn(S, S) -> S, p: int, acc: S, v: S)
        requires
            associative(g),
            commutative(g),
        ensures
            self.walk(g, p, g(acc, v)) == g(self.walk(g, p, acc), v),
        decreases self,
    {
        lemma_swap_last(g, acc, v, self.value);
        let son = if p <= floor_mid(self.start as int, self.end as int) {
            self.left
        } else {
            self.right
        };
        match son {
            None => {},
            Some(n) => {
                n.lemma_walk_push(g, p, g(acc, self.value), v);
            },
        }
    }

    /// After `v` was inserted over `[from, to]`, a walk to a point of that
    /// range ends with `v` combined onto what it gave before, and a walk to
    /// any other point gives what it gave before.
    proof fn lemma_spread_walk(
        self,
        g: spec_fn(S, S) -> S,
        d: S,
        lo: int,
        hi: int,
        from: int,
        to: int,
        v: S,
        p: int,
        acc: S,
    )
        requires
            self.wf(lo, hi),
            lo <= from <= to <= hi,
            lo <= p <= hi,
            associative(g),
            commutative(g),
            settled(g, d, acc),
        ensures
            self.spread(g, d, lo, hi, from, to, v).walk(g, p, acc) == (if from <= p <= to {
                g(self.walk(g, p, acc), v)
            } else {
                self.walk(g, p, acc)
            }),
        decreases hi - lo,
    {
        let m = floor_mid(lo, hi);
        let after = self.spread(g, d, lo, hi, from, to, v);
        let acc2 = g(acc, self.value);
        if from <= lo && hi <= to {
            lemma_assoc(g, acc, self.value, v);
            let son = if p <= m {
                self.left
            } else {
                self.right
            };
            match son {
                None => {},
                Some(n) => {
                    n.lemma_walk_push(g, p, acc2, v);
                },
            }
        } else {
            lemma_settled_step(g, d, acc, self.value);
            if p <= m {
                if from <= m {
                    let l = Self::grown(self.left, lo, m, d);
                    let t = if to <= m { to } else { m };
                    l.lemma_spread_walk(g, d, lo, m, from, t, v, p, acc2);
                    let l2 = l.spread(g, d, lo, m, from, t, v);
                    assert(after.left == Some(Box::new(l2)));
                    assert(after.walk(g, p, acc) == l2.walk(g, p, acc2));
                    assert(l.walk(g, p, acc2) == self.walk(g, p, acc));
                }
            } else {
                if to > m {
                    let r = Self::grown(self.right, m + 1, hi, d);
                    let b = if from > m { from } else { m + 1 };
                    r.lemma_spread_walk(g, d, m + 1, hi, b, to, v, p, acc2);
                    let r2 = r.spread(g, d, m + 1, hi, b, to, v);
                    assert(after.right == Some(Box::new(r2)));
                    assert(after.walk(g, p, acc) == r2.walk(g, p, acc2));
                    assert(r.walk(g, p, acc2) == self.walk(g, p, acc));
                }
            }
        }
    }
}

impl<S: Clone> Node<S> {
    /// Accumulates onto `acc` the aggregates on the way down towards `point`.
    fn query_point<F: Fn(&S, &S) -> S>(&self, point: i64, combine: &F, acc: S) -> (r: S)
        requires
            self.wf(self.start as int, self.end as int),
            is_total(*combine),
        ensures
            forall|g: spec_fn(S, S) -> S| #[trigger]
                models(*combine, g) ==> r == self.walk(g, point as int, acc),
        decreases self,
    {
        let acc2 = combine(&acc, &self.value);
        let mid_n = mid(self.start, self.end);
        let son = if point <= mid_n {
            &self.left
        } else {
            &self.right
        };
        match son {
            None => acc2,
            Some(n) => n.query_point(point, combine, acc2),
        }
    }

    /// Combines `value_s` into the canonical decomposition of
    /// `[start_s, end_s]` below this node, growing halves where they are
    /// missing.
    fn insert_range<F: Fn(&S, &S) -> S>(
        &mut self,
        start_s: i64,
        end_s: i64,
        value_s: &S,
        default: &S,
        combine: &F,
    )
        requires
            old(self).wf(old(self).start as int, old(self).end as int),
            old(self).start <= start_s <= end_s <= old(self).end,
            is_total(*combine),
            clones_exactly(*default),
        ensures
            final(self).wf(old(self).start as int, old(self).end as int),
            forall|g: spec_fn(S, S) -> S| #[trigger]
                models(*combine, g) ==> *final(self) == old(self).spread(
                    g,
                    *default,
                    old(self).start as int,
                    old(self).end as int,
                    start_s as int,
                    end_s as int,
                    *value_s,
                ),
        decreases old(self).end - old(self).start,
    {
        if start_s == self.start && end_s == self.end {
            self.value = combine(&self.value, value_s);
            return ;
        }
        let mid_n = mid(self.start, self.end);
        if end_s <= mid_n {
            if self.left.is_none() {
                self.left = Node::new_son(self.start, mid_n, default);
            }
            match &mut self.left {
                Some(n) => n.insert_range(start_s, end_s, value_s, default, combine),
                None => {},
            }
        } else if start_s > mid_n {
            if self.right.is_none() {
                self.right = Node::new_son(mid_n + one(), self.end, default);
            }
            match &mut self.right {
                Some(n) => n.insert_range(start_s, end_s, value_s, default, combine),
                None => {},
            }
        } else {
            if self.left.is_none() {
                self.left = Node::new_son(self.start, mid_n, default);
            }
            match &mut self.left {
                Some(n) => n.insert_range(start_s, mid_n, value_s, default, combine),
                None => {},
            }
            if self.right.is_none() {
                self.right = Node::new_son(mid_n + one(), self.end, default);
            }
            match &mut self.right {
                Some(n) => n.insert_range(mid_n + one(), end_s, value_s, default, combine),
                None => {},
            }
        }
    }
}

/// A tree over the points of `[lower, upper]` that combines a value into
/// every point of a range and reads the aggregate at one point.
///
/// Its view is a snapshot: the intervals that are there, each with the
/// aggregate stored for it. What the tree computes is stated relative to a
/// function `g` that says what the combine operator returns (see
/// [`models`]).
pub struct SegmentPointTree<S, F> {
    root: Node<S>,
    lower_bound: i64,
    upper_bound: i64,
    default: S,
    combine: F,
}

impl<S: Clone, F: Fn(&S, &S) -> S> View for SegmentPointTree<S, F> {
    type V = Map<(int, int), S>;

    /// The intervals that are there, each with its aggregate.
    closed spec fn view(&self) -> Map<(int, int), S> {
        self.root.cells()
    }
}

impl<S: Clone, F: Fn(&S, &S) -> S> SegmentPointTree<S, F> {
    /// The lower end of the domain.
    pub closed spec fn lower(&self) -> int {
        self.lower_bound as int
    }

    /// The upper end of the domain.
    pub closed spec fn upper(&self) -> int {
        self.upper_bound as int
    }

    /// The aggregate that stands for "nothing inserted".
    pub closed spec fn default_value(&self) -> S {
        self.default
    }

    /// The combine operator.
    pub closed spec fn combiner(&self) -> F {
        self.combine
    }

    /// The bounds are in order, the nodes tile the domain by the floor cut,
    /// the operator accepts every pair and the default clones exactly.
    pub closed spec fn wf(&self) -> bool {
        &&& self.lower_bound <= self.upper_bound
        &&& self.root.wf(self.lower_bound as int, self.upper_bound as int)
        &&& is_total(self.combine)
        &&& clones_exactly(self.default)
    }

    /// The aggregate at every point of the domain: what a walk from the root
    /// down to the point accumulates onto the default, interval by interval.
    pub open spec fn table(&self, g: spec_fn(S, S) -> S) -> Map<int, S> {
        walked(self@, g, self.default_value(), self.lower(), self.upper())
    }

    /// The tree over `[lower, upper]` before anything was inserted.
    pub closed spec fn fresh(lower: int, upper: int, d: S, f: F) -> Self {
        SegmentPointTree {
            root: Node::fresh(lower, upper, d),
            lower_bound: lower as i64,
            upper_bound: upper as i64,
            default: d,
            combine: f,
        }
    }

    /// The tree after `v` was inserted over `[start, end]`.
    pub closed spec fn inserted(&self, g: spec_fn(S, S) -> S, start: int, end: int, v: S) -> Self {
        SegmentPointTree {
            root: self.root.spread(
                g,
                self.default,
                self.lower_bound as int,
                self.upper_bound as int,
                start,
                end,
                v,
            ),
            ..*self
        }
    }

    /// The tree after the insertions `updates`, from the first to the last.
    pub open spec fn replayed(&self, g: spec_fn(S, S) -> S, updates: Seq<(int, int, S)>) -> Self
        decreases updates.len(),
    {
        if updates.len() == 0 {
            *self
        } else {
            self.replayed(g, updates.drop_last()).inserted(
                g,
                updates.last().0,
                updates.last().1,
                updates.last().2,
            )
        }
    }

    /// `other` has the bounds, the default and the operator of this tree.
    pub open spec fn alike(&self, other: Self) -> bool {
        &&& other.lower() == self.lower()
        &&& other.upper() == self.upper()
        &&& other.default_value() == self.default_value()
        &&& other.combiner() == self.combiner()
    }

    /// What inserting `v` over `[start, end]` makes of this tree: in `after`,
    /// every interval that the update comes by is there, and those of the
    /// canonical decomposition of `[start, end]` have `v` combined onto what
    /// they held. Where the operator is lawful, that combines `v` onto the
    /// aggregate of every point of `[start, end]` and leaves every other
    /// point as it was: the tree answers as a plain table would.
    pub open spec fn inserting(
        &self,
        g: spec_fn(S, S) -> S,
        start: int,
        end: int,
        v: S,
        after: Self,
    ) -> bool {
        &&& after@ == spread_cells(
            self@,
            g,
            self.default_value(),
            self.lower(),
            self.upper(),
            start,
            end,
            v,
        )
        &&& lawful(g, self.default_value()) ==> after.table(g) == range_apply(
            self.table(g),
            g,
            start,
            end,
            v,
        )
    }

    /// What a query at `point` answers.
    pub open spec fn answer(&self, g: spec_fn(S, S) -> S, point: int) -> Option<S> {
        if self.lower() <= point <= self.upper() {
            Some(descend(self@, g, self.lower(), self.upper(), point, self.default_value()))
        } else {
            None
        }
    }

    /// The table holds, at every point, what a walk down the tree gives.
    proof fn lemma_table(&self, g: spec_fn(S, S) -> S, p: int)
        requires
            self.wf(),
            self.lower() <= p <= self.upper(),
        ensures
            self.table(g).dom().contains(p),
            self.table(g)[p] == self.root.walk(g, p, self.default),
            self.answer(g, p) == Some(self.table(g)[p]),
    {
        self.root.lemma_walk_descend(
            self@,
            g,
            self.lower_bound as int,
            self.upper_bound as int,
            p,
            self.default,
        );
    }

    /// A fresh tree has the bounds, the default and the operator it was made
    /// with, and its root alone is there, holding the default. A query
    /// inside the bounds answers the default combined with itself, and a
    /// query outside them answers nothing.
    pub proof fn law_fresh(lower: int, upper: int, d: S, f: F, g: spec_fn(S, S) -> S)
        requires
            i64::MIN <= lower <= upper <= i64::MAX,
            is_total(f),
            clones_exactly(d),
        ensures
            Self::fresh(lower, upper, d, f).wf(),
            Self::fresh(lower, upper, d, f).lower() == lower,
            Self::fresh(lower, upper, d, f).upper() == upper,
            Self::fresh(lower, upper, d, f).default_value() == d,
            Self::fresh(lower, upper, d, f).combiner() == f,
            Self::fresh(lower, upper, d, f)@ == Map::<(int, int), S>::empty().insert(
                (lower, upper),
                d,
            ),
            Self::fresh(lower, upper, d, f).table(g) == Map::new(
                |p: int| lower <= p <= upper,
                |p: int| g(d, d),
            ),
            forall|p: int|
                #![trigger Self::fresh(lower, upper, d, f).answer(g, p)]
                Self::fresh(lower, upper, d, f).answer(g, p) == (if lower <= p <= upper {
                    Some(g(d, d))
                } else {
                    None
                }),
    {
        let t = Self::fresh(lower, upper, d, f);
        assert(t@ =~= Map::<(int, int), S>::empty().insert((lower, upper), d));
        assert forall|p: int| lower <= p <= upper implies #[trigger] t.table(g)[p] == g(d, d) by {
            t.lemma_table(g, p);
        }
        assert forall|p: int| lower <= p <= upper implies #[trigger] t.answer(g, p) == Some(
            g(d, d),
        ) by {
            t.lemma_table(g, p);
        }
        assert(t.table(g) =~= Map::new(|p: int| lower <= p <= upper, |p: int| g(d, d)));
    }

    /// Inserting keeps the tree well formed, with its bounds, default and
    /// operator, and does to it what [`Self::inserting`] says.
    pub proof fn law_inserted(&self, g: spec_fn(S, S) -> S, start: int, end: int, v: S)
        requires
            self.wf(),
            self.lower() <= start <= end <= self.upper(),
        ensures
            self.inserted(g, start, end, v).wf(),
            self.alike(self.inserted(g, start, end, v)),
            self.inserting(g, start, end, v, self.inserted(g, start, end, v)),
    {
        let lo = self.lower_bound as int;
        let hi = self.upper_bound as int;
        let d = self.default;
        let after = self.inserted(g, start, end, v);
        self.root.lemma_spread_wf(g, d, lo, hi, start, end, v);
        self.root.lemma_spread_cells(g, d, lo, hi, start, end, v);
        if lawful(g, d) {
            assert forall|p: int| lo <= p <= hi implies #[trigger] after.table(g)[p] == range_apply(
                self.table(g),
                g,
                start,
                end,
                v,
            )[p] by {
                self.root.lemma_spread_walk(g, d, lo, hi, start, end, v, p, d);
                self.lemma_table(g, p);
                after.lemma_table(g, p);
            }
            assert(after.table(g) =~= range_apply(self.table(g), g, start, end, v));
        }
    }

    /// Inserting the same value over the same range twice leaves every
    /// interval of the canonical decomposition holding the value combined
    /// twice onto what it held.
    pub proof fn law_inserted_twice(
        &self,
        g: spec_fn(S, S) -> S,
        start: int,
        end: int,
        v: S,
        a: int,
        b: int,
    )
        requires
            self.wf(),
            self.lower() <= start <= end <= self.upper(),
            is_canonical(self.lower(), self.upper(), start, end, a, b),
        ensures
            self.inserted(g, start, end, v).inserted(g, start, end, v)@.dom().contains((a, b)),
            self.inserted(g, start, end, v).inserted(g, start, end, v)@[(a, b)] == g(
                g(held(self@, self.default_value(), (a, b)), v),
                v,
            ),
    {
        self.law_inserted(g, start, end, v);
        self.inserted(g, start, end, v).law_inserted(g, start, end, v);
        lemma_canonical_visited(self.lower(), self.upper(), start, end, a, b);
    }

    /// Where the operator is lawful, inserting the same value over the same
    /// range twice combines it twice onto every point of the range.
    pub proof fn law_inserted_twice_at(
        &self,
        g: spec_fn(S, S) -> S,
        start: int,
        end: int,
        v: S,
        p: int,
    )
        requires
            self.wf(),
            self.lower() <= start <= p <= end <= self.upper(),
            lawful(g, self.default_value()),
        ensures
            self.inserted(g, start, end, v).inserted(g, start, end, v).answer(g, p) == Some(
                g(g(self.table(g)[p], v), v),
            ),
    {
        let once = self.inserted(g, start, end, v);
        let twice = once.inserted(g, start, end, v);
        self.law_inserted(g, start, end, v);
        once.law_inserted(g, start, end, v);
        twice.lemma_table(g, p);
        assert(once.table(g)[p] == g(self.table(g)[p], v));
    }

    /// Where the operator is lawful, two insertions give the same table in
    /// either order.
    pub proof fn law_inserted_order(
        &self,
        g: spec_fn(S, S) -> S,
        sa: int,
        ea: int,
        va: S,
        sb: int,
        eb: int,
        vb: S,
    )
        requires
            self.wf(),
            self.lower() <= sa <= ea <= self.upper(),
            self.lower() <= sb <= eb <= self.upper(),
            lawful(g, self.default_value()),
        ensures
            self.inserted(g, sa, ea, va).inserted(g, sb, eb, vb).table(g) == self.inserted(
                g,
                sb,
                eb,
                vb,
            ).inserted(g, sa, ea, va).table(g),
    {
        let a_then_b = self.inserted(g, sa, ea, va).inserted(g, sb, eb, vb);
        let b_then_a = self.inserted(g, sb, eb, vb).inserted(g, sa, ea, va);
        self.law_inserted(g, sa, ea, va);
        self.law_inserted(g, sb, eb, vb);
        self.inserted(g, sa, ea, va).law_inserted(g, sb, eb, vb);
        self.inserted(g, sb, eb, vb).law_inserted(g, sa, ea, va);
        assert forall|p: int| self.lower() <= p <= self.upper() implies #[trigger] a_then_b.table(
            g,
        )[p] == b_then_a.table(g)[p] by {
            lemma_swap_last(g, self.table(g)[p], va, vb);
        }
        assert(a_then_b.table(g) =~= b_then_a.table(g));
    }

    /// After any number of insertions with a lawful operator, a query at a
    /// point answers what the point held before, with the values inserted
    /// over ranges that cover the point combined onto it, and with no other
    /// value.
    pub proof fn law_replayed(&self, g: spec_fn(S, S) -> S, updates: Seq<(int, int, S)>, p: int)
        requires
            self.wf(),
            lawful(g, self.default_value()),
            forall|i: int|
                0 <= i < updates.len() ==> self.lower() <= (#[trigger] updates[i]).0 <= updates[i].1
                    <= self.upper(),
            self.lower() <= p <= self.upper(),
        ensures
            self.replayed(g, updates).wf(),
            self.alike(self.replayed(g, updates)),
            self.replayed(g, updates).answer(g, p) == Some(
                folded_over(updates, g, self.table(g)[p], p),
            ),
        decreases updates.len(),
    {
        if updates.len() == 0 {
            self.lemma_table(g, p);
        } else {
            let earlier = updates.drop_last();
            let (start, end, value) = updates.last();
            let before = self.replayed(g, earlier);
            let after = self.replayed(g, updates);
            let last = updates[updates.len() - 1];
            assert(self.lower() <= last.0 <= last.1 <= self.upper());
            assert forall|i: int| 0 <= i < earlier.len() implies self.lower() <= (
            #[trigger] earlier[i]).0 <= earlier[i].1 <= self.upper() by {
                assert(earlier[i] == updates[i]);
            }
            self.law_replayed(g, earlier, p);
            before.law_inserted(g, start, end, value);
            before.lemma_table(g, p);
            after.lemma_table(g, p);
        }
    }

    /// Makes the tree over `[lower_bound, upper_bound]` with nothing inserted.
    pub fn new(lower_bound: i64, upper_bound: i64, default_value: S, combine: F) -> (t: Self)
        requires
            lower_bound <= upper_bound,
            is_total(combine),
            clones_exactly(default_value),
        ensures
            t == Self::fresh(lower_bound as int, upper_bound as int, default_value, combine),
            t.wf(),
            t.lower() == lower_bound,
            t.upper() == upper_bound,
            t.default_value() == default_value,
            t.combiner() == combine,
            t@ == Map::<(int, int), S>::empty().insert(
                (lower_bound as int, upper_bound as int),
                default_value,
            ),
            forall|g: spec_fn(S, S) -> S| #[trigger]
                t.table(g) == Map::new(
                    |p: int| lower_bound <= p <= upper_bound,
                    |p: int| g(default_value, default_value),
                ),
    {
        let ghost lo = lower_bound as int;
        let ghost hi = upper_bound as int;
        proof {
            assert forall|g: spec_fn(S, S) -> S| #[trigger]
                Self::fresh(lo, hi, default_value, combine).table(g) == Map::new(
                    |p: int| lower_bound <= p <= upper_bound,
                    |p: int| g(default_value, default_value),
                ) by {
                Self::law_fresh(lo, hi, default_value, combine, g);
            }
            Self::law_fresh(lo, hi, default_value, combine, |a: S, b: S| a);
        }
        SegmentPointTree {
            lower_bound: lower_bound,
            upper_bound: upper_bound,
            root: Node::new(lower_bound, upper_bound, &default_value),
            default: default_value,
            combine: combine,
        }
    }

    /// The aggregate at `point`, or `None` where `point` lies outside the
    /// domain.
    pub fn query(&self, point: i64) -> (r: Option<S>)
        requires
            self.wf(),
        ensures
            r is Some <==> self.lower() <= point <= self.upper(),
            forall|g: spec_fn(S, S) -> S| #[trigger]
                models(self.combiner(), g) ==> r == self.answer(g, point as int),
    {
        let s = self.default.clone();
        if point > self.upper_bound || point < self.lower_bound {
            None
        } else {
            proof {
                assert forall|g: spec_fn(S, S) -> S| #[trigger]
                    models(self.combiner(), g) implies Some(
                    self.root.walk(g, point as int, self.default),
                ) == self.answer(g, point as int) by {
                    self.lemma_table(g, point as int);
                }
            }
            Some(self.root.query_point(point, &self.combine, s))
        }
    }

    /// The two ends of the domain.
    pub fn bounds(&self) -> (r: (i64, i64))
        ensures
            r.0 == self.lower(),
            r.1 == self.upper(),
    {
        (self.lower_bound, self.upper_bound)
    }

    /// Combines `segment` into every point of `[start, end]`.
    pub fn insert(&mut self, start: i64, end: i64, segment: S)
        requires
            old(self).wf(),
            old(self).lower() <= start <= end <= old(self).upper(),
        ensures
            final(self).wf(),
            old(self).alike(*final(self)),
            forall|g: spec_fn(S, S) -> S| #[trigger]
                models(old(self).combiner(), g) ==> {
                    &&& *final(self) == old(self).inserted(g, start as int, end as int, segment)
                    &&& old(self).inserting(g, start as int, end as int, segment, *final(self))
                },
    {
        proof {
            assert forall|g: spec_fn(S, S) -> S| #[trigger]
                models(old(self).combiner(), g) implies old(self).inserting(
                g,
                start as int,
                end as int,
                segment,
                old(self).inserted(g, start as int, end as int, segment),
            ) by {
                old(self).law_inserted(g, start as int, end as int, segment);
            }
        }
        self.root.insert_range(start, end, &segment, &self.default, &self.combine);
    }
}

} // verus!
