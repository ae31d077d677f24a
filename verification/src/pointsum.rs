//! Range addition and point query over `i64` sums.

use crate::sumtree::{Gauge, Tree};
use vstd::prelude::*;

verus! {

/// The table `m` after `v` was added at every point of `[from, to]`.
pub open spec fn range_add(m: Map<int, int>, from: int, to: int, v: int) -> Map<int, int> {
    Map::new(|p: int| m.dom().contains(p), |p: int| if from <= p <= to { m[p] + v } else { m[p] })
}

/// How far a crest or a trough at `p` can move when `v` is added over
/// `[from, to]`: not at all outside the range, and inside it by no more than
/// `v`, towards `v`.
pub open spec fn drifted(before: int, after: int, from: int, to: int, v: int, p: int) -> bool {
    if from <= p <= to {
        before + (if v < 0 { v } else { 0 }) <= after <= before + (if v > 0 { v } else { 0 })
    } else {
        after == before
    }
}

/// A tree over the points of `[lower, upper]` that adds a value to every
/// point of a range and reads the total at one point.
#[derive(PartialEq, Eq, Debug)]
pub struct PointSumTree {
    root: Tree,
    lower_bound: i64,
    upper_bound: i64,
}

impl View for PointSumTree {
    type V = Map<int, int>;

    /// The total at every point of the domain.
    closed spec fn view(&self) -> Map<int, int> {
        Map::new(
            |p: int| self.lower_bound <= p <= self.upper_bound,
            |p: int| self.root.tally(Gauge::Net, p),
        )
    }
}

impl PointSumTree {
    /// The lower end of the domain.
    pub closed spec fn lower(&self) -> int {
        self.lower_bound as int
    }

    /// The upper end of the domain.
    pub closed spec fn upper(&self) -> int {
        self.upper_bound as int
    }

    /// The largest partial sum that a walk down to `p` can reach: the
    /// positive aggregates on the way, added up.
    pub closed spec fn crest(&self, p: int) -> int {
        self.root.tally(Gauge::Rise, p)
    }

    /// The smallest partial sum that a walk down to `p` can reach: the
    /// negative aggregates on the way, added up.
    pub closed spec fn trough(&self, p: int) -> int {
        self.root.tally(Gauge::Fall, p)
    }

    /// The bounds are in order, the nodes tile the domain, and no walk leaves
    /// `i64`.
    pub closed spec fn wf(&self) -> bool {
        &&& self.lower_bound <= self.upper_bound
        &&& self.root.wf(self.lower_bound as int, self.upper_bound as int)
        &&& forall|p: int|
            self.lower_bound <= p <= self.upper_bound ==> #[trigger] self.root.in_reach(p)
    }

    /// Whether `value` can be added over `[start, end]` without leaving `i64`
    /// at any point of it.
    pub open spec fn admits(&self, start: int, end: int, value: int) -> bool {
        forall|p: int|
            #![trigger self.trough(p)]
            #![trigger self.crest(p)]
            start <= p <= end ==> i64::MIN <= self.trough(p) + value && self.crest(p) + value
                <= i64::MAX
    }

    /// The tree over `[lower, upper]` before anything was inserted.
    pub closed spec fn fresh(lower: int, upper: int) -> PointSumTree {
        PointSumTree {
            root: Tree::fresh(lower, upper),
            lower_bound: lower as i64,
            upper_bound: upper as i64,
        }
    }

    /// The tree after `value` was inserted over `[start, end]`.
    pub closed spec fn inserted(&self, start: int, end: int, value: int) -> PointSumTree {
        PointSumTree {
            root: self.root.inserted(self.lower(), self.upper(), start, end, value),
            lower_bound: self.lower_bound,
            upper_bound: self.upper_bound,
        }
    }

    /// What adding `value` over `[start, end]` makes of this tree: `after`
    /// has the same bounds, holds `value` more at every point of
    /// `[start, end]` and what it held at every other point, as a plain table
    /// would, and its crests and troughs have moved by no more than `value`.
    pub open spec fn adding(&self, start: int, end: int, value: int, after: Self) -> bool {
        &&& after.lower() == self.lower()
        &&& after.upper() == self.upper()
        &&& after@ == range_add(self@, start, end, value)
        &&& forall|p: int|
            #![trigger after.crest(p)]
            #![trigger after.trough(p)]
            self.lower() <= p <= self.upper() ==> {
                &&& drifted(self.crest(p), after.crest(p), start, end, value, p)
                &&& drifted(self.trough(p), after.trough(p), start, end, value, p)
            }
    }

    /// What a query at `point` answers.
    pub open spec fn answer(&self, point: int) -> Option<i64> {
        if self.lower() <= point <= self.upper() {
            Some(self@[point] as i64)
        } else {
            None
        }
    }

    /// What the tree admits, its root admits.
    proof fn lemma_root_admits(&self, start: int, end: int, value: int)
        requires
            self.admits(start, end, value),
        ensures
            self.root.admits(start, end, value),
    {
        reveal(Tree::admits);
        assert forall|p: int| start <= p <= end implies i64::MIN <= #[trigger] self.root.tally(
            Gauge::Fall,
            p,
        ) + value && self.root.tally(Gauge::Rise, p) + value <= i64::MAX by {
            assert(i64::MIN <= self.trough(p) + value);
        }
    }

    /// The total at a point lies between its trough and its crest, and both
    /// fit in `i64`.
    pub proof fn lemma_reach(&self, p: int)
        requires
            self.wf(),
            self.lower() <= p <= self.upper(),
        ensures
            self@.dom().contains(p),
            i64::MIN <= self.trough(p) <= self@[p] <= self.crest(p) <= i64::MAX,
            self.trough(p) <= 0 <= self.crest(p),
    {
        self.root.lemma_tally_order(p);
        assert(self.root.in_reach(p));
    }

    /// A fresh tree has the bounds it was made with and holds zero everywhere.
    pub proof fn law_fresh(lower: int, upper: int)
        requires
            i64::MIN <= lower <= upper <= i64::MAX,
        ensures
            Self::fresh(lower, upper).wf(),
            Self::fresh(lower, upper).lower() == lower,
            Self::fresh(lower, upper).upper() == upper,
            Self::fresh(lower, upper)@ == Map::new(|p: int| lower <= p <= upper, |p: int| 0int),
            forall|p: int|
                #![trigger Self::fresh(lower, upper).crest(p)]
                #![trigger Self::fresh(lower, upper).trough(p)]
                Self::fresh(lower, upper).crest(p) == 0 && Self::fresh(lower, upper).trough(p) == 0,
            forall|p: int|
                #![trigger Self::fresh(lower, upper).answer(p)]
                Self::fresh(lower, upper).answer(p) == (if lower <= p <= upper {
                    Some(0i64)
                } else {
                    None
                }),
    {
        let t = Self::fresh(lower, upper);
        assert(t@ =~= Map::new(|p: int| lower <= p <= upper, |p: int| 0int));
        assert forall|p: int| lower <= p <= upper implies #[trigger] t.root.in_reach(p) by {}
    }

    /// Inserting keeps the tree well formed and does to it what
    /// [`Self::adding`] says.
    pub proof fn law_inserted(&self, start: int, end: int, value: int)
        requires
            self.wf(),
            self.lower() <= start <= end <= self.upper(),
            self.admits(start, end, value),
        ensures
            self.inserted(start, end, value).wf(),
            self.adding(start, end, value, self.inserted(start, end, value)),
    {
        let lo = self.lower();
        let hi = self.upper();
        let after = self.inserted(start, end, value);
        self.lemma_root_admits(start, end, value);
        self.root.lemma_inserted_wf(lo, hi, start, end, value);
        assert forall|g: Gauge, p: int| lo <= p <= hi implies Tree::shifted(
            self.root.tally(g, p),
            #[trigger] after.root.tally(g, p),
            start,
            end,
            value,
            g,
            p,
        ) by {
            self.root.lemma_inserted_tally(lo, hi, start, end, value, g, p);
        }
        assert(after@ =~= range_add(self@, start, end, value)) by {
            assert forall|p: int| lo <= p <= hi implies after@[p] == range_add(
                self@,
                start,
                end,
                value,
            )[p] by {
                assert(Tree::shifted(
                    self.root.tally(Gauge::Net, p),
                    after.root.tally(Gauge::Net, p),
                    start,
                    end,
                    value,
                    Gauge::Net,
                    p,
                ));
            }
        }
        assert forall|p: int| lo <= p <= hi implies #[trigger] after.root.in_reach(p) by {
            assert(self.root.in_reach(p));
            assert(Tree::shifted(
                self.root.tally(Gauge::Rise, p),
                after.root.tally(Gauge::Rise, p),
                start,
                end,
                value,
                Gauge::Rise,
                p,
            ));
            assert(Tree::shifted(
                self.root.tally(Gauge::Fall, p),
                after.root.tally(Gauge::Fall, p),
                start,
                end,
                value,
                Gauge::Fall,
                p,
            ));
            if start <= p <= end {
                assert(i64::MIN <= self.trough(p) + value);
            }
        }
    }

    /// Inserting the same value over the same range twice adds it twice to
    /// every point of the range.
    pub proof fn law_inserted_twice(&self, start: int, end: int, value: int, p: int)
        requires
            self.wf(),
            self.lower() <= start <= p <= end <= self.upper(),
            self.admits(start, end, value),
            self.inserted(start, end, value).admits(start, end, value),
        ensures
            self.inserted(start, end, value).inserted(start, end, value)@[p] == self@[p] + value
                + value,
    {
        self.law_inserted(start, end, value);
        self.inserted(start, end, value).law_inserted(start, end, value);
        self.lemma_reach(p);
    }

    /// Two insertions give the same table in either order.
    pub proof fn law_inserted_order(&self, sa: int, ea: int, va: int, sb: int, eb: int, vb: int)
        requires
            self.wf(),
            self.lower() <= sa <= ea <= self.upper(),
            self.lower() <= sb <= eb <= self.upper(),
            self.admits(sa, ea, va),
            self.admits(sb, eb, vb),
            self.inserted(sa, ea, va).admits(sb, eb, vb),
            self.inserted(sb, eb, vb).admits(sa, ea, va),
        ensures
            self.inserted(sa, ea, va).inserted(sb, eb, vb)@ == self.inserted(sb, eb, vb).inserted(
                sa,
                ea,
                va,
            )@,
    {
        self.law_inserted(sa, ea, va);
        self.law_inserted(sb, eb, vb);
        self.inserted(sa, ea, va).law_inserted(sb, eb, vb);
        self.inserted(sb, eb, vb).law_inserted(sa, ea, va);
        let a_then_b = self.inserted(sa, ea, va).inserted(sb, eb, vb);
        let b_then_a = self.inserted(sb, eb, vb).inserted(sa, ea, va);
        assert(a_then_b@ =~= b_then_a@);
    }

    /// Makes the tree over `[lower_bound, upper_bound]`, with zero at every point.
    pub fn new(lower_bound: i64, upper_bound: i64) -> (t: Self)
        requires
            lower_bound <= upper_bound,
        ensures
            t == Self::fresh(lower_bound as int, upper_bound as int),
            t.wf(),
            t.lower() == lower_bound,
            t.upper() == upper_bound,
            t@ == Map::new(|p: int| lower_bound <= p <= upper_bound, |p: int| 0int),
            forall|p: int|
                #![trigger t.crest(p)]
                #![trigger t.trough(p)]
                t.crest(p) == 0 && t.trough(p) == 0,
    {
        proof {
            Self::law_fresh(lower_bound as int, upper_bound as int);
        }
        PointSumTree {
            root: Tree::new(lower_bound, upper_bound),
            lower_bound: lower_bound,
            upper_bound: upper_bound,
        }
    }

    /// Adds `value` to every point of `[start, end]`.
    pub fn insert(&mut self, start: i64, end: i64, value: i64)
        requires
            old(self).wf(),
            old(self).lower() <= start <= end <= old(self).upper(),
            old(self).admits(start as int, end as int, value as int),
        ensures
            *final(self) == old(self).inserted(start as int, end as int, value as int),
            final(self).wf(),
            old(self).adding(start as int, end as int, value as int, *final(self)),
    {
        proof {
            old(self).law_inserted(start as int, end as int, value as int);
            old(self).lemma_root_admits(start as int, end as int, value as int);
        }
        self.root.insert(
            start,
            end,
            value,
            Ghost(self.lower_bound as int),
            Ghost(self.upper_bound as int),
        );
    }

    /// The total at `point`, or `None` where `point` lies outside the domain.
    pub fn query(&self, point: i64) -> (r: Option<i64>)
        requires
            self.wf(),
        ensures
            r == self.answer(point as int),
            r is Some ==> r->0 == self@[point as int],
    {
        if self.lower_bound > point || point > self.upper_bound {
            return None;
        }
        proof {
            assert(self.root.in_reach(point as int));
        }
        Some(
            self.root.query(
                point,
                0,
                Ghost(self.lower_bound as int),
                Ghost(self.upper_bound as int),
            ),
        )
    }

    /// The two ends of the domain.
    pub fn bounds(&self) -> (r: (i64, i64))
        ensures
            r.0 == self.lower(),
            r.1 == self.upper(),
    {
        (self.lower_bound, self.upper_bound)
    }
}

} // verus!
