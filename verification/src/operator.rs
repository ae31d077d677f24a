//! What the trees ask of a combine operator, and the plain tables and folds
//! that their answers are measured against.

use vstd::prelude::*;

verus! {

/// `f` accepts every pair of aggregates.
pub open spec fn is_total<S, F: Fn(&S, &S) -> S>(f: F) -> bool {
    forall|a: S, b: S| #[trigger] call_requires(f, (&a, &b))
}

/// The function `g` says what the combine operator `f` returns: whatever a
/// call of `f` on `a` and `b` gives is `g(a, b)`.
pub open spec fn models<S, F: Fn(&S, &S) -> S>(f: F, g: spec_fn(S, S) -> S) -> bool {
    forall|a: S, b: S, r: S| #[trigger] call_ensures(f, (&a, &b), r) ==> r == g(a, b)
}

/// A clone of `d` is `d` again.
pub open spec fn clones_exactly<S: Clone>(d: S) -> bool {
    forall|r: S| #[trigger] call_ensures(S::clone, (&d,), r) ==> r == d
}

/// `g` is associative.
#[verifier::opaque]
pub open spec fn associative<S>(g: spec_fn(S, S) -> S) -> bool {
    forall|a: S, b: S, c: S| #[trigger] g(g(a, b), c) == g(a, g(b, c))
}

/// `g` is commutative.
#[verifier::opaque]
pub open spec fn commutative<S>(g: spec_fn(S, S) -> S) -> bool {
    forall|a: S, b: S| #[trigger] g(a, b) == g(b, a)
}

/// `g` is associative and commutative, and combining the default `d` with
/// itself gives `d` again.
pub open spec fn lawful<S>(g: spec_fn(S, S) -> S, d: S) -> bool {
    &&& associative(g)
    &&& commutative(g)
    &&& g(d, d) == d
}

/// Combining the default onto `a` changes nothing.
pub open spec fn settled<S>(g: spec_fn(S, S) -> S, d: S, a: S) -> bool {
    g(a, d) == a
}

/// The table `m` after `v` was combined onto the entry of every point of
/// `[from, to]`.
pub open spec fn range_apply<S>(
    m: Map<int, S>,
    g: spec_fn(S, S) -> S,
    from: int,
    to: int,
    v: S,
) -> Map<int, S> {
    Map::new(
        |p: int| m.dom().contains(p),
        |p: int| if from <= p <= to { g(m[p], v) } else { m[p] },
    )
}

/// The values of those range updates `(start, end, value)` that cover the
/// point `p`, combined onto `acc` from the first to the last.
pub open spec fn folded_over<S>(
    updates: Seq<(int, int, S)>,
    g: spec_fn(S, S) -> S,
    acc: S,
    p: int,
) -> S
    decreases updates.len(),
{
    if updates.len() == 0 {
        acc
    } else {
        let before = folded_over(updates.drop_last(), g, acc, p);
        let (start, end, value) = updates.last();
        if start <= p <= end {
            g(before, value)
        } else {
            before
        }
    }
}

/// The values of those point updates `(point, value)` that lie in
/// `[from, to]`, combined onto `acc` from the first to the last.
pub open spec fn folded_in<S>(
    updates: Seq<(int, S)>,
    g: spec_fn(S, S) -> S,
    acc: S,
    from: int,
    to: int,
) -> S
    decreases updates.len(),
{
    if updates.len() == 0 {
        acc
    } else {
        let before = folded_in(updates.drop_last(), g, acc, from, to);
        let (point, value) = updates.last();
        if from <= point <= to {
            g(before, value)
        } else {
            before
        }
    }
}

/// One instance of associativity.
pub proof fn lemma_assoc<S>(g: spec_fn(S, S) -> S, a: S, b: S, c: S)
    requires
        associative(g),
    ensures
        g(g(a, b), c) == g(a, g(b, c)),
{
    reveal(associative);
}

/// One instance of commutativity.
pub proof fn lemma_comm<S>(g: spec_fn(S, S) -> S, a: S, b: S)
    requires
        commutative(g),
    ensures
        g(a, b) == g(b, a),
{
    reveal(commutative);
}

/// The last two operands of a chain may change places.
pub proof fn lemma_swap_last<S>(g: spec_fn(S, S) -> S, a: S, b: S, c: S)
    requires
        associative(g),
        commutative(g),
    ensures
        g(g(a, b), c) == g(g(a, c), b),
{
    lemma_assoc(g, a, b, c);
    lemma_comm(g, b, c);
    lemma_assoc(g, a, c, b);
}

/// Whatever is combined onto a settled aggregate leaves it settled.
pub proof fn lemma_settled_step<S>(g: spec_fn(S, S) -> S, d: S, a: S, x: S)
    requires
        associative(g),
        commutative(g),
        settled(g, d, a),
    ensures
        settled(g, d, g(a, x)),
{
    lemma_swap_last(g, a, x, d);
}

/// The running total of the entries of `m` at the points of `[from, to]`,
/// from the lowest point up, started from the default `d`.
pub open spec fn total<S>(m: Map<int, S>, g: spec_fn(S, S) -> S, d: S, from: int, to: int) -> S
    decreases to - from + 1,
{
    if to < from {
        d
    } else {
        g(total(m, g, d, from, to - 1), m[to])
    }
}

/// A total depends on the entries of its range alone.
pub proof fn lemma_total_same<S>(
    m1: Map<int, S>,
    m2: Map<int, S>,
    g: spec_fn(S, S) -> S,
    d: S,
    from: int,
    to: int,
)
    requires
        forall|p: int| from <= p <= to ==> m1[p] == m2[p],
    ensures
        total(m1, g, d, from, to) == total(m2, g, d, from, to),
    decreases to - from + 1,
{
    if to >= from {
        lemma_total_same(m1, m2, g, d, from, to - 1);
    }
}

/// Combining the default onto a total changes nothing.
pub proof fn lemma_total_settled<S>(m: Map<int, S>, g: spec_fn(S, S) -> S, d: S, from: int, to: int)
    requires
        lawful(g, d),
    ensures
        settled(g, d, total(m, g, d, from, to)),
    decreases to - from + 1,
{
    if to >= from {
        lemma_total_settled(m, g, d, from, to - 1);
        lemma_settled_step(g, d, total(m, g, d, from, to - 1), m[to]);
    }
}

/// A range that holds the default everywhere totals to the default.
pub proof fn lemma_total_blank<S>(m: Map<int, S>, g: spec_fn(S, S) -> S, d: S, from: int, to: int)
    requires
        g(d, d) == d,
        forall|p: int| from <= p <= to ==> m[p] == d,
    ensures
        total(m, g, d, from, to) == d,
    decreases to - from + 1,
{
    if to >= from {
        lemma_total_blank(m, g, d, from, to - 1);
    }
}

/// The totals of two adjoining ranges combine to the total of the whole.
pub proof fn lemma_total_split<S>(
    m: Map<int, S>,
    g: spec_fn(S, S) -> S,
    d: S,
    from: int,
    cut: int,
    to: int,
)
    requires
        lawful(g, d),
        from <= cut + 1,
        cut <= to,
    ensures
        g(total(m, g, d, from, cut), total(m, g, d, cut + 1, to)) == total(m, g, d, from, to),
    decreases to - cut + 1,
{
    if to == cut {
        lemma_total_settled(m, g, d, from, cut);
    } else {
        lemma_total_split(m, g, d, from, cut, to - 1);
        lemma_assoc(g, total(m, g, d, from, cut), total(m, g, d, cut + 1, to - 1), m[to]);
    }
}

/// Combining `v` onto one entry of a range combines `v` onto its total.
pub proof fn lemma_total_update<S>(
    m: Map<int, S>,
    g: spec_fn(S, S) -> S,
    d: S,
    from: int,
    to: int,
    p: int,
    v: S,
)
    requires
        lawful(g, d),
        from <= p <= to,
    ensures
        total(m.insert(p, g(m[p], v)), g, d, from, to) == g(total(m, g, d, from, to), v),
    decreases to - p + 1,
{
    let m2 = m.insert(p, g(m[p], v));
    if to == p {
        lemma_total_same(m, m2, g, d, from, p - 1);
        lemma_assoc(g, total(m, g, d, from, p - 1), m[p], v);
    } else {
        lemma_total_update(m, g, d, from, to - 1, p, v);
        lemma_swap_last(g, total(m, g, d, from, to - 1), v, m[to]);
    }
}

} // verus!
