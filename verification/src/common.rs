//! The floor cut of an interval, and the canonical decomposition of a range
//! into intervals of the tree over a domain.

use vstd::prelude::*;

verus! {

/// Where the floor policy cuts the interval `[start, end]`: the lower half is
/// `[start, m]` and the upper half `[m + 1, end]`.
pub open spec fn floor_mid(start: int, end: int) -> int {
    start + (end - start) / 2
}

/// Whether an update over `[from, to]` comes by the interval `[a, b]` in the
/// tree over `[lo, hi]`: the root is always come by, and a half of an
/// interval that does not lie within `[from, to]` is come by where it shares
/// a point with `[from, to]`.
pub open spec fn is_visited(lo: int, hi: int, from: int, to: int, a: int, b: int) -> bool
    decreases hi - lo,
{
    let m = floor_mid(lo, hi);
    ||| a == lo && b == hi
    ||| {
        &&& lo < hi
        &&& !(from <= lo && hi <= to)
        &&& {
            ||| from <= m && is_visited(lo, m, from, to, a, b)
            ||| to > m && is_visited(m + 1, hi, from, to, a, b)
        }
    }
}

/// Whether `[a, b]` belongs to the canonical decomposition of `[from, to]`
/// in the tree over `[lo, hi]`: the intervals of the tree that lie within
/// `[from, to]` while the interval above them does not. They tile the part
/// of `[from, to]` that lies in `[lo, hi]`.
pub open spec fn is_canonical(lo: int, hi: int, from: int, to: int, a: int, b: int) -> bool
    decreases hi - lo,
{
    let m = floor_mid(lo, hi);
    if from <= lo && hi <= to {
        a == lo && b == hi
    } else {
        &&& lo < hi
        &&& {
            ||| from <= m && is_canonical(lo, m, from, to, a, b)
            ||| to > m && is_canonical(m + 1, hi, from, to, a, b)
        }
    }
}

/// An interval that is come by lies in `[lo, hi]`.
pub proof fn lemma_visited_within(lo: int, hi: int, from: int, to: int, a: int, b: int)
    requires
        lo <= hi,
        is_visited(lo, hi, from, to, a, b),
    ensures
        lo <= a <= b <= hi,
    decreases hi - lo,
{
    let m = floor_mid(lo, hi);
    if !(a == lo && b == hi) {
        if from <= m && is_visited(lo, m, from, to, a, b) {
            lemma_visited_within(lo, m, from, to, a, b);
        } else {
            lemma_visited_within(m + 1, hi, from, to, a, b);
        }
    }
}

/// An interval of the canonical decomposition is come by and lies within
/// `[from, to]`.
pub proof fn lemma_canonical_visited(lo: int, hi: int, from: int, to: int, a: int, b: int)
    requires
        lo <= hi,
        is_canonical(lo, hi, from, to, a, b),
    ensures
        is_visited(lo, hi, from, to, a, b),
        from <= a <= b <= to,
    decreases hi - lo,
{
    let m = floor_mid(lo, hi);
    if !(from <= lo && hi <= to) {
        if from <= m && is_canonical(lo, m, from, to, a, b) {
            lemma_canonical_visited(lo, m, from, to, a, b);
        } else {
            lemma_canonical_visited(m + 1, hi, from, to, a, b);
        }
    }
}

/// Every point of `[from, to]` in `[lo, hi]` lies in exactly one interval of
/// the canonical decomposition.
pub proof fn law_canonical_tiles(lo: int, hi: int, from: int, to: int, p: int)
    requires
        lo <= p <= hi,
        from <= p <= to,
    ensures
        exists|a: int, b: int| a <= p <= b && #[trigger] is_canonical(lo, hi, from, to, a, b),
        forall|a: int, b: int, c: int, e: int|
            a <= p <= b && c <= p <= e && #[trigger] is_canonical(lo, hi, from, to, a, b)
                && #[trigger] is_canonical(lo, hi, from, to, c, e) ==> a == c && b == e,
    decreases hi - lo,
{
    let m = floor_mid(lo, hi);
    if from <= lo && hi <= to {
        assert(is_canonical(lo, hi, from, to, lo, hi));
    } else {
        if p <= m {
            law_canonical_tiles(lo, m, from, to, p);
            let (a, b) = choose|a: int, b: int|
                a <= p <= b && #[trigger] is_canonical(lo, m, from, to, a, b);
            assert(is_canonical(lo, hi, from, to, a, b));
        } else {
            law_canonical_tiles(m + 1, hi, from, to, p);
            let (a, b) = choose|a: int, b: int|
                a <= p <= b && #[trigger] is_canonical(m + 1, hi, from, to, a, b);
            assert(is_canonical(lo, hi, from, to, a, b));
        }
        assert forall|a: int, b: int, c: int, e: int|
            a <= p <= b && c <= p <= e && #[trigger] is_canonical(lo, hi, from, to, a, b)
                && #[trigger] is_canonical(lo, hi, from, to, c, e) implies a == c && b == e by {
            if from <= m && is_canonical(lo, m, from, to, a, b) {
                lemma_canonical_visited(lo, m, from, to, a, b);
                lemma_visited_within(lo, m, from, to, a, b);
            }
            if to > m && is_canonical(m + 1, hi, from, to, a, b) {
                lemma_canonical_visited(m + 1, hi, from, to, a, b);
                lemma_visited_within(m + 1, hi, from, to, a, b);
            }
            if from <= m && is_canonical(lo, m, from, to, c, e) {
                lemma_canonical_visited(lo, m, from, to, c, e);
                lemma_visited_within(lo, m, from, to, c, e);
            }
            if to > m && is_canonical(m + 1, hi, from, to, c, e) {
                lemma_canonical_visited(m + 1, hi, from, to, c, e);
                lemma_visited_within(m + 1, hi, from, to, c, e);
            }
        }
    }
}

/// The unit step between neighbouring indices, taken from `num`.
///
/// Trusted: `num::traits::One::one` at `i64` is the literal `1`.
#[verifier::external_body]
pub(crate) fn one() -> (r: i64)
    ensures
        r == 1,
{
    num::traits::One::one()
}

/// The floor midpoint of `[start, end]`, computed without overflow for every
/// pair of bounds.
pub fn mid(start: i64, end: i64) -> (m: i64)
    requires
        start <= end,
    ensures
        m == floor_mid(start as int, end as int),
        start <= m <= end,
        start < end ==> m < end,
{
    let two: i64 = one() + one();
    let width: i128 = end as i128 - start as i128;
    let half: i128 = width / (two as i128);
    (start as i128 + half) as i64
}

} // verus!
