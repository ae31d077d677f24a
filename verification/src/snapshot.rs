//! Trees as snapshots: maps from the intervals that are there to the
//! aggregates stored for them, with updates and queries stated on the maps.

use crate::common::{floor_mid, is_canonical, is_visited};
use vstd::prelude::*;

verus! {

/// What a snapshot holds for the interval `k`, with the default standing in
/// for an interval that is not there yet.
pub open spec fn held<S>(cells: Map<(int, int), S>, d: S, k: (int, int)) -> S {
    if cells.dom().contains(k) {
        cells[k]
    } else {
        d
    }
}

/// The snapshot after `v` was combined into the canonical decomposition of
/// `[from, to]`: every interval that the update comes by is there, and those
/// of the decomposition have `v` combined onto what they held.
pub open spec fn spread_cells<S>(
    cells: Map<(int, int), S>,
    g: spec_fn(S, S) -> S,
    d: S,
    lo: int,
    hi: int,
    from: int,
    to: int,
    v: S,
) -> Map<(int, int), S> {
    Map::new(
        |k: (int, int)| cells.dom().contains(k) || is_visited(lo, hi, from, to, k.0, k.1),
        |k: (int, int)|
            if is_canonical(lo, hi, from, to, k.0, k.1) {
                g(held(cells, d, k), v)
            } else {
                held(cells, d, k)
            },
    )
}

/// The snapshot after `v` was combined into the point `p`: every interval on
/// the way from the root to `[p, p]` is there and has `v` combined onto what
/// it held.
pub open spec fn raise_cells<S>(
    cells: Map<(int, int), S>,
    g: spec_fn(S, S) -> S,
    d: S,
    lo: int,
    hi: int,
    p: int,
    v: S,
) -> Map<(int, int), S> {
    Map::new(
        |k: (int, int)| cells.dom().contains(k) || is_visited(lo, hi, p, p, k.0, k.1),
        |k: (int, int)|
            if is_visited(lo, hi, p, p, k.0, k.1) {
                g(held(cells, d, k), v)
            } else {
                held(cells, d, k)
            },
    )
}

/// What a walk from `[lo, hi]` down towards `p` accumulates onto `acc`: what
/// every interval on the way holds, in order, until one is not there.
pub open spec fn descend<S>(
    cells: Map<(int, int), S>,
    g: spec_fn(S, S) -> S,
    lo: int,
    hi: int,
    p: int,
    acc: S,
) -> S
    decreases hi - lo,
{
    let m = floor_mid(lo, hi);
    if !cells.dom().contains((lo, hi)) {
        acc
    } else if lo < hi {
        if p <= m {
            descend(cells, g, lo, m, p, g(acc, cells[(lo, hi)]))
        } else {
            descend(cells, g, m + 1, hi, p, g(acc, cells[(lo, hi)]))
        }
    } else {
        g(acc, cells[(lo, hi)])
    }
}

/// What a query over `[from, to]` gathers onto `acc` below `[lo, hi]`: what
/// the intervals of the canonical decomposition hold, each combined in front
/// of what was gathered so far, from the lowest interval up. An interval
/// that is not there, or whose way down is not there, adds nothing.
pub open spec fn gather_cells<S>(
    cells: Map<(int, int), S>,
    g: spec_fn(S, S) -> S,
    lo: int,
    hi: int,
    from: int,
    to: int,
    acc: S,
) -> S
    decreases hi - lo,
{
    let m = floor_mid(lo, hi);
    if !cells.dom().contains((lo, hi)) {
        acc
    } else if from <= lo && hi <= to {
        g(cells[(lo, hi)], acc)
    } else if lo < hi {
        let acc_l = if from <= m {
            gather_cells(cells, g, lo, m, from, to, acc)
        } else {
            acc
        };
        if to > m {
            gather_cells(cells, g, m + 1, hi, from, to, acc_l)
        } else {
            acc_l
        }
    } else {
        acc
    }
}

/// The table of a range-update tree: at every point of `[lo, hi]`, what a
/// walk down to it accumulates onto the default.
pub open spec fn walked<S>(
    cells: Map<(int, int), S>,
    g: spec_fn(S, S) -> S,
    d: S,
    lo: int,
    hi: int,
) -> Map<int, S> {
    Map::new(|p: int| lo <= p <= hi, |p: int| descend(cells, g, lo, hi, p, d))
}

/// The table of a point-update tree: at every point of `[lo, hi]`, what the
/// snapshot holds for the point itself.
pub open spec fn points<S>(cells: Map<(int, int), S>, d: S, lo: int, hi: int) -> Map<int, S> {
    Map::new(|p: int| lo <= p <= hi, |p: int| held(cells, d, (p, p)))
}

} // verus!
