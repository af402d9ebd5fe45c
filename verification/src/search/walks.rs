//! Walks on a grid: what a path of a search is, and what the shortest one is.

use crate::maze::adjacent;
use crate::maze::is_open;
use crate::maze::manhattan;
use crate::tilemap::Coordinates;
use crate::tilemap::Grid;
use vstd::prelude::*;

verus! {

/// A walk on `g`: at least one cell, every cell open, and each cell next to
/// the one before it.
pub open spec fn is_walk(g: Grid, w: Seq<Coordinates>) -> bool {
    &&& w.len() > 0
    &&& forall|i: int| 0 <= i < w.len() ==> is_open(g, #[trigger] w[i])
    &&& forall|i: int| 0 <= i < w.len() - 1 ==> adjacent(#[trigger] w[i], w[i + 1])
}

/// Whether `w` leads from `a` to `b`.
pub open spec fn joins(w: Seq<Coordinates>, a: Coordinates, b: Coordinates) -> bool {
    w.len() > 0 && w[0] == a && w.last() == b
}

/// A route from `start`: a walk that begins at `start` and enters no cell
/// twice.
pub open spec fn is_route(g: Grid, start: Coordinates, p: Seq<Coordinates>) -> bool {
    is_walk(g, p) && p[0] == start && p.no_duplicates()
}

/// Whether `p` is a walk from `a` to `b` and no walk from `a` to `b` has
/// fewer cells.
pub open spec fn is_shortest(g: Grid, a: Coordinates, b: Coordinates, p: Seq<Coordinates>) -> bool {
    &&& is_walk(g, p)
    &&& joins(p, a, b)
    &&& forall|w: Seq<Coordinates>| is_walk(g, w) && joins(w, a, b) ==> p.len() <= #[trigger] w.len()
}

/// Whether `p` is the beginning of `q`.
pub open spec fn begins(p: Seq<Coordinates>, q: Seq<Coordinates>) -> bool {
    p.len() <= q.len() && q.take(p.len() as int) == p
}

/// Two shortest walks between the same cells are equally long.
pub proof fn lemma_shortest_same_length(
    g: Grid,
    a: Coordinates,
    b: Coordinates,
    p: Seq<Coordinates>,
    q: Seq<Coordinates>,
)
    requires
        is_shortest(g, a, b, p),
        is_shortest(g, a, b, q),
    ensures
        p.len() == q.len(),
{
}

/// A walk that comes back to a cell stays a walk when the loop is cut out.
pub proof fn lemma_cut_loop(g: Grid, w: Seq<Coordinates>, lo: int, hi: int)
    requires
        is_walk(g, w),
        0 <= lo < hi < w.len(),
        w[lo] == w[hi],
    ensures
        is_walk(g, w.take(lo) + w.skip(hi)),
        (w.take(lo) + w.skip(hi))[0] == w[0],
        (w.take(lo) + w.skip(hi)).last() == w.last(),
        (w.take(lo) + w.skip(hi)).len() == w.len() - (hi - lo),
{
    let cut = w.take(lo) + w.skip(hi);
    let shift = hi - lo;
    assert forall|k: int| 0 <= k < cut.len() implies #[trigger] cut[k] == if k < lo {
        w[k]
    } else {
        w[k + shift]
    } by {}
    assert forall|k: int| 0 <= k < cut.len() implies is_open(g, #[trigger] cut[k]) by {
        if k < lo {
            assert(is_open(g, w[k]));
        } else {
            assert(is_open(g, w[k + shift]));
        }
    }
    assert forall|k: int| 0 <= k < cut.len() - 1 implies adjacent(
        #[trigger] cut[k],
        cut[k + 1],
    ) by {
        if k + 1 < lo {
            assert(adjacent(w[k], w[k + 1]));
        } else if k + 1 == lo {
            assert(adjacent(w[k], w[k + 1]));
            assert(cut[k + 1] == w[hi]);
        } else {
            assert(adjacent(w[k + shift], w[k + shift + 1]));
        }
    }
}

/// Every walk holds a route between its two ends: cutting out the loops
/// leaves a walk that enters no cell twice and is no longer.
pub proof fn lemma_shortcut(g: Grid, w: Seq<Coordinates>) -> (q: Seq<Coordinates>)
    requires
        is_walk(g, w),
    ensures
        is_route(g, w[0], q),
        q.last() == w.last(),
        q.len() <= w.len(),
    decreases w.len(),
{
    if w.no_duplicates() {
        w
    } else {
        let (i, j) = choose|i: int, j: int|
            0 <= i < w.len() && 0 <= j < w.len() && i != j && w[i] == w[j];
        let lo = if i < j {
            i
        } else {
            j
        };
        let hi = if i < j {
            j
        } else {
            i
        };
        lemma_cut_loop(g, w, lo, hi);
        lemma_shortcut(g, w.take(lo) + w.skip(hi))
    }
}

/// The triangle inequality of the Manhattan distance.
pub proof fn lemma_manhattan_triangle(a: Coordinates, b: Coordinates, c: Coordinates)
    ensures
        manhattan(a, c) <= manhattan(a, b) + manhattan(b, c),
        manhattan(a, a) == 0,
{
}

/// The Manhattan distance never overestimates: a walk between two cells has
/// at least that many steps.
pub proof fn lemma_manhattan_admissible(g: Grid, w: Seq<Coordinates>)
    requires
        is_walk(g, w),
    ensures
        manhattan(w[0], w.last()) <= w.len() - 1,
    decreases w.len(),
{
    if w.len() > 1 {
        let before = w.drop_last();
        assert(is_walk(g, before)) by {
            assert forall|i: int| 0 <= i < before.len() implies is_open(g, #[trigger] before[i]) by {
                assert(before[i] == w[i]);
            }
            assert forall|i: int| 0 <= i < before.len() - 1 implies adjacent(
                #[trigger] before[i],
                before[i + 1],
            ) by {
                assert(before[i] == w[i] && before[i + 1] == w[i + 1]);
                assert(adjacent(w[i], w[i + 1]));
            }
        }
        lemma_manhattan_admissible(g, before);
        assert(adjacent(w[w.len() - 2], w[w.len() - 1]));
        lemma_manhattan_triangle(w[0], w[w.len() - 2], w.last());
    }
}

} // verus!
