//! Runs of a search: the frontiers that follow one another as paths are
//! expanded, whatever rule selects them, and what holds of every run.

use crate::maze::is_open;
use crate::maze::lemma_open_neighbours;
use crate::maze::open_neighbours;
use crate::search::expand;
use crate::search::path::extensions;
use crate::search::path::fresh_cells;
use crate::search::path::lemma_extensions_simple;
use crate::search::path::lemma_fresh_cells;
use crate::search::walks::begins;
use crate::search::walks::is_route;
use crate::search::walks::is_shortest;
use crate::search::walks::is_walk;
use crate::search::walks::joins;
use crate::search::walks::lemma_shortcut;
use crate::search::Frontier;
use crate::tilemap::Coordinates;
use crate::tilemap::Grid;
use vstd::prelude::*;

verus! {

/// One step on the grid `g` from the frontier `before`, where the path at
/// index `i` is selected: an empty frontier stays as it is, any other is
/// expanded at `i`.
pub open spec fn step_of(g: Grid, before: Frontier, i: int, after: Frontier) -> bool {
    if before.len() == 0 {
        after == before
    } else {
        0 <= i < before.len() && after == expand(g, before, i)
    }
}

/// A run on `g` from `start`: the frontiers of a search one after the
/// other, `picks[k]` being the index selected in `frontiers[k]`. The first
/// frontier is the one path that holds `start` only.
pub open spec fn is_run(g: Grid, start: Coordinates, frontiers: Seq<Frontier>, picks: Seq<int>) -> bool {
    &&& frontiers.len() > 0
    &&& picks.len() == frontiers.len()
    &&& frontiers[0] == seq![seq![start]]
    &&& forall|k: int|
        0 <= k < frontiers.len() - 1 ==> step_of(
            g,
            #[trigger] frontiers[k],
            picks[k],
            frontiers[k + 1],
        )
}

/// Whether the step from `frontiers[k]` expands the path `q`.
pub open spec fn expands_at(frontiers: Seq<Frontier>, picks: Seq<int>, k: int, q: Seq<Coordinates>) -> bool {
    &&& 0 <= k < frontiers.len()
    &&& 0 <= picks[k] < frontiers[k].len()
    &&& frontiers[k][picks[k]] == q
}

/// Every path of `frontier` is a route from `start`.
pub open spec fn all_routes(g: Grid, start: Coordinates, frontier: Frontier) -> bool {
    forall|i: int| 0 <= i < frontier.len() ==> is_route(g, start, #[trigger] frontier[i])
}

/// Whether `frontier` holds a beginning of `q`.
pub open spec fn holds_beginning(frontier: Frontier, q: Seq<Coordinates>) -> bool {
    exists|i: int| 0 <= i < frontier.len() && begins(#[trigger] frontier[i], q)
}

/// Whether a step before the one from `frontiers[k]` expanded `q`.
pub open spec fn expanded_before(
    frontiers: Seq<Frontier>,
    picks: Seq<int>,
    k: int,
    q: Seq<Coordinates>,
) -> bool {
    exists|j: int| 0 <= j < k && #[trigger] expands_at(frontiers, picks, j, q)
}

/// The children of a route from `start` are routes from `start`.
pub proof fn lemma_children_are_routes(g: Grid, start: Coordinates, p: Seq<Coordinates>, i: int)
    requires
        is_route(g, start, p),
        0 <= i < extensions(g, p).len(),
    ensures
        is_route(g, start, extensions(g, p)[i]),
{
    let child = extensions(g, p)[i];
    lemma_extensions_simple(g, p, i);
    lemma_open_neighbours(g, p.last(), child.last());
    assert(child.drop_last() == p);
    assert forall|k: int| 0 <= k < child.len() implies is_open(g, #[trigger] child[k]) by {
        if k < p.len() {
            assert(child[k] == child.drop_last()[k]);
        }
    }
    assert forall|k: int| 0 <= k < child.len() - 1 implies crate::maze::adjacent(
        #[trigger] child[k],
        child[k + 1],
    ) by {
        assert(child[k] == child.drop_last()[k]);
        if k + 1 < p.len() {
            assert(child[k + 1] == child.drop_last()[k + 1]);
            assert(crate::maze::adjacent(p[k], p[k + 1]));
        }
    }
    assert(child[0] == child.drop_last()[0]);
}

/// A route that goes on beyond its beginning `p` goes on with a child of
/// `p`: the child that adds the route's next cell.
pub proof fn lemma_child_on_route(g: Grid, start: Coordinates, p: Seq<Coordinates>, q: Seq<Coordinates>) -> (i: int)
    requires
        p.len() > 0,
        is_route(g, start, q),
        begins(p, q),
        p.len() < q.len(),
    ensures
        0 <= i < extensions(g, p).len(),
        begins(extensions(g, p)[i], q),
{
    let n = p.len() as int;
    let c = q[n];
    assert(p.last() == q.take(n)[n - 1]);
    assert(crate::maze::adjacent(q[n - 1], q[n]));
    lemma_open_neighbours(g, p.last(), c);
    let around = open_neighbours(g, p.last());
    assert(around.contains(c));
    assert(!p.contains(c)) by {
        if p.contains(c) {
            let t = choose|t: int| 0 <= t < p.len() && p[t] == c;
            assert(q.take(n)[t] == q[t]);
        }
    }
    lemma_fresh_cells(p, around);
    let fresh = fresh_cells(p, around);
    assert(fresh.contains(c));
    let i = choose|i: int| 0 <= i < fresh.len() && fresh[i] == c;
    assert(extensions(g, p)[i] == p.push(c));
    assert(q.take(n + 1) =~= p.push(c)) by {
        assert forall|k: int| 0 <= k < n implies q.take(n + 1)[k] == p[k] by {
            assert(q.take(n)[k] == q[k]);
        }
    }
    i
}

/// Expanding a frontier of routes gives a frontier of routes.
pub proof fn lemma_expand_routes(g: Grid, start: Coordinates, frontier: Frontier, i: int)
    requires
        all_routes(g, start, frontier),
        0 <= i < frontier.len(),
    ensures
        all_routes(g, start, expand(g, frontier, i)),
{
    let rest = frontier.remove(i);
    let born = extensions(g, frontier[i]);
    let after = expand(g, frontier, i);
    assert forall|k: int| 0 <= k < after.len() implies is_route(g, start, #[trigger] after[k]) by {
        if k < rest.len() {
            if k < i {
                assert(after[k] == frontier[k]);
            } else {
                assert(after[k] == frontier[k + 1]);
            }
        } else {
            assert(after[k] == born[k - rest.len()]);
            lemma_children_are_routes(g, start, frontier[i], k - rest.len());
        }
    }
}

/// In a run from an open cell every frontier holds routes only.
pub proof fn lemma_run_routes(
    g: Grid,
    start: Coordinates,
    frontiers: Seq<Frontier>,
    picks: Seq<int>,
    k: int,
)
    requires
        is_run(g, start, frontiers, picks),
        is_open(g, start),
        0 <= k < frontiers.len(),
    ensures
        all_routes(g, start, frontiers[k]),
    decreases k,
{
    if k == 0 {
        assert(is_route(g, start, seq![start]));
    } else {
        lemma_run_routes(g, start, frontiers, picks, k - 1);
        assert(step_of(g, frontiers[k - 1], picks[k - 1], frontiers[k]));
        if frontiers[k - 1].len() > 0 {
            lemma_expand_routes(g, start, frontiers[k - 1], picks[k - 1]);
        }
    }
}

/// Expanding a frontier that holds a beginning of the route `q` either
/// expands `q` itself or leaves a frontier that holds a beginning of `q`.
pub proof fn lemma_expand_covers(
    g: Grid,
    start: Coordinates,
    before: Frontier,
    pick: int,
    q: Seq<Coordinates>,
)
    requires
        is_route(g, start, q),
        0 <= pick < before.len(),
        before[pick].len() > 0,
        holds_beginning(before, q),
    ensures
        before[pick] == q || holds_beginning(expand(g, before, pick), q),
{
    let after = expand(g, before, pick);
    let rest = before.remove(pick);
    let i = choose|i: int| 0 <= i < before.len() && begins(#[trigger] before[i], q);
    if i < pick {
        assert(after[i] == before[i]);
        assert(begins(after[i], q));
    } else if i > pick {
        assert(after[i - 1] == before[i]);
        assert(begins(after[i - 1], q));
    } else if before[i].len() == q.len() {
        assert(q.take(q.len() as int) =~= q);
    } else {
        let c = lemma_child_on_route(g, start, before[i], q);
        assert(after[rest.len() + c] == extensions(g, before[i])[c]);
        assert(begins(after[rest.len() + c], q));
    }
}

/// In a run, each route from the start was expanded at an earlier step or
/// has a beginning in the frontier.
pub proof fn lemma_run_covers(
    g: Grid,
    start: Coordinates,
    frontiers: Seq<Frontier>,
    picks: Seq<int>,
    k: int,
    q: Seq<Coordinates>,
)
    requires
        is_run(g, start, frontiers, picks),
        is_route(g, start, q),
        0 <= k < frontiers.len(),
    ensures
        expanded_before(frontiers, picks, k, q) || holds_beginning(frontiers[k], q),
    decreases k,
{
    if k == 0 {
        assert(q.take(1) =~= seq![start]);
        assert(begins(frontiers[0][0], q));
    } else {
        lemma_run_covers(g, start, frontiers, picks, k - 1, q);
        let before = frontiers[k - 1];
        assert(step_of(g, before, picks[k - 1], frontiers[k]));
        if expanded_before(frontiers, picks, k - 1, q) {
            let j = choose|j: int| 0 <= j < k - 1 && #[trigger] expands_at(frontiers, picks, j, q);
            assert(expands_at(frontiers, picks, j, q));
        } else {
            assert(before.len() > 0);
            lemma_run_no_empty_path(g, start, frontiers, picks, k - 1);
            lemma_expand_covers(g, start, before, picks[k - 1], q);
            if before[picks[k - 1]] == q {
                assert(expands_at(frontiers, picks, k - 1, q));
            }
        }
    }
}

/// Whether `frontier` holds no empty path.
pub open spec fn no_empty_path(frontier: Frontier) -> bool {
    forall|i: int| 0 <= i < frontier.len() ==> (#[trigger] frontier[i]).len() > 0
}

/// Expanding a frontier without an empty path leaves none in it.
pub proof fn lemma_expand_no_empty_path(g: Grid, before: Frontier, pick: int)
    requires
        no_empty_path(before),
        0 <= pick < before.len(),
    ensures
        no_empty_path(expand(g, before, pick)),
{
    let after = expand(g, before, pick);
    let rest = before.remove(pick);
    let born = extensions(g, before[pick]);
    assert forall|i: int| 0 <= i < after.len() implies (#[trigger] after[i]).len() > 0 by {
        if i < rest.len() {
            if i < pick {
                assert(after[i] == before[i]);
            } else {
                assert(after[i] == before[i + 1]);
            }
        } else {
            assert(after[i] == born[i - rest.len()]);
            lemma_extensions_simple(g, before[pick], i - rest.len());
        }
    }
}

/// No frontier of a run holds the empty path.
pub proof fn lemma_run_no_empty_path(
    g: Grid,
    start: Coordinates,
    frontiers: Seq<Frontier>,
    picks: Seq<int>,
    k: int,
)
    requires
        is_run(g, start, frontiers, picks),
        0 <= k < frontiers.len(),
    ensures
        no_empty_path(frontiers[k]),
    decreases k,
{
    if k > 0 {
        lemma_run_no_empty_path(g, start, frontiers, picks, k - 1);
        assert(step_of(g, frontiers[k - 1], picks[k - 1], frontiers[k]));
        if frontiers[k - 1].len() > 0 {
            lemma_expand_no_empty_path(g, frontiers[k - 1], picks[k - 1]);
        }
    }
}

/// Whether no step before the one from `frontiers[n]` expanded a path that
/// ends at `end`.
pub open spec fn none_ended_before(
    frontiers: Seq<Frontier>,
    picks: Seq<int>,
    n: int,
    end: Coordinates,
) -> bool {
    forall|j: int, q: Seq<Coordinates>|
        0 <= j < n && #[trigger] expands_at(frontiers, picks, j, q) ==> q.last() != end
}

/// The rule behind every search that finds a shortest path. Give each path
/// of the frontier a score that is at most the number of steps of any route
/// to the end that the path begins. Where the path selected has the least
/// score, ends at the end and has no more steps than its score, and no path
/// expanded before ended there, it is a shortest walk from the start to the
/// end.
pub proof fn lemma_least_score_is_shortest(
    g: Grid,
    start: Coordinates,
    end: Coordinates,
    frontiers: Seq<Frontier>,
    picks: Seq<int>,
    n: int,
    scores: Seq<int>,
)
    requires
        is_run(g, start, frontiers, picks),
        is_open(g, start),
        0 <= n < frontiers.len(),
        0 <= picks[n] < frontiers[n].len(),
        frontiers[n][picks[n]].last() == end,
        none_ended_before(frontiers, picks, n, end),
        scores.len() == frontiers[n].len(),
        forall|i: int| 0 <= i < scores.len() ==> scores[picks[n]] <= #[trigger] scores[i],
        frontiers[n][picks[n]].len() - 1 <= scores[picks[n]],
        forall|i: int, q: Seq<Coordinates>|
            0 <= i < scores.len() && is_route(g, start, q) && q.last() == end && #[trigger] begins(
                frontiers[n][i],
                q,
            ) ==> scores[i] <= q.len() - 1,
    ensures
        is_shortest(g, start, end, frontiers[n][picks[n]]),
{
    let p = frontiers[n][picks[n]];
    lemma_run_routes(g, start, frontiers, picks, n);
    assert(is_route(g, start, p));
    assert forall|w: Seq<Coordinates>| is_walk(g, w) && joins(w, start, end) implies p.len()
        <= #[trigger] w.len() by {
        let q = lemma_shortcut(g, w);
        lemma_run_covers(g, start, frontiers, picks, n, q);
        if expanded_before(frontiers, picks, n, q) {
            let j = choose|j: int| 0 <= j < n && #[trigger] expands_at(frontiers, picks, j, q);
            assert(q.last() != end);
        } else {
            let i = choose|i: int|
                0 <= i < frontiers[n].len() && begins(#[trigger] frontiers[n][i], q);
            assert(begins(frontiers[n][i], q));
            assert(scores[picks[n]] <= scores[i]);
        }
    }
}

/// Whether the paths of `frontier` stand in the order of their lengths,
/// the last being at most one cell longer than the first.
pub open spec fn in_length_order(frontier: Frontier) -> bool {
    forall|i: int, j: int|
        0 <= i <= j < frontier.len() ==> (#[trigger] frontier[i]).len() <= (
        #[trigger] frontier[j]).len() <= frontier[0].len() + 1
}

/// Whether every step before the one from `frontiers[n]` selected the first
/// path of its frontier, as a queue does.
pub open spec fn picks_first(picks: Seq<int>, n: int) -> bool {
    forall|k: int| 0 <= k < n ==> #[trigger] picks[k] == 0
}

/// A queue holds its paths in the order of their lengths.
pub proof fn lemma_queue_in_length_order(
    g: Grid,
    start: Coordinates,
    frontiers: Seq<Frontier>,
    picks: Seq<int>,
    k: int,
)
    requires
        is_run(g, start, frontiers, picks),
        0 <= k < frontiers.len(),
        picks_first(picks, k),
    ensures
        in_length_order(frontiers[k]),
    decreases k,
{
    if k > 0 {
        lemma_queue_in_length_order(g, start, frontiers, picks, k - 1);
        let before = frontiers[k - 1];
        let after = frontiers[k];
        assert(picks[k - 1] == 0);
        assert(step_of(g, before, 0, after));
        if before.len() > 0 {
            lemma_run_no_empty_path(g, start, frontiers, picks, k - 1);
            let rest = before.remove(0);
            let born = extensions(g, before[0]);
            assert forall|i: int| 0 <= i < after.len() implies before[0].len() <= (
            #[trigger] after[i]).len() <= before[0].len() + 1 && (i >= rest.len() ==> after[i].len()
                == before[0].len() + 1) by {
                if i < rest.len() {
                    assert(after[i] == before[i + 1]);
                } else {
                    assert(after[i] == born[i - rest.len()]);
                    lemma_extensions_simple(g, before[0], i - rest.len());
                }
            }
            assert forall|i: int, j: int| 0 <= i <= j < after.len() implies (
            #[trigger] after[i]).len() <= (#[trigger] after[j]).len() <= after[0].len() + 1 by {
                if j < rest.len() {
                    assert(after[i] == before[i + 1]);
                    assert(after[j] == before[j + 1]);
                }
            }
        }
    }
}

/// Breadth-first search finds a shortest path: where a queue expands a path
/// that ends at `end`, and expanded none that ended there before, that path
/// is a shortest walk from the start to `end`.
pub proof fn lemma_queue_finds_shortest(
    g: Grid,
    start: Coordinates,
    end: Coordinates,
    frontiers: Seq<Frontier>,
    picks: Seq<int>,
    n: int,
)
    requires
        is_run(g, start, frontiers, picks),
        is_open(g, start),
        0 <= n < frontiers.len(),
        picks_first(picks, n + 1),
        frontiers[n].len() > 0,
        frontiers[n][0].last() == end,
        none_ended_before(frontiers, picks, n, end),
    ensures
        is_shortest(g, start, end, frontiers[n][0]),
{
    let frontier = frontiers[n];
    let scores = Seq::new(frontier.len(), |i: int| frontier[i].len() - 1);
    assert(picks[n] == 0);
    assert(picks_first(picks, n));
    lemma_queue_in_length_order(g, start, frontiers, picks, n);
    assert forall|i: int| 0 <= i < scores.len() implies scores[0] <= #[trigger] scores[i] by {
        assert(frontier[0].len() <= frontier[i].len());
    }
    lemma_least_score_is_shortest(g, start, end, frontiers, picks, n, scores);
}

/// The part of a walk from one of its cells on is a walk.
pub proof fn lemma_walk_from(g: Grid, w: Seq<Coordinates>, i: int)
    requires
        is_walk(g, w),
        0 <= i < w.len(),
    ensures
        is_walk(g, w.skip(i)),
        w.skip(i)[0] == w[i],
        w.skip(i).last() == w.last(),
{
    let tail = w.skip(i);
    assert forall|k: int| 0 <= k < tail.len() - 1 implies crate::maze::adjacent(
        #[trigger] tail[k],
        tail[k + 1],
    ) by {
        assert(crate::maze::adjacent(w[k + i], w[k + i + 1]));
    }
}

/// Whether `estimates` holds for each path of `frontier` a number that is
/// not negative and at most the number of steps of any walk from the path's
/// tail to `end`.
pub open spec fn never_overestimates(
    g: Grid,
    end: Coordinates,
    frontier: Frontier,
    estimates: Seq<int>,
) -> bool {
    &&& estimates.len() == frontier.len()
    &&& forall|i: int| 0 <= i < frontier.len() ==> 0 <= #[trigger] estimates[i]
    &&& forall|i: int, w: Seq<Coordinates>|
        0 <= i < frontier.len() && is_walk(g, w) && #[trigger] joins(w, frontier[i].last(), end)
            ==> estimates[i] <= w.len() - 1
}

/// Whether the path at `pick` has the least sum of steps and estimate.
pub open spec fn has_least_sum(frontier: Frontier, estimates: Seq<int>, pick: int) -> bool {
    forall|i: int|
        0 <= i < frontier.len() ==> frontier[pick].len() - 1 + estimates[pick] <= (
        #[trigger] frontier[i]).len() - 1 + estimates[i]
}

/// A* finds a shortest path: where the path with the least sum of steps and
/// estimate ends at `end`, no estimate of the frontier overestimates, and
/// no path expanded before ended at `end`, the path is a shortest walk from
/// the start to `end`.
pub proof fn lemma_least_sum_finds_shortest(
    g: Grid,
    start: Coordinates,
    end: Coordinates,
    frontiers: Seq<Frontier>,
    picks: Seq<int>,
    n: int,
    estimates: Seq<int>,
)
    requires
        is_run(g, start, frontiers, picks),
        is_open(g, start),
        0 <= n < frontiers.len(),
        0 <= picks[n] < frontiers[n].len(),
        frontiers[n][picks[n]].last() == end,
        none_ended_before(frontiers, picks, n, end),
        never_overestimates(g, end, frontiers[n], estimates),
        has_least_sum(frontiers[n], estimates, picks[n]),
    ensures
        is_shortest(g, start, end, frontiers[n][picks[n]]),
{
    let frontier = frontiers[n];
    let scores = Seq::new(frontier.len(), |i: int| frontier[i].len() - 1 + estimates[i]);
    assert forall|i: int, q: Seq<Coordinates>|
        0 <= i < scores.len() && is_route(g, start, q) && q.last() == end && #[trigger] begins(
            frontier[i],
            q,
        ) implies scores[i] <= q.len() - 1 by {
        lemma_run_no_empty_path(g, start, frontiers, picks, n);
        let at = frontier[i].len() - 1;
        lemma_walk_from(g, q, at);
        assert(q.take(frontier[i].len() as int)[at] == q[at]);
        assert(joins(q.skip(at), frontier[i].last(), end));
    }
    assert forall|i: int| 0 <= i < scores.len() implies scores[picks[n]] <= #[trigger] scores[i] by {
        assert(frontier[picks[n]].len() - 1 + estimates[picks[n]] <= frontier[i].len() - 1
            + estimates[i]);
    }
    lemma_least_score_is_shortest(g, start, end, frontiers, picks, n, scores);
}

} // verus!
