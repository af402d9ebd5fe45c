//! What holds of every search, stated over the states that a searcher
//! goes through.

use crate::maze::manhattan;
use crate::maze::MazeNode;
use crate::search::a_star::entry_nodes;
use crate::search::a_star::entry_scores;
use crate::search::a_star::lemma_first_least_exists;
use crate::search::a_star::AStarSearcher;
use crate::search::a_star::Cost;
use crate::search::a_star::HeuristicFn;
use crate::search::bfs::BreadthFirstSearcher;
use crate::search::exhaustion::lemma_run_ends;
use crate::search::exhaustion::search_length;
use crate::search::path::Path;
use crate::search::path_in;
use crate::search::runs::expands_at;
use crate::search::runs::has_least_sum;
use crate::search::runs::is_run;
use crate::search::runs::lemma_least_sum_finds_shortest;
use crate::search::runs::lemma_queue_finds_shortest;
use crate::search::runs::never_overestimates;
use crate::search::runs::none_ended_before;
use crate::search::runs::picks_first;
use crate::search::runs::step_of;
use crate::search::walks::is_shortest;
use crate::search::walks::is_walk;
use crate::search::walks::joins;
use crate::search::walks::lemma_manhattan_admissible;
use crate::search::walks::lemma_shortest_same_length;
use crate::search::Frontier;
use crate::search::Searcher;
use crate::tilemap::Coordinates;
use vstd::prelude::*;

verus! {

/// Whether `after` is a state that a step of the searcher may lead to from
/// the state `before`.
pub open spec fn follows<S: Searcher>(before: S, after: S) -> bool {
    &&& after.wf()
    &&& after.maze() == before.maze()
    &&& step_of(before.maze().grid(), before.frontier(), before.selected(), after.frontier())
}

/// A search: the states of a searcher from the one that it is made in, each
/// following from the one before it by one step.
pub open spec fn is_search<S: Searcher>(states: Seq<S>) -> bool {
    &&& states.len() > 0
    &&& states[0].wf()
    &&& states[0].frontier() == seq![seq![states[0].maze().start()]]
    &&& forall|k: int| 0 <= k < states.len() - 1 ==> follows(#[trigger] states[k], states[k + 1])
}

/// The frontier of each state.
pub open spec fn frontiers_of<S: Searcher>(states: Seq<S>) -> Seq<Frontier> {
    states.map_values(|s: S| s.frontier())
}

/// The index that each state selects.
pub open spec fn picks_of<S: Searcher>(states: Seq<S>) -> Seq<int> {
    states.map_values(|s: S| s.selected())
}

/// Whether the step from `states[n]` is the first that returns the end
/// node: the path selected in `states[n]` ends at the end of the maze, and
/// the path selected in no state before did.
pub open spec fn first_reaches_end<S: Searcher>(states: Seq<S>, n: int) -> bool {
    &&& 0 <= n < states.len()
    &&& states[n].frontier().len() > 0
    &&& 0 <= states[n].selected() < states[n].frontier().len()
    &&& states[n].frontier()[states[n].selected()].last() == states[0].maze().end()
    &&& forall|j: int|
        0 <= j < n && 0 <= (#[trigger] states[j]).selected() < states[j].frontier().len()
            ==> states[j].frontier()[states[j].selected()].last() != states[0].maze().end()
}

/// The states of a search are on one maze, and their frontiers are a run on
/// its grid from its start.
pub proof fn lemma_search_is_run<S: Searcher>(states: Seq<S>, k: int)
    requires
        is_search(states),
        0 <= k < states.len(),
    ensures
        states[k].maze() == states[0].maze(),
        states[k].wf(),
        is_run(
            states[0].maze().grid(),
            states[0].maze().start(),
            frontiers_of(states),
            picks_of(states),
        ),
    decreases k,
{
    if k > 0 {
        lemma_search_is_run(states, k - 1);
        assert(follows(states[k - 1], states[k]));
    }
    let g = states[0].maze().grid();
    let frontiers = frontiers_of(states);
    let picks = picks_of(states);
    assert forall|j: int| 0 <= j < frontiers.len() - 1 implies step_of(
        g,
        #[trigger] frontiers[j],
        picks[j],
        frontiers[j + 1],
    ) by {
        lemma_search_on_one_maze(states, j);
        assert(follows(states[j], states[j + 1]));
    }
}

/// Every state of a search is on the maze of the first.
pub proof fn lemma_search_on_one_maze<S: Searcher>(states: Seq<S>, k: int)
    requires
        is_search(states),
        0 <= k < states.len(),
    ensures
        states[k].maze() == states[0].maze(),
        states[k].wf(),
    decreases k,
{
    if k > 0 {
        lemma_search_on_one_maze(states, k - 1);
        assert(follows(states[k - 1], states[k]));
    }
}

/// Every search ends, depth-first search among them: whatever the strategy,
/// the frontier is empty, and a step returns `None`, after as many steps as
/// the maze has routes from its start, and not before.
pub proof fn lemma_search_ends<S: Searcher>(states: Seq<S>, k: int)
    requires
        is_search(states),
        states[0].maze().wf(),
        0 <= k < states.len(),
    ensures
        states[k].frontier().len() == 0 <==> k >= search_length(
            states[0].maze().grid(),
            states[0].maze().start(),
        ),
{
    lemma_search_is_run(states, k);
    let m = states[0].maze();
    lemma_run_ends(m.grid(), m.start(), frontiers_of(states), picks_of(states), k);
}

/// Breadth-first search finds a shortest path: the path selected when a
/// step first returns the end node is a shortest walk from the start of the
/// maze to its end.
pub proof fn lemma_breadth_first_finds_shortest(states: Seq<BreadthFirstSearcher>, n: int)
    requires
        is_search(states),
        states[0].maze().wf(),
        first_reaches_end(states, n),
    ensures
        is_shortest(
            states[0].maze().grid(),
            states[0].maze().start(),
            states[0].maze().end(),
            states[n].frontier()[0],
        ),
{
    lemma_search_is_run(states, n);
    let m = states[0].maze();
    let frontiers = frontiers_of(states);
    let picks = picks_of(states);
    assert(picks_first(picks, n + 1));
    lemma_none_ended_before(states, n);
    lemma_queue_finds_shortest(m.grid(), m.start(), m.end(), frontiers, picks, n);
}

/// Before a step first returns the end node, no path that ends there was
/// expanded.
pub proof fn lemma_none_ended_before<S: Searcher>(states: Seq<S>, n: int)
    requires
        first_reaches_end(states, n),
    ensures
        none_ended_before(frontiers_of(states), picks_of(states), n, states[0].maze().end()),
{
    let frontiers = frontiers_of(states);
    let picks = picks_of(states);
    assert forall|j: int, q: Seq<Coordinates>|
        0 <= j < n && #[trigger] expands_at(frontiers, picks, j, q) implies q.last()
        != states[0].maze().end() by {
        assert(0 <= states[j].selected() < states[j].frontier().len());
    }
}

/// Whether the estimates of the searcher never overestimate: what its
/// function may return for a node of the maze is at most the number of
/// steps of any walk from that node to the end of the maze.
pub open spec fn is_admissible<F: HeuristicFn>(s: AStarSearcher<F>) -> bool {
    forall|node: MazeNode, estimate: Cost, w: Seq<Coordinates>|
        node.wf() && node.maze() == s.maze() && #[trigger] s.estimates(node, estimate) && is_walk(
            s.maze().grid(),
            w,
        ) && #[trigger] joins(w, node@, s.maze().end()) ==> estimate <= w.len() - 1
}

/// The estimate of each path of the frontier.
pub open spec fn estimates_of<F: HeuristicFn>(s: AStarSearcher<F>) -> Seq<int> {
    Seq::new(s.entries().len(), |i: int| s.entries()[i].2 as int)
}

/// What a well-formed searcher with estimates that never overestimate
/// holds: no estimate of its frontier is above the steps that are left.
pub proof fn lemma_frontier_never_overestimates<F: HeuristicFn>(s: AStarSearcher<F>)
    requires
        s.wf(),
        is_admissible(s),
    ensures
        never_overestimates(s.maze().grid(), s.maze().end(), s.frontier(), estimates_of(s)),
{
    let m = s.maze();
    let entries = s.entries();
    let estimates = estimates_of(s);
    assert forall|i: int, w: Seq<Coordinates>|
        0 <= i < s.frontier().len() && is_walk(m.grid(), w) && #[trigger] joins(
            w,
            s.frontier()[i].last(),
            m.end(),
        ) implies estimates[i] <= w.len() - 1 by {
        let tail = entries[i].0.last();
        assert(path_in(m, entry_nodes(entries)[i]));
        assert(s.estimates(tail, entries[i].2));
        assert(s.frontier()[i].last() == tail@);
    }
}

/// A well-formed searcher selects a path with the least sum of steps and
/// estimate.
pub proof fn lemma_selects_least_sum<F: HeuristicFn>(s: AStarSearcher<F>)
    requires
        s.wf(),
        s.frontier().len() > 0,
    ensures
        0 <= s.selected() < s.frontier().len(),
        has_least_sum(s.frontier(), estimates_of(s), s.selected()),
{
    let m = s.maze();
    let entries = s.entries();
    let estimates = estimates_of(s);
    let scores = entry_scores(entries);
    lemma_first_least_exists(scores);
    let pick = s.selected();
    assert(path_in(m, entry_nodes(entries)[pick]));
    assert forall|i: int| 0 <= i < s.frontier().len() implies s.frontier()[pick].len() - 1
        + estimates[pick] <= (#[trigger] s.frontier()[i]).len() - 1 + estimates[i] by {
        assert(scores[pick] <= scores[i]);
        assert(path_in(m, entry_nodes(entries)[i]));
        assert(s.frontier()[i].len() == entries[i].0.len());
        assert(s.frontier()[pick].len() == entries[pick].0.len());
    }
}

/// A* finds a shortest path where its estimates never overestimate: the
/// path selected when a step first returns the end node is a shortest walk
/// from the start of the maze to its end.
pub proof fn lemma_a_star_finds_shortest<F: HeuristicFn>(states: Seq<AStarSearcher<F>>, n: int)
    requires
        is_search(states),
        states[0].maze().wf(),
        first_reaches_end(states, n),
        is_admissible(states[n]),
    ensures
        is_shortest(
            states[0].maze().grid(),
            states[0].maze().start(),
            states[0].maze().end(),
            states[n].frontier()[states[n].selected()],
        ),
{
    lemma_search_is_run(states, n);
    let m = states[0].maze();
    let s = states[n];
    lemma_none_ended_before(states, n);
    lemma_frontier_never_overestimates(s);
    lemma_selects_least_sum(s);
    lemma_least_sum_finds_shortest(
        m.grid(),
        m.start(),
        m.end(),
        frontiers_of(states),
        picks_of(states),
        n,
        estimates_of(s),
    );
}

/// Whether the estimates of the searcher are at most the Manhattan distance
/// to the end node.
pub open spec fn estimates_within_manhattan<F: HeuristicFn>(s: AStarSearcher<F>) -> bool {
    forall|node: MazeNode, estimate: Cost| #[trigger]
        s.estimates(node, estimate) ==> estimate <= manhattan(node@, s.maze().end())
}

/// The Manhattan distance never overestimates, nor does an estimate below
/// it.
pub proof fn lemma_manhattan_is_admissible<F: HeuristicFn>(s: AStarSearcher<F>)
    requires
        estimates_within_manhattan(s),
    ensures
        is_admissible(s),
{
    assert forall|node: MazeNode, estimate: Cost, w: Seq<Coordinates>|
        node.wf() && node.maze() == s.maze() && #[trigger] s.estimates(node, estimate) && is_walk(
            s.maze().grid(),
            w,
        ) && #[trigger] joins(w, node@, s.maze().end()) implies estimate <= w.len() - 1 by {
        lemma_manhattan_admissible(s.maze().grid(), w);
    }
}

/// A* with the Manhattan distance finds a path as long as the one that
/// breadth-first search finds: the paths that the two select when a step of
/// theirs first returns the end node have the same number of cells.
pub proof fn lemma_a_star_matches_breadth_first<F: HeuristicFn>(
    stars: Seq<AStarSearcher<F>>,
    n: int,
    queues: Seq<BreadthFirstSearcher>,
    k: int,
)
    requires
        is_search(stars),
        is_search(queues),
        stars[0].maze().wf(),
        queues[0].maze() == stars[0].maze(),
        first_reaches_end(stars, n),
        first_reaches_end(queues, k),
        estimates_within_manhattan(stars[n]),
    ensures
        stars[n].frontier()[stars[n].selected()].len() == queues[k].frontier()[0].len(),
{
    lemma_manhattan_is_admissible(stars[n]);
    lemma_a_star_finds_shortest(stars, n);
    lemma_breadth_first_finds_shortest(queues, k);
    let m = stars[0].maze();
    lemma_shortest_same_length(
        m.grid(),
        m.start(),
        m.end(),
        stars[n].frontier()[stars[n].selected()],
        queues[k].frontier()[0],
    );
}

/// Asking for the current path twice gives the same path: two answers for
/// one state hold the same nodes.
pub proof fn lemma_current_path_repeats<S: Searcher>(
    s: S,
    first: Option<&Path>,
    second: Option<&Path>,
)
    requires
        s.wf(),
        call_ensures(S::get_current_path, (&s,), first),
        call_ensures(S::get_current_path, (&s,), second),
    ensures
        first is Some <==> second is Some,
        first is Some ==> first.unwrap()@ == second.unwrap()@,
{
    if first is Some {
        let a = first.unwrap()@;
        let b = second.unwrap()@;
        assert(first.unwrap().coordinates() == second.unwrap().coordinates());
        assert(a.len() == b.len()) by {
            assert(first.unwrap().coordinates().len() == a.len());
            assert(second.unwrap().coordinates().len() == b.len());
        }
        assert forall|i: int| 0 <= i < a.len() implies a[i] == b[i] by {
            assert(first.unwrap().coordinates()[i] == a[i]@);
            assert(second.unwrap().coordinates()[i] == b[i]@);
            s.maze().lemma_node_pinned(a[i]);
            s.maze().lemma_node_pinned(b[i]);
        }
        assert(a =~= b);
    }
}

/// Asking for the considered nodes twice gives the same nodes.
pub proof fn lemma_considered_nodes_repeat<S: Searcher>(
    s: S,
    first: Vec<MazeNode>,
    second: Vec<MazeNode>,
)
    requires
        s.wf(),
        call_ensures(S::get_considered_nodes, (&s,), first),
        call_ensures(S::get_considered_nodes, (&s,), second),
    ensures
        first@ == second@,
{
    let a = first@;
    let b = second@;
    assert(crate::maze::coordinates_of(a).len() == a.len());
    assert(crate::maze::coordinates_of(b).len() == b.len());
    assert forall|i: int| 0 <= i < a.len() implies a[i] == b[i] by {
        assert(crate::maze::coordinates_of(a)[i] == a[i]@);
        assert(crate::maze::coordinates_of(b)[i] == b[i]@);
        s.maze().lemma_node_pinned(a[i]);
        s.maze().lemma_node_pinned(b[i]);
    }
    assert(a =~= b);
}

} // verus!
