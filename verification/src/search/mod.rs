//! The stepwise search strategies and the paths they work on.
//!
//! A searcher holds a frontier of paths. Each step takes the path that the
//! strategy selects out of the frontier, puts the children of that path in,
//! and returns the tail of the path that was taken out.

use crate::maze::coordinates_of;
use crate::maze::Maze;
use crate::maze::MazeNode;
use crate::search::path::extensions;
use crate::search::path::is_child_of;
use crate::search::path::Path;
use crate::search::runs::step_of;
use crate::tilemap::Coordinates;
use crate::tilemap::Grid;
use std::rc::Rc;
use vstd::prelude::*;

pub mod a_star;
pub mod bfs;
pub mod dfs;
pub mod exhaustion;
pub mod laws;
pub mod path;
pub mod runs;
pub mod walks;

verus! {

/// The mathematical model of a frontier: the cells of each of its paths,
/// in the order in which the searcher holds them.
pub type Frontier = Seq<Seq<Coordinates>>;

/// The frontier that follows from `frontier` on the grid `g` when the path
/// at index `i` is expanded: that path leaves, and its children are added
/// at the end.
pub open spec fn expand(g: Grid, frontier: Frontier, i: int) -> Frontier {
    frontier.remove(i) + extensions(g, frontier[i])
}

/// The maze behind a shared handle.
pub open spec fn maze_behind(handle: &Rc<Maze>) -> Maze {
    **handle
}

/// The tail of each path of `frontier`.
pub open spec fn tails(frontier: Frontier) -> Seq<Coordinates> {
    frontier.map_values(|p: Seq<Coordinates>| p.last())
}

/// The cells of each of `paths`.
pub open spec fn cells_of(paths: Seq<Seq<MazeNode>>) -> Frontier {
    paths.map_values(|p: Seq<MazeNode>| coordinates_of(p))
}

/// A path that a searcher on the maze `m` may hold: not empty, and made of
/// nodes of `m`.
pub open spec fn path_in(m: Maze, path: Seq<MazeNode>) -> bool {
    &&& path.len() > 0
    &&& forall|j: int| 0 <= j < path.len() ==> (#[trigger] path[j]).wf() && path[j].maze() == m
}

/// A frontier that a searcher on the maze `m` may hold.
pub open spec fn frontier_in(m: Maze, paths: Seq<Seq<MazeNode>>) -> bool {
    &&& m.wf()
    &&& forall|i: int| 0 <= i < paths.len() ==> path_in(m, #[trigger] paths[i])
}

/// What one step of a searcher on the maze `m` does, from the frontier
/// `before` with the selected index `i`: on an empty frontier it returns
/// `None` and changes nothing; else it returns the tail of the selected
/// path and leaves the frontier expanded at `i`.
pub open spec fn step_result(
    m: Maze,
    before: Frontier,
    i: int,
    r: Option<MazeNode>,
    after: Frontier,
) -> bool {
    &&& step_of(m.grid(), before, i, after)
    &&& returns_tail(m, before, i, r)
}

/// Whether `r` is what a step returns: the node of `m` at the tail of the
/// selected path, or `None` on an empty frontier.
pub open spec fn returns_tail(m: Maze, frontier: Frontier, i: int, r: Option<MazeNode>) -> bool {
    if frontier.len() == 0 {
        r is None
    } else {
        &&& r is Some
        &&& r.unwrap()@ == frontier[i].last()
        &&& r.unwrap().maze() == m
        &&& r.unwrap().wf()
    }
}

/// What a searcher regards as its most promising path, on the frontier
/// `frontier` with the selected index `i`: none on an empty frontier, else
/// the selected path.
pub open spec fn best_path(frontier: Frontier, i: int) -> Option<Seq<Coordinates>> {
    if frontier.len() == 0 {
        None
    } else {
        Some(frontier[i])
    }
}

/// The cells of the path that `p` holds, if any.
pub open spec fn path_cells(p: Option<&Path>) -> Option<Seq<Coordinates>> {
    match p {
        Some(p) => Some(p.coordinates()),
        None => None,
    }
}

/// Taking the path at `i` out of a frontier on `m` and adding its children
/// at the end gives a frontier on `m` again, whose cells are the cells of
/// the old one expanded at `i`.
pub proof fn lemma_expand_nodes(
    m: Maze,
    before: Seq<Seq<MazeNode>>,
    i: int,
    born: Seq<Seq<MazeNode>>,
)
    requires
        frontier_in(m, before),
        0 <= i < before.len(),
        forall|k: int| 0 <= k < born.len() ==> is_child_of(#[trigger] born[k], before[i]),
        cells_of(born) == extensions(m.grid(), coordinates_of(before[i])),
    ensures
        frontier_in(m, before.remove(i) + born),
        cells_of(before.remove(i) + born) == expand(m.grid(), cells_of(before), i),
{
    let rest = before.remove(i);
    let after = rest + born;
    assert(path_in(m, before[i]));
    assert forall|k: int| 0 <= k < after.len() implies path_in(m, #[trigger] after[k]) by {
        if k < rest.len() {
            if k < i {
                assert(after[k] == before[k]);
            } else {
                assert(after[k] == before[k + 1]);
            }
        } else {
            let child = born[k - rest.len()];
            assert(is_child_of(child, before[i]));
            assert forall|j: int| 0 <= j < child.len() implies (#[trigger] child[j]).wf()
                && child[j].maze() == m by {
                if j < before[i].len() {
                    assert(child[j] == child.drop_last()[j]);
                }
            }
        }
    }
    assert(cells_of(rest + born) =~= cells_of(rest) + cells_of(born));
    assert(cells_of(rest) =~= cells_of(before).remove(i));
}

/// A search strategy: a frontier of paths on one maze, and a rule that
/// selects the path to expand next.
pub trait Searcher {
    /// Every path of the frontier is not empty and made of nodes of the
    /// maze, and what else the strategy keeps of its frontier holds.
    spec fn wf(&self) -> bool;

    /// The maze that is searched.
    spec fn maze(&self) -> Maze;

    /// The frontier.
    spec fn frontier(&self) -> Frontier;

    /// The index in the frontier of the path that the next step expands.
    spec fn selected(&self) -> int;

    /// The tail of every path of the frontier, in the frontier's order.
    fn get_considered_nodes(&self) -> (r: Vec<MazeNode>)
        requires
            self.wf(),
        ensures
            coordinates_of(r@) == tails(self.frontier()),
            forall|i: int|
                0 <= i < r@.len() ==> (#[trigger] r@[i]).maze() == self.maze() && r@[i].wf(),
    ;

    /// Expands the selected path and returns its tail, or returns `None` on
    /// an empty frontier, which it leaves empty.
    fn develop_next_node(&mut self) -> (r: Option<MazeNode>)
        requires
            old(self).wf(),
        ensures
            final(self).wf(),
            final(self).maze() == old(self).maze(),
            step_result(
                old(self).maze(),
                old(self).frontier(),
                old(self).selected(),
                r,
                final(self).frontier(),
            ),
    ;

    /// The selected path, or `None` on an empty frontier.
    fn get_current_path(&self) -> (r: Option<&Path>)
        requires
            self.wf(),
        ensures
            path_cells(r) == best_path(self.frontier(), self.selected()),
            r is Some ==> 0 <= self.selected() < self.frontier().len(),
            r is Some ==> path_in(self.maze(), r.unwrap()@),
    ;

    /// The next node of the search: what `develop_next_node` returns.
    fn next(&mut self) -> (r: Option<MazeNode>)
        requires
            old(self).wf(),
        ensures
            final(self).wf(),
            final(self).maze() == old(self).maze(),
            step_result(
                old(self).maze(),
                old(self).frontier(),
                old(self).selected(),
                r,
                final(self).frontier(),
            ),
    {
        self.develop_next_node()
    }
}

} // verus!
