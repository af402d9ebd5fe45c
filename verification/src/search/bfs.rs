//! Breadth-first search: the frontier is a first-in, first-out queue.

use crate::maze::coordinates_of;
use crate::maze::Maze;
use crate::maze::MazeNode;
use crate::search::cells_of;
use crate::search::frontier_in;
use crate::search::lemma_expand_nodes;
use crate::search::path_in;
use crate::search::path::coordinates_of_paths;
use crate::search::path::into_queue;
use crate::search::path::nodes_of;
use crate::search::path::Path;
use crate::search::maze_behind;
use crate::search::tails;
use crate::search::Frontier;
use crate::search::Searcher;
use std::collections::VecDeque;
use std::rc::Rc;
use vstd::pervasive::unreached;
use vstd::prelude::*;

verus! {

/// A searcher that always expands the path that it has held longest.
pub struct BreadthFirstSearcher(VecDeque<Path>, Ghost<Maze>);

impl BreadthFirstSearcher {
    /// The nodes of each path of the frontier, the oldest path first.
    pub closed spec fn nodes(&self) -> Seq<Seq<MazeNode>> {
        nodes_of(self.0@)
    }

    /// A searcher on `maze` whose frontier is the one path that holds the
    /// start node only.
    pub fn new(maze: &Rc<Maze>) -> (s: BreadthFirstSearcher)
        ensures
            s.wf(),
            s.maze() == **maze,
            s.frontier() == seq![seq![maze.start()]],
    {
        let mut initial_path = Path::new();
        initial_path.push(maze.get_start());
        let mut paths: VecDeque<Path> = VecDeque::new();
        paths.push_back(initial_path);
        let s = BreadthFirstSearcher(paths, Ghost(maze_behind(maze)));
        proof {
            assert(coordinates_of(initial_path@) =~= seq![maze.start()]);
            assert(s.frontier() =~= seq![seq![maze.start()]]);
        }
        s
    }
}

impl Searcher for BreadthFirstSearcher {
    open spec fn wf(&self) -> bool {
        frontier_in(self.maze(), self.nodes())
    }

    closed spec fn maze(&self) -> Maze {
        self.1@
    }

    open spec fn frontier(&self) -> Frontier {
        cells_of(self.nodes())
    }

    /// The path that was added first.
    open spec fn selected(&self) -> int {
        0
    }

    fn get_considered_nodes(&self) -> (r: Vec<MazeNode>) {
        let mut r: Vec<MazeNode> = Vec::new();
        let mut i: usize = 0;
        while i < self.0.len()
            invariant
                self.wf(),
                i <= self.0.len(),
                r@.len() == i,
                forall|j: int| 0 <= j < i ==> #[trigger] r@[j] == self.nodes()[j].last(),
            decreases self.0.len() - i,
        {
            assert(path_in(self.maze(), self.nodes()[i as int]));
            match self.0[i].last() {
                Some(node) => {
                    r.push(node.clone());
                },
                None => {
                    unreached()
                },
            }
            i = i + 1;
        }
        proof {
            assert forall|j: int| 0 <= j < r@.len() implies (#[trigger] r@[j]).maze()
                == self.maze() && r@[j].wf() by {
                assert(path_in(self.maze(), self.nodes()[j]));
            }
            assert(coordinates_of(r@) =~= tails(self.frontier()));
        }
        r
    }

    fn develop_next_node(&mut self) -> (r: Option<MazeNode>) {
        let ghost before = self.nodes();
        let ghost m = self.maze();
        let path = match self.0.pop_front() {
            Some(path) => path,
            None => {
                assert(self.nodes() =~= before);
                return None;
            },
        };
        assert(path@ == before[0]);
        assert(path_in(m, before[0]));
        let node = match path.last() {
            Some(node) => node.clone(),
            None => unreached(),
        };
        let ghost rest = self.nodes();
        let mut children = path.deepen_path();
        let ghost born = nodes_of(children@);
        let ghost born_cells = coordinates_of_paths(children@);
        let mut queued = into_queue(children);
        self.0.append(&mut queued);
        proof {
            m.lemma_node_pinned(node);
            assert(rest =~= before.remove(0));
            assert(self.nodes() =~= rest + born);
            assert(cells_of(born) =~= born_cells);
            lemma_expand_nodes(m, before, 0, born);
        }
        Some(node)
    }

    fn get_current_path(&self) -> (r: Option<&Path>) {
        if self.0.len() > 0 {
            assert(path_in(self.maze(), self.nodes()[0]));
            Some(&self.0[0])
        } else {
            None
        }
    }
}

} // verus!
