//! A* search: the frontier holds each path with its cost and with an
//! estimate of what is left to the end; the path with the least sum is
//! expanded next.

use crate::maze::coordinates_of;
use crate::maze::manhattan;
use crate::maze::Maze;
use crate::maze::MazeNode;
use crate::search::cells_of;
use crate::search::frontier_in;
use crate::search::lemma_expand_nodes;
use crate::search::path::coordinates_of_paths;
use crate::search::path::into_queue;
use crate::search::path::is_child_of;
use crate::search::path::nodes_of;
use crate::search::path::Path;
use crate::search::path_in;
use crate::search::tails;
use crate::search::Frontier;
use crate::search::Searcher;
use std::collections::VecDeque;
use std::rc::Rc;
use vstd::pervasive::unreached;
use vstd::prelude::*;

verus! {

/// The cost of a path, and an estimate of a cost.
pub type Cost = u64;

/// An estimate of the cost from a node to the end node: a function of the
/// two that returns a `Cost`.
pub trait HeuristicFn: Fn(&MazeNode, &MazeNode) -> Cost {}

impl<T> HeuristicFn for T where T: Fn(&MazeNode, &MazeNode) -> Cost {}

/// `n` where it fits a `Cost`, else the greatest `Cost`.
pub open spec fn capped(n: nat) -> Cost {
    if n <= Cost::MAX {
        n as Cost
    } else {
        Cost::MAX
    }
}

/// The Manhattan distance from `node` to `end_node` as an estimate: the
/// distance itself, or the greatest `Cost` where the distance is greater.
pub fn manhattan_heuristic(node: &MazeNode, end_node: &MazeNode) -> (estimate: Cost)
    ensures
        estimate == capped(manhattan(node@, end_node@)),
{
    let from = node.get_coordinates();
    let to = end_node.get_coordinates();
    let dx: usize = if from.0 >= to.0 {
        from.0 - to.0
    } else {
        to.0 - from.0
    };
    let dy: usize = if from.1 >= to.1 {
        from.1 - to.1
    } else {
        to.1 - from.1
    };
    match (dx as Cost).checked_add(dy as Cost) {
        Some(sum) => sum,
        None => Cost::MAX,
    }
}

/// What a path is worth to the searcher: its cost plus the estimate for
/// its tail. The less, the better.
pub open spec fn score(cost: Cost, estimate: Cost) -> int {
    cost + estimate
}

/// Whether `k` is the first index of `s` that holds its least number.
pub open spec fn is_first_least(s: Seq<int>, k: int) -> bool {
    &&& 0 <= k < s.len()
    &&& forall|j: int| 0 <= j < s.len() ==> s[k] <= #[trigger] s[j]
    &&& forall|j: int| 0 <= j < k ==> s[k] < #[trigger] s[j]
}

/// The first index of `s` that holds its least number.
pub open spec fn first_least(s: Seq<int>) -> int {
    choose|k: int| is_first_least(s, k)
}

/// At most one index is the first to hold the least number.
pub proof fn lemma_first_least_unique(s: Seq<int>, k: int)
    requires
        is_first_least(s, k),
    ensures
        first_least(s) == k,
{
    let c = first_least(s);
    assert(is_first_least(s, c));
    if c < k {
        assert(s[k] < s[c]);
        assert(s[c] <= s[k]);
    } else if k < c {
        assert(s[c] < s[k]);
        assert(s[k] <= s[c]);
    }
}

/// Every sequence of numbers that is not empty has a first index that holds
/// its least number.
pub proof fn lemma_first_least_exists(s: Seq<int>)
    requires
        s.len() > 0,
    ensures
        is_first_least(s, first_least(s)),
    decreases s.len(),
{
    if s.len() == 1 {
        assert(is_first_least(s, 0));
    } else {
        let before = s.drop_last();
        lemma_first_least_exists(before);
        let k = first_least(before);
        assert forall|j: int| 0 <= j < before.len() implies before[j] == s[j] by {}
        if s.last() < s[k] {
            assert(is_first_least(s, s.len() - 1)) by {
                assert forall|j: int| 0 <= j < s.len() - 1 implies s[s.len() - 1] < #[trigger] s[j] by {
                    assert(before[k] <= before[j]);
                }
            }
        } else {
            assert(is_first_least(s, k)) by {
                assert forall|j: int| 0 <= j < s.len() implies s[k] <= #[trigger] s[j] by {
                    if j < before.len() {
                        assert(before[k] <= before[j]);
                    }
                }
                assert forall|j: int| 0 <= j < k implies s[k] < #[trigger] s[j] by {
                    assert(before[k] < before[j]);
                }
            }
        }
    }
}

/// One path of the frontier: its nodes, its cost, the estimate for its tail.
pub type Entry = (Seq<MazeNode>, Cost, Cost);

/// The nodes of each entry's path.
pub open spec fn entry_nodes(entries: Seq<Entry>) -> Seq<Seq<MazeNode>> {
    entries.map_values(|e: Entry| e.0)
}

/// The score of each entry.
pub open spec fn entry_scores(entries: Seq<Entry>) -> Seq<int> {
    entries.map_values(|e: Entry| score(e.1, e.2))
}

/// What the searcher holds for one path.
pub open spec fn entry_of(held: (Path, Cost, Cost)) -> Entry {
    (held.0@, held.1, held.2)
}

/// A searcher that always expands the path with the least sum of cost and
/// estimate, and of several such the one that it has held longest.
pub struct AStarSearcher<F>(Rc<Maze>, VecDeque<(Path, Cost, Cost)>, Box<F>) where F: HeuristicFn;

impl<F: HeuristicFn> AStarSearcher<F> {
    /// The entries of the frontier, the oldest first.
    pub closed spec fn entries(&self) -> Seq<Entry> {
        self.1@.map_values(|held: (Path, Cost, Cost)| entry_of(held))
    }

    /// The function that gives the estimates.
    pub closed spec fn heuristic(&self) -> F {
        *self.2
    }

    /// Whether `estimate` is a value that the searcher's function may
    /// return for `node` and the end node of the maze.
    pub open spec fn estimates(&self, node: MazeNode, estimate: Cost) -> bool {
        self.heuristic().ensures((&node, &self.maze().end_node()), estimate)
    }

    /// Whether the searcher's function may be called on `node` and the end
    /// node of the maze.
    pub open spec fn can_estimate(&self, node: MazeNode) -> bool {
        self.heuristic().requires((&node, &self.maze().end_node()))
    }

    /// A searcher on `maze` whose frontier is the one path that holds the
    /// start node only, at cost zero and with the estimate that `heuristic`
    /// gives for the start node. The function must accept every node of the
    /// maze together with the maze's end node.
    pub fn new(maze: Rc<Maze>, heuristic: Box<F>) -> (s: AStarSearcher<F>)
        requires
            forall|n: MazeNode|
                n.wf() && n.maze() == *maze ==> #[trigger] heuristic.requires(
                    (&n, &maze.end_node()),
                ),
        ensures
            s.wf(),
            s.maze() == *maze,
            s.heuristic() == *heuristic,
            s.frontier() == seq![seq![maze.start()]],
            s.entries().len() == 1,
            s.entries()[0].1 == 0,
    {
        let start_node = maze.get_start();
        let end_node = maze.get_end();
        proof {
            maze.lemma_node_pinned(end_node);
        }
        let mut initial_path: Path = Path::new();
        initial_path.push(start_node.clone());
        let initial_path_length: Cost = 0;
        assert(start_node.wf() && start_node.maze() == *maze);
        assert(end_node == maze.end_node());
        assert(heuristic.requires((&start_node, &maze.end_node())));
        let starting_heuristic = heuristic(&start_node, &end_node);
        let mut initial_path_list: VecDeque<(Path, Cost, Cost)> = VecDeque::new();
        initial_path_list.push_back((initial_path, initial_path_length, starting_heuristic));
        let s = AStarSearcher(maze, initial_path_list, heuristic);
        proof {
            assert(coordinates_of(initial_path@) =~= seq![maze.start()]);
            assert(s.frontier() =~= seq![seq![maze.start()]]);
        }
        s
    }

    /// The index of the entry with the least score, the first of several,
    /// or `None` on an empty frontier.
    fn least(&self) -> (r: Option<usize>)
        ensures
            match r {
                Some(k) => is_first_least(entry_scores(self.entries()), k as int),
                None => self.entries().len() == 0,
            },
    {
        if self.1.len() == 0 {
            return None;
        }
        let ghost scores = entry_scores(self.entries());
        let mut best: usize = 0;
        let mut least: u128 = self.1[0].1 as u128 + self.1[0].2 as u128;
        let mut i: usize = 1;
        while i < self.1.len()
            invariant
                scores == entry_scores(self.entries()),
                scores.len() == self.1.len(),
                0 < i <= self.1.len(),
                least == scores[best as int],
                is_first_least(scores.take(i as int), best as int),
            decreases self.1.len() - i,
        {
            let sum: u128 = self.1[i].1 as u128 + self.1[i].2 as u128;
            assert(sum == scores[i as int]);
            proof {
                let seen = scores.take(i as int);
                let more = scores.take(i + 1);
                assert forall|j: int| 0 <= j < more.len() implies more[j] == scores[j] by {}
                assert forall|j: int| 0 <= j < seen.len() implies seen[j] == scores[j] by {}
                assert(forall|j: int| 0 <= j < i ==> seen[best as int] <= #[trigger] seen[j]);
            }
            if sum < least {
                best = i;
                least = sum;
            }
            i = i + 1;
        }
        assert(scores.take(i as int) =~= scores);
        Some(best)
    }
}

impl<F: HeuristicFn> Searcher for AStarSearcher<F> {
    /// Every path is made of nodes of the maze; the cost of each is the
    /// number of its steps; the estimate of each is one that the function
    /// may return for its tail; and the function accepts every node of the
    /// maze.
    open spec fn wf(&self) -> bool {
        &&& frontier_in(self.maze(), entry_nodes(self.entries()))
        &&& forall|i: int|
            0 <= i < self.entries().len() ==> (#[trigger] self.entries()[i]).1
                == self.entries()[i].0.len() - 1
        &&& forall|i: int|
            0 <= i < self.entries().len() ==> self.estimates(
                (#[trigger] self.entries()[i]).0.last(),
                self.entries()[i].2,
            )
        &&& forall|n: MazeNode|
            n.wf() && n.maze() == self.maze() ==> #[trigger] self.can_estimate(n)
    }

    closed spec fn maze(&self) -> Maze {
        *self.0
    }

    open spec fn frontier(&self) -> Frontier {
        cells_of(entry_nodes(self.entries()))
    }

    /// The first path with the least score.
    open spec fn selected(&self) -> int {
        first_least(entry_scores(self.entries()))
    }

    fn get_considered_nodes(&self) -> (r: Vec<MazeNode>) {
        let ghost nodes = entry_nodes(self.entries());
        let mut r: Vec<MazeNode> = Vec::new();
        let mut i: usize = 0;
        while i < self.1.len()
            invariant
                self.wf(),
                nodes == entry_nodes(self.entries()),
                i <= self.1.len(),
                self.1.len() == nodes.len(),
                r@.len() == i,
                forall|j: int| 0 <= j < i ==> #[trigger] r@[j] == nodes[j].last(),
            decreases self.1.len() - i,
        {
            assert(path_in(self.maze(), nodes[i as int]));
            match self.1[i].0.last() {
                Some(node) => {
                    r.push(node.clone());
                },
                None => {
                    unreached()
                },
            }
            i = i + 1;
        }
        proof {
            assert forall|j: int| 0 <= j < r@.len() implies (#[trigger] r@[j]).maze()
                == self.maze() && r@[j].wf() by {
                assert(path_in(self.maze(), nodes[j]));
            }
            assert(coordinates_of(r@) =~= tails(self.frontier()));
        }
        r
    }

    fn develop_next_node(&mut self) -> (r: Option<MazeNode>)
        ensures
            final(self).heuristic() == old(self).heuristic(),
    {
        let ghost before = self.entries();
        let ghost m = self.maze();
        let idx = match self.least() {
            Some(idx) => idx,
            None => {
                return None;
            },
        };
        proof {
            lemma_first_least_unique(entry_scores(before), idx as int);
        }
        let (path, cost, _) = match self.1.remove(idx) {
            Some(entry) => entry,
            None => unreached(),
        };
        assert(path@ == entry_nodes(before)[idx as int]);
        assert(path_in(m, entry_nodes(before)[idx as int]));
        assert(cost == before[idx as int].1);
        let node = match path.last() {
            Some(node) => node.clone(),
            None => unreached(),
        };
        let end_node = self.0.get_end();
        let ghost rest = self.entries();
        let ghost parent = path@;
        let children = path.deepen_path();
        let ghost born = nodes_of(children@);
        let ghost born_cells = coordinates_of_paths(children@);
        let mut queued = into_queue(children);
        proof {
            m.lemma_node_pinned(node);
            m.lemma_node_pinned(end_node);
            assert(rest =~= before.remove(idx as int));
            assert(entry_nodes(rest) =~= entry_nodes(before).remove(idx as int));
            assert(born.take(0) =~= Seq::<Seq<MazeNode>>::empty());
            assert(entry_nodes(self.entries()) =~= entry_nodes(rest) + born.take(0));
        }
        assert(self.heuristic() == old(self).heuristic());
        assert(self.maze() == m);
        assert forall|n: MazeNode| n.wf() && n.maze() == m implies #[trigger] self.can_estimate(
            n,
        ) by {
            assert(old(self).can_estimate(n));
        }
        while queued.len() > 0
            invariant
                self.maze() == m,
                self.heuristic() == old(self).heuristic(),
                m.wf(),
                end_node == m.end_node(),
                parent.len() > 0,
                cost == parent.len() - 1,
                born.len() - queued@.len() >= 0,
                nodes_of(queued@) == born.skip(born.len() - queued@.len()),
                forall|k: int| 0 <= k < born.len() ==> is_child_of(#[trigger] born[k], parent),
                path_in(m, parent),
                entry_nodes(self.entries()) == entry_nodes(rest) + born.take(
                    born.len() - queued@.len(),
                ),
                forall|i: int|
                    0 <= i < self.entries().len() ==> (#[trigger] self.entries()[i]).1
                        == self.entries()[i].0.len() - 1,
                forall|i: int|
                    0 <= i < self.entries().len() ==> self.estimates(
                        (#[trigger] self.entries()[i]).0.last(),
                        self.entries()[i].2,
                    ),
                old(self).wf(),
                old(self).maze() == m,
            decreases queued@.len(),
        {
            let ghost done = born.len() - queued@.len();
            let ghost held = self.entries();
            let ghost waiting = queued@;
            let child = match queued.pop_front() {
                Some(child) => child,
                None => unreached(),
            };
            assert(child@ == born[done]) by {
                assert(born.skip(done)[0] == born[done]);
            }
            assert(is_child_of(child@, parent));
            proof {
                child.lemma_len_fits();
            }
            let estimate = match child.last() {
                Some(tail) => {
                    assert(old(self).can_estimate(*tail));
                    (self.2)(tail, &end_node)
                },
                None => unreached(),
            };
            self.1.push_back((child, cost + 1, estimate));
            proof {
                assert(self.entries() =~= held.push((child@, (cost + 1) as Cost, estimate)));
                assert(queued@ =~= waiting.skip(1));
                assert(nodes_of(waiting) == born.skip(done));
                assert(nodes_of(waiting.skip(1)) =~= nodes_of(waiting).skip(1));
                assert(born.skip(done).skip(1) =~= born.skip(done + 1));
                assert(nodes_of(queued@) =~= born.skip(done + 1));
                assert(entry_nodes(self.entries()) =~= entry_nodes(held).push(child@));
                assert(born.take(done + 1) =~= born.take(done).push(born[done]));
                assert(entry_nodes(self.entries()) =~= entry_nodes(rest) + born.take(done + 1));
            }
        }
        proof {
            assert forall|n: MazeNode| n.wf() && n.maze() == m implies #[trigger] self.can_estimate(
                n,
            ) by {
                assert(old(self).can_estimate(n));
            }
            assert(born.take(born.len() as int) =~= born);
            assert(cells_of(born) =~= born_cells);
            lemma_expand_nodes(m, entry_nodes(before), idx as int, born);
        }
        Some(node)
    }

    fn get_current_path(&self) -> (r: Option<&Path>) {
        match self.least() {
            Some(idx) => {
                proof {
                    lemma_first_least_unique(entry_scores(self.entries()), idx as int);
                    assert(path_in(self.maze(), entry_nodes(self.entries())[idx as int]));
                }
                Some(&self.1[idx].0)
            },
            None => None,
        }
    }
}

} // verus!
