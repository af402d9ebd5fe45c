//! A candidate route: an ordered sequence of nodes that grows at its tail
//! and forks into one child per fresh neighbour of the tail.

use crate::maze::coordinates_of;
use crate::maze::open_neighbours;
use crate::maze::MazeNode;
use crate::tilemap::Coordinates;
use crate::tilemap::Grid;
use std::collections::vec_deque::Iter;
use std::collections::VecDeque;
use vstd::prelude::*;
use vstd::std_specs::iter::IteratorSpec;

verus! {

/// The cells of `cells` that `path` does not hold, in their order.
pub open spec fn fresh_cells(path: Seq<Coordinates>, cells: Seq<Coordinates>) -> Seq<Coordinates> {
    cells.filter(|c: Coordinates| !path.contains(c))
}

/// The paths that `path` forks into on the grid `g`: one for each open
/// neighbour of its tail that it does not hold yet, in the order up, left,
/// down, right. The empty path has no tail and forks into itself.
pub open spec fn extensions(g: Grid, path: Seq<Coordinates>) -> Seq<Seq<Coordinates>> {
    if path.len() == 0 {
        seq![path]
    } else {
        fresh_cells(path, open_neighbours(g, path.last())).map_values(
            |c: Coordinates| path.push(c),
        )
    }
}

/// An ordered sequence of nodes.
#[derive(Debug)]
pub struct Path(VecDeque<MazeNode>);

impl View for Path {
    type V = Seq<MazeNode>;

    closed spec fn view(&self) -> Seq<MazeNode> {
        self.0@
    }
}

impl Path {
    /// The cells of the path's nodes, from the first to the tail.
    pub open spec fn coordinates(&self) -> Seq<Coordinates> {
        coordinates_of(self@)
    }

    /// The empty path.
    pub fn new() -> (p: Path)
        ensures
            p@ == Seq::<MazeNode>::empty(),
    {
        Path(VecDeque::new())
    }

    /// The number of nodes fits a machine word.
    pub proof fn lemma_len_fits(&self)
        ensures
            self@.len() <= usize::MAX,
    {
        broadcast use vstd::std_specs::vecdeque::axiom_spec_len;

        assert(self.0@.len() == self.0.len());
    }

    /// Appends `node` as the new tail.
    pub fn push(&mut self, node: MazeNode)
        ensures
            final(self)@ == old(self)@.push(node),
    {
        self.0.push_back(node);
    }

    /// The first node, or `None` for the empty path.
    pub fn first(&self) -> (r: Option<&MazeNode>)
        ensures
            r == if self@.len() > 0 {
                Some(&self@[0])
            } else {
                None
            },
    {
        if self.0.len() > 0 {
            Some(&self.0[0])
        } else {
            None
        }
    }

    /// The tail, or `None` for the empty path.
    pub fn last(&self) -> (r: Option<&MazeNode>)
        ensures
            r == if self@.len() > 0 {
                Some(&self@.last())
            } else {
                None
            },
    {
        let n = self.0.len();
        if n > 0 {
            Some(&self.0[n - 1])
        } else {
            None
        }
    }

    /// The nodes one by one, from the first to the tail.
    pub fn iter(&self) -> (it: Iter<'_, MazeNode>)
        ensures
            it.remaining() == self@.as_ref(),
            it.decrease() is Some,
            it.initial_value_relation(&it),
    {
        broadcast use vstd::std_specs::vecdeque::axiom_spec_iter;

        self.0.iter()
    }

    /// Whether the path holds a node at the cell of `node`.
    pub fn contains(&self, node: &MazeNode) -> (r: bool)
        ensures
            r == self.coordinates().contains(node@),
    {
        let mut i: usize = 0;
        while i < self.0.len()
            invariant
                i <= self.0.len(),
                forall|j: int| 0 <= j < i ==> self.coordinates()[j] != node@,
            decreases self.0.len() - i,
        {
            let here = self.0[i].get_coordinates();
            let there = node.get_coordinates();
            if here.0 == there.0 && here.1 == there.1 {
                assert(self.coordinates()[i as int] == node@);
                return true;
            }
            i = i + 1;
        }
        false
    }
}

impl Path {
    /// Forks the path: one child for each open neighbour of the tail that
    /// the path does not hold yet, in the order up, left, down, right, each
    /// child being this path with that neighbour appended. A path whose tail
    /// has no such neighbour has no child. The empty path is handed back as
    /// it is.
    pub fn deepen_path(self) -> (r: Vec<Path>)
        ensures
            coordinates_of_paths(r@) == extensions(tail_grid(self@), self.coordinates()),
            self@.len() == 0 ==> r@.len() == 1 && r@[0]@ == self@,
            self@.len() > 0 ==> forall|i: int|
                0 <= i < r@.len() ==> is_child_of((#[trigger] r@[i])@, self@),
            self@.len() > 0 && self.coordinates().no_duplicates() ==> forall|i: int|
                0 <= i < r@.len() ==> (#[trigger] r@[i]).coordinates().no_duplicates(),
    {
        let ghost cells = self.coordinates();
        let ghost g = tail_grid(self@);
        if self.0.len() == 0 {
            let mut same: Vec<Path> = Vec::new();
            same.push(self);
            assert(coordinates_of_paths(same@) =~= seq![cells]);
            return same;
        }
        let tail = &self.0[self.0.len() - 1];
        let neighbours = tail.get_neighbors();
        let ghost around = neighbours@;
        let mut rest = neighbours.into_iter();
        let mut new_paths: Vec<Path> = Vec::new();
        proof {
            assert(around.take(0) =~= Seq::<MazeNode>::empty());
            assert(coordinates_of(around.take(0)) =~= Seq::<Coordinates>::empty());
            reveal_with_fuel(Seq::filter, 1);
            assert(coordinates_of_paths(new_paths@) =~= Seq::<Seq<Coordinates>>::empty());
        }
        loop
            invariant
                cells == self.coordinates(),
                self@.len() > 0,
                g == tail_grid(self@),
                coordinates_of(around) == open_neighbours(g, cells.last()),
                forall|i: int|
                    0 <= i < around.len() ==> (#[trigger] around[i]).maze() == self@.last().maze()
                        && around[i].wf(),
                around.len() - rest@.len() >= 0,
                rest@ == around.skip(around.len() - rest@.len()),
                coordinates_of_paths(new_paths@) == fresh_cells(
                    cells,
                    coordinates_of(around.take(around.len() - rest@.len())),
                ).map_values(|c: Coordinates| cells.push(c)),
                forall|i: int|
                    0 <= i < new_paths@.len() ==> is_child_of((#[trigger] new_paths@[i])@, self@),
            ensures
                rest@.len() == 0,
                coordinates_of_paths(new_paths@) == fresh_cells(
                    cells,
                    coordinates_of(around.take(around.len() - rest@.len())),
                ).map_values(|c: Coordinates| cells.push(c)),
                forall|i: int|
                    0 <= i < new_paths@.len() ==> is_child_of((#[trigger] new_paths@[i])@, self@),
            decreases rest@.len(),
        {
            let ghost done = around.len() - rest@.len();
            match rest.next() {
                None => {
                    break ;
                },
                Some(node) => {
                    proof {
                        assert(node == around[done]);
                        assert(rest@ =~= around.skip(done + 1));
                        lemma_fresh_cells_step(cells, around, done);
                    }
                    if !self.contains(&node) {
                        let ghost before = new_paths@;
                        let mut child = self.clone();
                        child.push(node);
                        new_paths.push(child);
                        proof {
                            assert(child@.drop_last() =~= self@);
                            assert(coordinates_of(child@) =~= cells.push(node@));
                            assert(coordinates_of_paths(new_paths@) =~= coordinates_of_paths(
                                before,
                            ).push(cells.push(node@)));
                            assert(coordinates_of_paths(new_paths@) =~= fresh_cells(
                                cells,
                                coordinates_of(around.take(done + 1)),
                            ).map_values(|c: Coordinates| cells.push(c)));
                        }
                    }
                },
            }
        }
        proof {
            assert(around.take(around.len() as int) =~= around);
            if cells.no_duplicates() {
                assert forall|i: int| 0 <= i < new_paths@.len() implies (
                #[trigger] new_paths@[i]).coordinates().no_duplicates() by {
                    lemma_extensions_simple(g, cells, i);
                }
            }
        }
        new_paths
    }
}

/// The grid of the maze that the tail of `nodes` belongs to.
pub open spec fn tail_grid(nodes: Seq<MazeNode>) -> Grid {
    nodes.last().grid()
}

/// The nodes of each path of `paths`.
pub open spec fn nodes_of(paths: Seq<Path>) -> Seq<Seq<MazeNode>> {
    paths.map_values(|p: Path| p@)
}

/// The cells of each path of `paths`.
pub open spec fn coordinates_of_paths(paths: Seq<Path>) -> Seq<Seq<Coordinates>> {
    paths.map_values(|p: Path| p.coordinates())
}

/// Whether `child` is `parent` with one node appended, a node of the maze of
/// the parent's tail.
pub open spec fn is_child_of(child: Seq<MazeNode>, parent: Seq<MazeNode>) -> bool {
    &&& child.len() == parent.len() + 1
    &&& child.drop_last() == parent
    &&& child.last().wf()
    &&& parent.len() > 0 ==> child.last().maze() == parent.last().maze()
}

/// Looking at one more neighbour adds it to the fresh cells where the path
/// does not hold it, and adds nothing where it does.
pub proof fn lemma_fresh_cells_step(path: Seq<Coordinates>, around: Seq<MazeNode>, i: int)
    requires
        0 <= i < around.len(),
    ensures
        fresh_cells(path, coordinates_of(around.take(i + 1))) == if path.contains(around[i]@) {
            fresh_cells(path, coordinates_of(around.take(i)))
        } else {
            fresh_cells(path, coordinates_of(around.take(i))).push(around[i]@)
        },
{
    reveal(Seq::filter);
    let more = coordinates_of(around.take(i + 1));
    assert(more.drop_last() =~= coordinates_of(around.take(i)));
    assert(more.last() == around[i]@);
}

/// Every fresh cell is one of the cells looked at, is not on the path, and
/// stands once among the fresh cells where it stands once among the cells.
pub proof fn lemma_fresh_cells(path: Seq<Coordinates>, cells: Seq<Coordinates>)
    ensures
        forall|c: Coordinates|
            fresh_cells(path, cells).contains(c) <==> cells.contains(c) && !path.contains(c),
        cells.no_duplicates() ==> fresh_cells(path, cells).no_duplicates(),
        fresh_cells(path, cells).len() <= cells.len(),
    decreases cells.len(),
{
    reveal(Seq::filter);
    let pred = |c: Coordinates| !path.contains(c);
    let fresh = fresh_cells(path, cells);
    if cells.len() > 0 {
        let before = cells.drop_last();
        let fresh_before = fresh_cells(path, before);
        lemma_fresh_cells(path, before);
        assert forall|c: Coordinates| fresh.contains(c) <==> cells.contains(c) && !path.contains(
            c,
        ) by {
            if fresh.contains(c) {
                let i = choose|i: int| 0 <= i < fresh.len() && fresh[i] == c;
                if i < fresh_before.len() {
                    assert(fresh_before[i] == c);
                    assert(fresh_before.contains(c));
                    let j = choose|j: int| 0 <= j < before.len() && before[j] == c;
                    assert(cells[j] == c);
                } else {
                    assert(cells[cells.len() - 1] == c);
                }
            }
            if cells.contains(c) && !path.contains(c) {
                let j = choose|j: int| 0 <= j < cells.len() && cells[j] == c;
                if j < before.len() {
                    assert(before[j] == c);
                    assert(before.contains(c));
                    assert(fresh_before.contains(c));
                    let i = choose|i: int| 0 <= i < fresh_before.len() && fresh_before[i] == c;
                    assert(fresh[i] == c);
                } else {
                    assert(fresh[fresh.len() - 1] == c);
                }
            }
        }
        if cells.no_duplicates() {
            assert(before.no_duplicates());
            if pred(cells.last()) {
                assert(!before.contains(cells.last())) by {
                    if before.contains(cells.last()) {
                        let j = choose|j: int| 0 <= j < before.len() && before[j] == cells.last();
                        assert(cells[j] == cells[cells.len() - 1]);
                    }
                }
                assert(!fresh_before.contains(cells.last()));
            }
        }
    }
}

/// A child of a path without a repeated cell has none either, and is the
/// path with one open neighbour of its tail appended.
pub proof fn lemma_extensions_simple(g: Grid, path: Seq<Coordinates>, i: int)
    requires
        path.len() > 0,
        0 <= i < extensions(g, path).len(),
    ensures
        extensions(g, path)[i].len() == path.len() + 1,
        extensions(g, path)[i].drop_last() == path,
        open_neighbours(g, path.last()).contains(extensions(g, path)[i].last()),
        !path.contains(extensions(g, path)[i].last()),
        path.no_duplicates() ==> extensions(g, path)[i].no_duplicates(),
{
    let around = open_neighbours(g, path.last());
    let fresh = fresh_cells(path, around);
    lemma_fresh_cells(path, around);
    let child = extensions(g, path)[i];
    assert(child == path.push(fresh[i]));
    assert(fresh.contains(fresh[i]));
    assert(child.drop_last() =~= path);
}

/// The paths of `paths` as a queue, in their order.
pub(crate) fn into_queue(paths: Vec<Path>) -> (queue: VecDeque<Path>)
    ensures
        queue@ == paths@,
{
    let mut paths = paths;
    let mut queue: VecDeque<Path> = VecDeque::new();
    let ghost all = paths@;
    while paths.len() > 0
        invariant
            paths@ + queue@ == all,
        decreases paths.len(),
    {
        let ghost shorter = paths@.drop_last();
        let ghost longer = seq![paths@.last()] + queue@;
        match paths.pop() {
            Some(path) => {
                queue.push_front(path);
            },
            None => {},
        }
        assert(paths@ + queue@ =~= shorter + longer);
        assert(shorter + longer =~= all);
    }
    assert(paths@ + queue@ =~= queue@);
    queue
}

impl Clone for Path {
    fn clone(&self) -> (r: Self)
        ensures
            r@ == self@,
    {
        let nodes = self.0.clone();
        assert(nodes@ =~= self.0@);
        Path(nodes)
    }
}

impl Default for Path {
    fn default() -> (p: Self)
        ensures
            p@ == Seq::<MazeNode>::empty(),
    {
        Path::new()
    }
}

} // verus!
