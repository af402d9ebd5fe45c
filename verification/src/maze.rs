//! The maze: a tile map with its start and end located, the nodes that
//! address its cells, and the wall-aware neighbours of a node.

use crate::tilemap::count_in_grid;
use crate::tilemap::grid_height;
use crate::tilemap::grid_width;
use crate::tilemap::in_grid;
use crate::tilemap::is_valid_grid;
use crate::tilemap::lemma_count_in_grid_witness;
use crate::tilemap::lemma_unique_tile;
use crate::tilemap::lemma_valid_grid_has_cells;
use crate::tilemap::tile_at;
use crate::tilemap::Coordinates;
use crate::tilemap::Grid;
use crate::tilemap::Tile;
use crate::tilemap::TileMap;
use crate::tilemap::TileMapIter;
use std::rc::Rc;
use vstd::pervasive::unreached;
use vstd::prelude::*;
use vstd::std_specs::cmp::PartialEqSpecImpl;
use vstd::std_specs::convert::FromSpecImpl;

verus! {

/// A cell that a path may enter: inside the grid and no wall.
pub open spec fn is_open(g: Grid, c: Coordinates) -> bool {
    in_grid(g, c) && tile_at(g, c) != Tile::Wall
}

/// The cell above `c`, where there is one and it is open.
pub open spec fn up_of(g: Grid, c: Coordinates) -> Option<Coordinates> {
    if c.1 > 0 && is_open(g, (c.0, (c.1 - 1) as usize)) {
        Some((c.0, (c.1 - 1) as usize))
    } else {
        None
    }
}

/// The cell to the left of `c`, where there is one and it is open.
pub open spec fn left_of(g: Grid, c: Coordinates) -> Option<Coordinates> {
    if c.0 > 0 && is_open(g, ((c.0 - 1) as usize, c.1)) {
        Some(((c.0 - 1) as usize, c.1))
    } else {
        None
    }
}

/// The cell below `c`, where there is one and it is open.
pub open spec fn down_of(g: Grid, c: Coordinates) -> Option<Coordinates> {
    if c.1 < usize::MAX && is_open(g, (c.0, (c.1 + 1) as usize)) {
        Some((c.0, (c.1 + 1) as usize))
    } else {
        None
    }
}

/// The cell to the right of `c`, where there is one and it is open.
pub open spec fn right_of(g: Grid, c: Coordinates) -> Option<Coordinates> {
    if c.0 < usize::MAX && is_open(g, ((c.0 + 1) as usize, c.1)) {
        Some(((c.0 + 1) as usize, c.1))
    } else {
        None
    }
}

/// The sequence of the one cell that `o` holds, or of none.
pub open spec fn cell_seq(o: Option<Coordinates>) -> Seq<Coordinates> {
    match o {
        Some(c) => seq![c],
        None => Seq::empty(),
    }
}

/// The open cells next to `c`, in the fixed order up, left, down, right.
pub open spec fn open_neighbours(g: Grid, c: Coordinates) -> Seq<Coordinates> {
    cell_seq(up_of(g, c)) + cell_seq(left_of(g, c)) + cell_seq(down_of(g, c)) + cell_seq(
        right_of(g, c),
    )
}

/// The distance between two numbers.
pub open spec fn gap(a: usize, b: usize) -> nat {
    if a >= b {
        (a - b) as nat
    } else {
        (b - a) as nat
    }
}

/// The Manhattan distance between two cells.
pub open spec fn manhattan(a: Coordinates, b: Coordinates) -> nat {
    gap(a.0, b.0) + gap(a.1, b.1)
}

/// Two cells that share a side.
pub open spec fn adjacent(a: Coordinates, b: Coordinates) -> bool {
    manhattan(a, b) == 1
}

/// The neighbours of a cell are the open cells that share a side with it.
pub proof fn lemma_open_neighbours(g: Grid, c: Coordinates, d: Coordinates)
    ensures
        open_neighbours(g, c).contains(d) <==> adjacent(c, d) && is_open(g, d),
{
    let up = cell_seq(up_of(g, c));
    let left = cell_seq(left_of(g, c));
    let down = cell_seq(down_of(g, c));
    let right = cell_seq(right_of(g, c));
    let all = open_neighbours(g, c);
    if adjacent(c, d) && is_open(g, d) {
        if d.1 < c.1 {
            assert(up[0] == d);
            assert(all[0] == d);
        } else if d.0 < c.0 {
            assert(left[0] == d);
            assert(all[up.len() as int] == d);
        } else if d.1 > c.1 {
            assert(down[0] == d);
            assert(all[(up.len() + left.len()) as int] == d);
        } else {
            assert(right[0] == d);
            assert(all[(up.len() + left.len() + down.len()) as int] == d);
        }
    }
    if all.contains(d) {
        let i = choose|i: int| 0 <= i < all.len() && all[i] == d;
        if i < up.len() {
            assert(up[i] == d);
        } else if i < up.len() + left.len() {
            assert(left[i - up.len()] == d);
        } else if i < up.len() + left.len() + down.len() {
            assert(down[i - up.len() - left.len()] == d);
        } else {
            assert(right[i - up.len() - left.len() - down.len()] == d);
        }
    }
}

/// A second handle to the maze behind `maze`, made by `Rc::clone` of std.
/// Not proved but taken from its documentation: the call copies no maze, so
/// the handle that comes back points to the maze that `maze` points to.
#[verifier::external_body]
fn share(maze: &Rc<Maze>) -> (r: Rc<Maze>)
    ensures
        r == *maze,
{
    Rc::clone(maze)
}

/// A tile map with the places of its start and of its end. It is never
/// changed; nodes and searchers share it.
#[derive(Debug, PartialEq)]
pub struct Maze {
    map: TileMap,
    start_coord: Coordinates,
    end_coord: Coordinates,
}

/// The one place of a tile of kind `t` in a grid that holds one.
pub open spec fn find_tile(g: Grid, t: Tile) -> Coordinates {
    choose|c: Coordinates| in_grid(g, c) && tile_at(g, c) == t
}

/// Finds the first tile of kind `t` in a walk over `map`.
fn locate(map: &TileMap, t: Tile) -> (r: Coordinates)
    requires
        is_valid_grid(map@),
        count_in_grid(map@, t) == 1,
    ensures
        in_grid(map@, r),
        tile_at(map@, r) == t,
        r == find_tile(map@, t),
{
    let ghost g = map@;
    let height = map.height();
    let width = map.width();
    let mut walk = TileMapIter::from(map);
    proof {
        lemma_valid_grid_has_cells(g);
    }
    loop
        invariant
            is_valid_grid(g),
            count_in_grid(g, t) == 1,
            g == map@,
            walk.grid() == g,
            height == grid_height(g),
            width == grid_width(g),
            walk.cursor().0 < width,
            walk.cursor().1 <= height,
            forall|c: Coordinates|
                in_grid(g, c) && (c.1 < walk.cursor().1 || (c.1 == walk.cursor().1 && c.0
                    < walk.cursor().0)) ==> #[trigger] tile_at(g, c) != t,
        decreases height - walk.cursor().1, width - walk.cursor().0,
    {
        proof {
            lemma_valid_grid_has_cells(g);
        }
        match walk.next() {
            Some((tile, x, y)) => {
                if tile == t {
                    proof {
                        let w = find_tile(g, t);
                        assert(in_grid(g, (x, y)) && tile_at(g, (x, y)) == t);
                        lemma_unique_tile(g, t, w, (x, y));
                    }
                    return (x, y);
                }
            },
            None => {
                proof {
                    let w = lemma_count_in_grid_witness(g, t);
                    let c = (w.0 as usize, w.1 as usize);
                    assert(in_grid(g, c));
                    assert(tile_at(g, c) == t);
                }
                return unreached();
            },
        }
    }
}

impl Maze {
    /// What holds of every maze: its grid is valid, and the start and the
    /// end are the places of the `Start` and of the `End` tile.
    #[verifier::type_invariant]
    pub open spec fn wf(&self) -> bool {
        &&& is_valid_grid(self.grid())
        &&& in_grid(self.grid(), self.start())
        &&& tile_at(self.grid(), self.start()) == Tile::Start
        &&& in_grid(self.grid(), self.end())
        &&& tile_at(self.grid(), self.end()) == Tile::End
    }

    /// The grid of the maze.
    pub closed spec fn grid(&self) -> Grid {
        self.map@
    }

    /// The place of the `Start` tile.
    pub closed spec fn start(&self) -> Coordinates {
        self.start_coord
    }

    /// The place of the `End` tile.
    pub closed spec fn end(&self) -> Coordinates {
        self.end_coord
    }

    /// Every row of a maze has the maze's width, so the cells of the maze
    /// are the cells below its height and width.
    pub proof fn lemma_cells(&self)
        requires
            self.wf(),
        ensures
            forall|c: Coordinates|
                #[trigger] in_grid(self.grid(), c) <==> c.0 < grid_width(self.grid()) && c.1
                    < grid_height(self.grid()),
    {
        lemma_valid_grid_has_cells(self.grid());
    }

    /// The node of this maze at the cell `c`.
    pub closed spec fn node_at(self, c: Coordinates) -> MazeNode {
        MazeNode { coord: c, maze: Rc::new(self) }
    }

    /// The node of the `End` tile.
    pub open spec fn end_node(self) -> MazeNode {
        self.node_at(self.end())
    }

    /// The node of this maze at `c` has that cell and this maze.
    pub proof fn lemma_node_at(&self, c: Coordinates)
        ensures
            self.node_at(c)@ == c,
            self.node_at(c).maze() == *self,
    {
    }

    /// A node is pinned by its maze and its cell.
    pub proof fn lemma_node_pinned(&self, n: MazeNode)
        requires
            n.maze() == *self,
        ensures
            n == self.node_at(n@),
    {
    }

    /// The node at `coord`, or `None` where `coord` is outside the maze.
    pub fn get_node(self: &Rc<Self>, coord: (usize, usize)) -> (r: Option<MazeNode>)
        ensures
            r is Some <==> in_grid(self.grid(), coord),
            r is Some ==> r.unwrap()@ == coord && r.unwrap().maze() == **self && r.unwrap().wf(),
    {
        proof {
            use_type_invariant(&**self);
        }
        match self.map.get(coord.0, coord.1) {
            Some(_) => Some(MazeNode { coord, maze: share(self) }),
            None => None,
        }
    }

    /// The node of the `Start` tile.
    pub fn get_start(self: &Rc<Self>) -> (r: MazeNode)
        ensures
            r@ == self.start(),
            r.maze() == **self,
            r.wf(),
            tile_at(self.grid(), r@) == Tile::Start,
    {
        proof {
            use_type_invariant(&**self);
        }
        MazeNode { coord: self.start_coord, maze: share(self) }
    }

    /// The node of the `End` tile.
    pub fn get_end(self: &Rc<Self>) -> (r: MazeNode)
        ensures
            r@ == self.end(),
            r.maze() == **self,
            r.wf(),
            tile_at(self.grid(), r@) == Tile::End,
    {
        proof {
            use_type_invariant(&**self);
        }
        MazeNode { coord: self.end_coord, maze: share(self) }
    }

    /// The number of columns.
    pub fn width(&self) -> (w: usize)
        ensures
            w == grid_width(self.grid()),
            w > 0,
    {
        self.map.width()
    }

    /// The number of rows.
    pub fn height(&self) -> (h: usize)
        ensures
            h == grid_height(self.grid()),
            h > 0,
    {
        self.map.height()
    }

    /// The Manhattan distance between two cells, `|x1 - x2| + |y1 - y2|`,
    /// for cells whose distance fits the machine word.
    pub fn manhattan_distance(coord1: (usize, usize), coord2: (usize, usize)) -> (d: usize)
        requires
            manhattan(coord1, coord2) <= usize::MAX,
        ensures
            d == manhattan(coord1, coord2),
    {
        let dx: usize = if coord1.0 >= coord2.0 {
            coord1.0 - coord2.0
        } else {
            coord2.0 - coord1.0
        };
        let dy: usize = if coord1.1 >= coord2.1 {
            coord1.1 - coord2.1
        } else {
            coord2.1 - coord1.1
        };
        dx + dy
    }
}

impl From<TileMap> for Maze {
    /// The maze on `value`, with its start and its end located.
    fn from(value: TileMap) -> (r: Self)
        ensures
            r.grid() == value@,
            r.wf(),
    {
        proof {
            use_type_invariant(&value);
        }
        let start_coord = locate(&value, Tile::Start);
        let end_coord = locate(&value, Tile::End);
        Maze { map: value, start_coord, end_coord }
    }
}

impl FromSpecImpl<TileMap> for Maze {
    open spec fn obeys_from_spec() -> bool {
        true
    }

    closed spec fn from_spec(v: TileMap) -> Self {
        Maze {
            map: v,
            start_coord: find_tile(v@, Tile::Start),
            end_coord: find_tile(v@, Tile::End),
        }
    }
}

/// A handle on one cell of a maze: the cell's coordinates and a shared
/// reference to the maze. Two nodes are equal where their coordinates are.
#[derive(Debug)]
pub struct MazeNode {
    coord: (usize, usize),
    maze: Rc<Maze>,
}

impl View for MazeNode {
    type V = Coordinates;

    closed spec fn view(&self) -> Coordinates {
        self.coord
    }
}

impl MazeNode {
    /// What holds of every node: its maze is well formed and holds its cell.
    #[verifier::type_invariant]
    pub open spec fn wf(&self) -> bool {
        &&& self.maze().wf()
        &&& in_grid(self.maze().grid(), self@)
    }

    /// The maze that the node belongs to.
    pub closed spec fn maze(&self) -> Maze {
        *self.maze
    }

    /// The grid of the node's maze.
    pub open spec fn grid(&self) -> Grid {
        self.maze().grid()
    }

    /// The tile of the node's cell.
    pub fn get_tile(&self) -> (t: Tile)
        ensures
            t == tile_at(self.grid(), self@),
    {
        proof {
            use_type_invariant(self);
        }
        match self.maze.map.get(self.coord.0, self.coord.1) {
            Some(t) => t,
            None => unreached(),
        }
    }

    /// The node's column and row.
    pub fn get_coordinates(&self) -> (c: (usize, usize))
        ensures
            c == self@,
    {
        (self.coord.0, self.coord.1)
    }

    /// The node at `coord` in this node's maze, where that cell is open.
    fn open_node(&self, coord: (usize, usize)) -> (r: Option<MazeNode>)
        ensures
            node_is(r, self.maze(), if is_open(self.grid(), coord) {
                Some(coord)
            } else {
                None
            }),
    {
        match self.maze.get_node(coord) {
            Some(node) => {
                if node.get_tile() != Tile::Wall {
                    Some(node)
                } else {
                    None
                }
            },
            None => None,
        }
    }

    /// The open cells next to this node: `None` at the maze's border and
    /// where the cell on that side is a wall.
    pub fn get_neighbors(&self) -> (r: Neighbours)
        ensures
            node_is(r.up, self.maze(), up_of(self.grid(), self@)),
            node_is(r.left, self.maze(), left_of(self.grid(), self@)),
            node_is(r.down, self.maze(), down_of(self.grid(), self@)),
            node_is(r.right, self.maze(), right_of(self.grid(), self@)),
            r.coordinates() == open_neighbours(self.grid(), self@),
            forall|i: int| 0 <= i < r@.len() ==> (#[trigger] r@[i]).maze() == self.maze() && r@[i].wf(),
            forall|i: int|
                0 <= i < r.coordinates().len() ==> in_grid(self.grid(), #[trigger] r.coordinates()[i])
                    && tile_at(self.grid(), r.coordinates()[i]) != Tile::Wall,
    {
        proof {
            use_type_invariant(self);
            use_type_invariant(&*self.maze);
            lemma_valid_grid_has_cells(self.grid());
        }
        let x = self.coord.0;
        let y = self.coord.1;
        let up = if y == 0 {
            None
        } else {
            self.open_node((x, y - 1))
        };
        let left = if x == 0 {
            None
        } else {
            self.open_node((x - 1, y))
        };
        let down = if y == self.maze.height() - 1 {
            None
        } else {
            self.open_node((x, y + 1))
        };
        let right = if x == self.maze.width() - 1 {
            None
        } else {
            self.open_node((x + 1, y))
        };
        let r = Neighbours { up, left, down, right };
        proof {
            r.lemma_coordinates(self.maze(), self.grid(), self@);
        }
        r
    }
}

impl Clone for MazeNode {
    fn clone(&self) -> (r: Self)
        ensures
            r == *self,
    {
        proof {
            use_type_invariant(self);
        }
        MazeNode { coord: self.coord, maze: share(&self.maze) }
    }
}

impl PartialEqSpecImpl for MazeNode {
    open spec fn obeys_eq_spec() -> bool {
        true
    }

    open spec fn eq_spec(&self, other: &Self) -> bool {
        self@.0 == other@.0 && self@.1 == other@.1
    }
}

impl PartialEq for MazeNode {
    fn eq(&self, other: &Self) -> (r: bool) {
        self.coord.0 == other.coord.0 && self.coord.1 == other.coord.1
    }
}

/// Whether `n` is the node of `m` at the cell that `c` holds, or both are
/// `None`.
pub open spec fn node_is(n: Option<MazeNode>, m: Maze, c: Option<Coordinates>) -> bool {
    match (n, c) {
        (Some(n), Some(c)) => n@ == c && n.maze() == m && n.wf(),
        (None, None) => true,
        _ => false,
    }
}

/// The sequence of the one node that `o` holds, or of none.
pub open spec fn node_seq(o: Option<MazeNode>) -> Seq<MazeNode> {
    match o {
        Some(n) => seq![n],
        None => Seq::empty(),
    }
}

/// The coordinates of the nodes of `s`.
pub open spec fn coordinates_of(s: Seq<MazeNode>) -> Seq<Coordinates> {
    s.map_values(|n: MazeNode| n@)
}

/// The four sides of a node: on each the neighbour, or `None`.
pub struct Neighbours {
    pub up: Option<MazeNode>,
    pub left: Option<MazeNode>,
    pub down: Option<MazeNode>,
    pub right: Option<MazeNode>,
}

impl View for Neighbours {
    type V = Seq<MazeNode>;

    /// The neighbours that are there, in the order up, left, down, right.
    open spec fn view(&self) -> Seq<MazeNode> {
        node_seq(self.up) + node_seq(self.left) + node_seq(self.down) + node_seq(self.right)
    }
}

impl Neighbours {
    /// The cells of the neighbours that are there, in the order up, left,
    /// down, right.
    pub open spec fn coordinates(&self) -> Seq<Coordinates> {
        coordinates_of(self@)
    }

    /// Neighbours that stand on the four sides of `c` have the cells of
    /// `open_neighbours`.
    pub proof fn lemma_coordinates(self, m: Maze, g: Grid, c: Coordinates)
        requires
            node_is(self.up, m, up_of(g, c)),
            node_is(self.left, m, left_of(g, c)),
            node_is(self.down, m, down_of(g, c)),
            node_is(self.right, m, right_of(g, c)),
        ensures
            self.coordinates() == open_neighbours(g, c),
            forall|i: int| 0 <= i < self@.len() ==> (#[trigger] self@[i]).maze() == m && self@[i].wf(),
    {
        assert(self.coordinates() =~= coordinates_of(node_seq(self.up)) + coordinates_of(
            node_seq(self.left),
        ) + coordinates_of(node_seq(self.down)) + coordinates_of(node_seq(self.right)));
        assert(coordinates_of(node_seq(self.up)) =~= cell_seq(up_of(g, c)));
        assert(coordinates_of(node_seq(self.left)) =~= cell_seq(left_of(g, c)));
        assert(coordinates_of(node_seq(self.down)) =~= cell_seq(down_of(g, c)));
        assert(coordinates_of(node_seq(self.right)) =~= cell_seq(right_of(g, c)));
    }

    /// Hands the neighbours out one by one.
    pub fn into_iter(self) -> (r: NeighboursIter)
        ensures
            r@ == self@,
    {
        NeighboursIter(self)
    }
}

/// The neighbours of a node, handed out one by one: up, left, down, right,
/// each where it is there.
pub struct NeighboursIter(Neighbours);

impl View for NeighboursIter {
    type V = Seq<MazeNode>;

    /// The neighbours that are still to come, in their order.
    closed spec fn view(&self) -> Seq<MazeNode> {
        self.0@
    }
}

impl NeighboursIter {
    /// The next neighbour, or `None` when all were handed out.
    pub fn next(&mut self) -> (r: Option<MazeNode>)
        ensures
            old(self)@.len() == 0 ==> r is None && final(self)@ == old(self)@,
            old(self)@.len() > 0 ==> r == Some(old(self)@[0]) && final(self)@ == old(self)@.drop_first(),
    {
        if self.0.up.is_some() {
            let r = self.0.up.take();
            assert(self@ =~= old(self)@.drop_first());
            r
        } else if self.0.left.is_some() {
            let r = self.0.left.take();
            assert(self@ =~= old(self)@.drop_first());
            r
        } else if self.0.down.is_some() {
            let r = self.0.down.take();
            assert(self@ =~= old(self)@.drop_first());
            r
        } else {
            let r = self.0.right.take();
            assert(r is Some ==> self@ =~= old(self)@.drop_first());
            r
        }
    }
}

} // verus!
