//! What a renderer needs to show a search: the paint of each cell, the
//! runs of one paint in a column, the marks on the empty tiles, and the
//! step that moves a search on and updates the marks.

use crate::maze::coordinates_of;
use crate::maze::Maze;
use crate::maze::MazeNode;
use crate::search::path::Path;
use crate::search::best_path;
use crate::search::path_cells;
use crate::search::runs::step_of;
use crate::search::tails;
use crate::search::Frontier;
use crate::search::Searcher;
use crate::tilemap::grid_height;
use crate::tilemap::grid_width;
use crate::tilemap::in_grid;
use crate::tilemap::tile_at;
use crate::tilemap::Coordinates;
use crate::tilemap::EmptyTileState;
use crate::tilemap::Tile;
use std::rc::Rc;
use vstd::pervasive::unreached;
use vstd::prelude::*;

verus! {

/// The paints of a cell.
#[derive(Debug, Clone, Copy, PartialEq, Eq, Structural)]
pub enum Paint {
    /// The start tile.
    Start,
    /// The end tile.
    End,
    /// A wall.
    Wall,
    /// An empty tile that a path went over.
    Visited,
    /// An empty tile on the current path.
    Focused,
    /// An empty tile at the tail of a path of the frontier.
    Considering,
}

/// The paint of a cell with the tile `tile` and the mark `mark`: a tile
/// that is not empty has a paint of its own, an empty tile the paint of its
/// mark, and an empty tile without a mark has none.
pub open spec fn paint_for(tile: Tile, mark: Option<EmptyTileState>) -> Option<Paint> {
    match tile {
        Tile::Start => Some(Paint::Start),
        Tile::End => Some(Paint::End),
        Tile::Wall => Some(Paint::Wall),
        Tile::Empty => match mark {
            None => None,
            Some(EmptyTileState::Visited) => Some(Paint::Visited),
            Some(EmptyTileState::Focused) => Some(Paint::Focused),
            Some(EmptyTileState::Considering) => Some(Paint::Considering),
        },
    }
}

/// The paint of a cell with the tile `tile` and the mark `mark`.
pub fn paint_of(tile: Tile, mark: Option<EmptyTileState>) -> (paint: Option<Paint>)
    ensures
        paint == paint_for(tile, mark),
{
    match tile {
        Tile::Start => Some(Paint::Start),
        Tile::End => Some(Paint::End),
        Tile::Wall => Some(Paint::Wall),
        Tile::Empty => match mark {
            None => None,
            Some(EmptyTileState::Visited) => Some(Paint::Visited),
            Some(EmptyTileState::Focused) => Some(Paint::Focused),
            Some(EmptyTileState::Considering) => Some(Paint::Considering),
        },
    }
}

/// A run of cells of one paint in a column: `length` cells from the row
/// `start_idx` down.
#[derive(Debug, Clone, Copy, PartialEq, Eq, Structural)]
pub struct Streak {
    pub start_idx: usize,
    pub length: usize,
    pub paint: Paint,
}

/// The row below the last cell of `s`.
pub open spec fn streak_end(s: Streak) -> int {
    s.start_idx + s.length
}

/// Whether `s` lies in `column`, holds at least one cell, and every cell of
/// it has its paint.
pub open spec fn is_streak_in(s: Streak, column: Seq<Option<Paint>>) -> bool {
    &&& s.length >= 1
    &&& streak_end(s) <= column.len()
    &&& forall|y: int| s.start_idx <= y < streak_end(s) ==> #[trigger] column[y] == Some(s.paint)
}

/// Whether `s` cannot grow: the cells above and below it, where there are
/// any, are not of its paint.
pub open spec fn is_whole(s: Streak, column: Seq<Option<Paint>>) -> bool {
    &&& s.start_idx > 0 ==> column[s.start_idx - 1] != Some(s.paint)
    &&& streak_end(s) < column.len() ==> column[streak_end(s)] != Some(s.paint)
}

/// Whether `streaks` are the runs of `column`: each is a run that cannot
/// grow, they come from the top down without overlap, and every cell that
/// has a paint is in one of them.
pub open spec fn are_streaks_of(streaks: Seq<Streak>, column: Seq<Option<Paint>>) -> bool {
    &&& forall|i: int| 0 <= i < streaks.len() ==> is_streak_in(#[trigger] streaks[i], column)
    &&& forall|i: int| 0 <= i < streaks.len() ==> is_whole(#[trigger] streaks[i], column)
    &&& forall|i: int, j: int|
        0 <= i < j < streaks.len() ==> streak_end(#[trigger] streaks[i]) <= (
        #[trigger] streaks[j]).start_idx
    &&& forall|y: int|
        0 <= y < column.len() && (#[trigger] column[y]) is Some ==> exists|i: int|
            0 <= i < streaks.len() && (#[trigger] streaks[i]).start_idx <= y < streak_end(
                streaks[i],
            )
}

/// Whether `streaks` are the runs of the first `n` cells of `column`, a run
/// that reaches the cell `n` being left open: `open_run` holds where it
/// begins and its paint.
pub open spec fn are_streaks_so_far(
    streaks: Seq<Streak>,
    open_run: Option<(usize, Paint)>,
    column: Seq<Option<Paint>>,
    n: int,
) -> bool {
    &&& forall|i: int| 0 <= i < streaks.len() ==> is_streak_in(#[trigger] streaks[i], column)
    &&& forall|i: int| 0 <= i < streaks.len() ==> is_whole(#[trigger] streaks[i], column)
    &&& forall|i: int| 0 <= i < streaks.len() ==> streak_end(#[trigger] streaks[i]) <= n
    &&& forall|i: int, j: int|
        0 <= i < j < streaks.len() ==> streak_end(#[trigger] streaks[i]) <= (
        #[trigger] streaks[j]).start_idx
    &&& match open_run {
        Some((from, paint)) => {
            &&& from < n
            &&& forall|y: int| from <= y < n ==> #[trigger] column[y] == Some(paint)
            &&& from > 0 ==> column[from - 1] != Some(paint)
            &&& forall|i: int| 0 <= i < streaks.len() ==> streak_end(#[trigger] streaks[i]) <= from
            &&& forall|y: int|
                0 <= y < from && (#[trigger] column[y]) is Some ==> exists|i: int|
                    0 <= i < streaks.len() && (#[trigger] streaks[i]).start_idx <= y < streak_end(
                        streaks[i],
                    )
        },
        None => {
            &&& n > 0 ==> column[n - 1] is None
            &&& forall|y: int|
                0 <= y < n && (#[trigger] column[y]) is Some ==> exists|i: int|
                    0 <= i < streaks.len() && (#[trigger] streaks[i]).start_idx <= y < streak_end(
                        streaks[i],
                    )
        },
    }
}

/// The runs of one paint in `column`, from the top down: what a renderer
/// draws as one rectangle each. Cells without a paint are in no run.
pub fn column_streaks(column: &Vec<Option<Paint>>) -> (streaks: Vec<Streak>)
    ensures
        are_streaks_of(streaks@, column@),
{
    let mut streaks: Vec<Streak> = Vec::new();
    let mut open_run: Option<(usize, Paint)> = None;
    let mut y: usize = 0;
    while y < column.len()
        invariant
            y <= column.len(),
            are_streaks_so_far(streaks@, open_run, column@, y as int),
        decreases column.len() - y,
    {
        let ghost before = streaks@;
        let here = column[y];
        match open_run {
            Some((from, paint)) => {
                if here != Some(paint) {
                    let closed = Streak { start_idx: from, length: y - from, paint };
                    streaks.push(closed);
                    proof {
                        lemma_streak_added(before, closed, column@, y as int);
                    }
                    open_run = match here {
                        Some(next) => Some((y, next)),
                        None => None,
                    };
                }
            },
            None => {
                open_run = match here {
                    Some(next) => Some((y, next)),
                    None => None,
                };
            },
        }
        y = y + 1;
    }
    match open_run {
        Some((from, paint)) => {
            let ghost before = streaks@;
            let closed = Streak { start_idx: from, length: y - from, paint };
            streaks.push(closed);
            proof {
                lemma_streak_added(before, closed, column@, y as int);
            }
        },
        None => {},
    }
    streaks
}

/// Closing the open run at the cell `n` adds it to the runs so far.
proof fn lemma_streak_added(
    before: Seq<Streak>,
    closed: Streak,
    column: Seq<Option<Paint>>,
    n: int,
)
    requires
        0 <= n <= column.len(),
        are_streaks_so_far(before, Some((closed.start_idx, closed.paint)), column, n),
        closed.length == n - closed.start_idx,
        n < column.len() ==> column[n] != Some(closed.paint),
    ensures
        is_streak_in(closed, column),
        is_whole(closed, column),
        forall|i: int| 0 <= i < before.push(closed).len() ==> is_streak_in(
            #[trigger] before.push(closed)[i],
            column,
        ),
        forall|i: int| 0 <= i < before.push(closed).len() ==> is_whole(
            #[trigger] before.push(closed)[i],
            column,
        ),
        forall|i: int|
            0 <= i < before.push(closed).len() ==> streak_end(#[trigger] before.push(closed)[i])
                <= n,
        forall|i: int, j: int|
            0 <= i < j < before.push(closed).len() ==> streak_end(
                #[trigger] before.push(closed)[i],
            ) <= (#[trigger] before.push(closed)[j]).start_idx,
        forall|y: int|
            0 <= y < n && (#[trigger] column[y]) is Some ==> exists|i: int|
                0 <= i < before.push(closed).len() && (#[trigger] before.push(
                    closed,
                )[i]).start_idx <= y < streak_end(before.push(closed)[i]),
{
    let after = before.push(closed);
    assert forall|i: int| 0 <= i < after.len() implies is_streak_in(#[trigger] after[i], column)
        && is_whole(after[i], column) && streak_end(after[i]) <= n by {
        if i < before.len() {
            assert(after[i] == before[i]);
        }
    }
    assert forall|i: int, j: int| 0 <= i < j < after.len() implies streak_end(
        #[trigger] after[i],
    ) <= (#[trigger] after[j]).start_idx by {
        assert(after[i] == before[i]);
        if j < before.len() {
            assert(after[j] == before[j]);
        }
    }
    assert forall|y: int| 0 <= y < n && (#[trigger] column[y]) is Some implies exists|i: int|
        0 <= i < after.len() && (#[trigger] after[i]).start_idx <= y < streak_end(after[i]) by {
        if y < closed.start_idx {
            let i = choose|i: int|
                0 <= i < before.len() && (#[trigger] before[i]).start_idx <= y < streak_end(
                    before[i],
                );
            assert(after[i] == before[i]);
        } else {
            assert(after[before.len() as int] == closed);
        }
    }
}

/// What becomes of a mark when the search moves on: a tile that was on
/// the current path is one that a path went over.
pub open spec fn settled(mark: Option<EmptyTileState>) -> Option<EmptyTileState> {
    if mark == Some(EmptyTileState::Focused) {
        Some(EmptyTileState::Visited)
    } else {
        mark
    }
}

/// The marks on the cells of a maze: for each cell at most one.
pub struct TileMarks(Vec<Vec<Option<EmptyTileState>>>);

impl TileMarks {
    /// Whether the marks have a place for the cell `c`.
    pub closed spec fn has_cell(&self, c: Coordinates) -> bool {
        c.1 < self.0@.len() && c.0 < self.0@[c.1 as int]@.len()
    }

    /// The mark of the cell `c`, if it has one.
    pub closed spec fn mark_at(&self, c: Coordinates) -> Option<EmptyTileState> {
        if self.has_cell(c) {
            self.0@[c.1 as int]@[c.0 as int]
        } else {
            None
        }
    }

    /// Marks for `width` columns and `height` rows, with no cell marked.
    pub fn new(width: usize, height: usize) -> (marks: TileMarks)
        ensures
            forall|c: Coordinates| #[trigger] marks.has_cell(c) == (c.0 < width && c.1 < height),
            forall|c: Coordinates| (#[trigger] marks.mark_at(c)) is None,
    {
        let mut rows: Vec<Vec<Option<EmptyTileState>>> = Vec::new();
        let mut y: usize = 0;
        while y < height
            invariant
                y <= height,
                rows@.len() == y,
                forall|j: int| 0 <= j < y ==> (#[trigger] rows@[j])@.len() == width,
                forall|j: int, i: int|
                    0 <= j < y && 0 <= i < width ==> (#[trigger] rows@[j]@[i]) is None,
            decreases height - y,
        {
            let mut row: Vec<Option<EmptyTileState>> = Vec::new();
            let mut x: usize = 0;
            while x < width
                invariant
                    x <= width,
                    row@.len() == x,
                    forall|i: int| 0 <= i < x ==> (#[trigger] row@[i]) is None,
                decreases width - x,
            {
                row.push(None);
                x = x + 1;
            }
            rows.push(row);
            y = y + 1;
        }
        TileMarks(rows)
    }

    /// The mark of the cell in column `x` of row `y`, if it has one.
    pub fn get(&self, x: usize, y: usize) -> (mark: Option<EmptyTileState>)
        ensures
            mark == self.mark_at((x, y)),
    {
        if y < self.0.len() {
            let row = &self.0[y];
            if x < row.len() {
                row[x]
            } else {
                None
            }
        } else {
            None
        }
    }

    /// Marks the cell `coord` with `state`, in place of the mark that it
    /// has. A cell that the marks have no place for stays without a mark.
    pub fn insert(&mut self, coord: (usize, usize), state: EmptyTileState)
        ensures
            forall|c: Coordinates| #[trigger] final(self).has_cell(c) == old(self).has_cell(c),
            forall|c: Coordinates| #[trigger]
                final(self).mark_at(c) == if c == coord && old(self).has_cell(c) {
                    Some(state)
                } else {
                    old(self).mark_at(c)
                },
    {
        if coord.1 < self.0.len() {
            if coord.0 < self.0[coord.1].len() {
                self.0[coord.1][coord.0] = Some(state);
            }
        }
    }

    /// Turns the mark of every cell on the current path into that of a
    /// cell that a path went over.
    pub fn settle(&mut self)
        ensures
            forall|c: Coordinates| #[trigger] final(self).has_cell(c) == old(self).has_cell(c),
            forall|c: Coordinates| #[trigger] final(self).mark_at(c) == settled(old(self).mark_at(c)),
    {
        let mut y: usize = 0;
        while y < self.0.len()
            invariant
                y <= self.0.len(),
                self.0@.len() == old(self).0@.len(),
                forall|j: int|
                    0 <= j < self.0@.len() ==> (#[trigger] self.0@[j])@.len() == old(
                        self,
                    ).0@[j]@.len(),
                forall|c: Coordinates| #[trigger] self.has_cell(c) == old(self).has_cell(c),
                forall|c: Coordinates|
                    c.1 < y ==> #[trigger] self.mark_at(c) == settled(old(self).mark_at(c)),
                forall|c: Coordinates| c.1 >= y ==> #[trigger] self.mark_at(c) == old(self).mark_at(c),
            decreases self.0.len() - y,
        {
            let mut x: usize = 0;
            while x < self.0[y].len()
                invariant
                    y < self.0.len(),
                    x <= self.0[y as int].len(),
                    self.0@.len() == old(self).0@.len(),
                    forall|j: int|
                        0 <= j < self.0@.len() ==> (#[trigger] self.0@[j])@.len() == old(
                            self,
                        ).0@[j]@.len(),
                    forall|c: Coordinates| #[trigger] self.has_cell(c) == old(self).has_cell(c),
                    forall|c: Coordinates|
                        c.1 < y || (c.1 == y && c.0 < x) ==> #[trigger] self.mark_at(c) == settled(
                            old(self).mark_at(c),
                        ),
                    forall|c: Coordinates|
                        c.1 > y || (c.1 == y && c.0 >= x) ==> #[trigger] self.mark_at(c) == old(
                            self,
                        ).mark_at(c),
                decreases self.0[y as int].len() - x,
            {
                let ghost before = *self;
                match self.0[y][x] {
                    Some(EmptyTileState::Focused) => {
                        self.0[y][x] = Some(EmptyTileState::Visited);
                    },
                    _ => {},
                }
                proof {
                    assert forall|c: Coordinates| #[trigger]
                        self.mark_at(c) == if c == (x, y) {
                            settled(before.mark_at(c))
                        } else {
                            before.mark_at(c)
                        } by {
                        assert(self.has_cell(c) == before.has_cell(c));
                        if before.has_cell(c) && c.1 != y {
                            assert(self.0@[c.1 as int] == before.0@[c.1 as int]);
                        }
                    }
                }
                x = x + 1;
            }
            y = y + 1;
        }
    }
}

/// The mark of a cell after a step of the search: a cell on the current
/// path is on it, any other cell at the tail of a path of the frontier is
/// considered, and every other mark settles. `mark` is the mark before the
/// step, `held` whether the marks have a place for the cell.
pub open spec fn mark_after(
    mark: Option<EmptyTileState>,
    held: bool,
    considered: Seq<Coordinates>,
    path: Option<Seq<Coordinates>>,
    c: Coordinates,
) -> Option<EmptyTileState> {
    if !held {
        None
    } else if path is Some && path.unwrap().contains(c) {
        Some(EmptyTileState::Focused)
    } else if considered.contains(c) {
        Some(EmptyTileState::Considering)
    } else {
        settled(mark)
    }
}

/// One more cell of a sequence is among the cells looked at.
pub proof fn lemma_take_contains(cells: Seq<Coordinates>, i: int, c: Coordinates)
    requires
        0 <= i < cells.len(),
    ensures
        cells.take(i + 1).contains(c) <==> cells.take(i).contains(c) || cells[i] == c,
{
    let more = cells.take(i + 1);
    let fewer = cells.take(i);
    if more.contains(c) {
        let k = choose|k: int| 0 <= k < more.len() && more[k] == c;
        if k < i {
            assert(fewer[k] == c);
        }
    }
    if fewer.contains(c) {
        let k = choose|k: int| 0 <= k < fewer.len() && fewer[k] == c;
        assert(more[k] == c);
    }
    if cells[i] == c {
        assert(more[i] == c);
    }
}

impl TileMarks {
    /// Brings the marks up to the state of a search: the marks of the
    /// cells that were on the current path settle, the cells of
    /// `considered` are marked as considered, and the cells of `path` as
    /// being on the current path.
    pub fn update(&mut self, considered: &Vec<MazeNode>, path: Option<&Path>)
        ensures
            forall|c: Coordinates| #[trigger] final(self).has_cell(c) == old(self).has_cell(c),
            forall|c: Coordinates| #[trigger]
                final(self).mark_at(c) == mark_after(
                    old(self).mark_at(c),
                    old(self).has_cell(c),
                    coordinates_of(considered@),
                    path_cells(path),
                    c,
                ),
    {
        let ghost tails = coordinates_of(considered@);
        self.settle();
        let mut i: usize = 0;
        while i < considered.len()
            invariant
                i <= considered.len(),
                tails == coordinates_of(considered@),
                forall|c: Coordinates| #[trigger] self.has_cell(c) == old(self).has_cell(c),
                forall|c: Coordinates| #[trigger]
                    self.mark_at(c) == mark_after(
                        old(self).mark_at(c),
                        old(self).has_cell(c),
                        tails.take(i as int),
                        None,
                        c,
                    ),
            decreases considered.len() - i,
        {
            let ghost before = *self;
            self.insert(considered[i].get_coordinates(), EmptyTileState::Considering);
            proof {
                assert forall|c: Coordinates| #[trigger]
                    self.mark_at(c) == mark_after(
                        old(self).mark_at(c),
                        old(self).has_cell(c),
                        tails.take(i + 1),
                        None,
                        c,
                    ) by {
                    lemma_take_contains(tails, i as int, c);
                    assert(before.has_cell(c) == old(self).has_cell(c));
                }
            }
            i = i + 1;
        }
        assert(tails.take(i as int) =~= tails);
        match path {
            Some(path) => {
                let ghost cells = path.coordinates();
                for node in it: path.iter()
                    invariant
                        it.seq() == path@.as_ref(),
                        cells == path.coordinates(),
                        forall|c: Coordinates| #[trigger] self.has_cell(c) == old(self).has_cell(c),
                        forall|c: Coordinates| #[trigger]
                            self.mark_at(c) == mark_after(
                                old(self).mark_at(c),
                                old(self).has_cell(c),
                                tails,
                                Some(cells.take(it.index())),
                                c,
                            ),
                {
                    let ghost before = *self;
                    let ghost at = it.index();
                    assert(*node == path@[at]);
                    self.insert(node.get_coordinates(), EmptyTileState::Focused);
                    proof {
                        assert forall|c: Coordinates| #[trigger]
                            self.mark_at(c) == mark_after(
                                old(self).mark_at(c),
                                old(self).has_cell(c),
                                tails,
                                Some(cells.take(at + 1)),
                                c,
                            ) by {
                            lemma_take_contains(cells, at, c);
                            assert(before.has_cell(c) == old(self).has_cell(c));
                        }
                    }
                }
                assert(cells.take(cells.len() as int) =~= cells);
            },
            None => {},
        }
    }
}

/// The paints of the cells of column `x` of `maze`, from the top down,
/// with the marks `marks` on its empty tiles.
pub fn column_paints(maze: &Rc<Maze>, marks: &TileMarks, x: usize) -> (paints: Vec<Option<Paint>>)
    requires
        x < grid_width(maze.grid()),
    ensures
        paints@.len() == grid_height(maze.grid()),
        forall|y: int|
            0 <= y < paints@.len() ==> #[trigger] paints@[y] == paint_for(
                tile_at(maze.grid(), (x, y as usize)),
                marks.mark_at((x, y as usize)),
            ),
{
    proof {
        use_type_invariant(&**maze);
        maze.lemma_cells();
    }
    let height = maze.height();
    let mut paints: Vec<Option<Paint>> = Vec::new();
    let mut y: usize = 0;
    while y < height
        invariant
            y <= height,
            height == grid_height(maze.grid()),
            x < grid_width(maze.grid()),
            forall|c: Coordinates|
                #[trigger] in_grid(maze.grid(), c) <==> c.0 < grid_width(maze.grid()) && c.1
                    < grid_height(maze.grid()),
            paints@.len() == y,
            forall|j: int|
                0 <= j < y ==> #[trigger] paints@[j] == paint_for(
                    tile_at(maze.grid(), (x, j as usize)),
                    marks.mark_at((x, j as usize)),
                ),
        decreases height - y,
    {
        let tile = match maze.get_node((x, y)) {
            Some(node) => node.get_tile(),
            None => unreached(),
        };
        paints.push(paint_of(tile, marks.get(x, y)));
        y = y + 1;
    }
    paints
}

/// How a step of a search ended.
pub enum StepOutcome {
    /// The frontier was empty: nothing was expanded, and there is no path.
    NoPath,
    /// The step returned the end node: the search is over, and the path
    /// that was current before the step leads to the end.
    Found(Path),
    /// The step expanded a node that is not the end, and the frontier holds
    /// paths to go on with.
    Running,
    /// The step expanded a node that is not the end and left the frontier
    /// empty: there is no path.
    Exhausted,
}

/// Whether the path selected in `frontier` ends at a tile `End` of `m`.
pub open spec fn reaches_end(m: Maze, frontier: Frontier, i: int) -> bool {
    frontier.len() > 0 && tile_at(m.grid(), frontier[i].last()) == Tile::End
}

/// Moves a search on by one step and brings the marks up to it. A search
/// that returns the end node, or has nothing to expand, leaves the marks as
/// they are.
pub fn step<S: Searcher>(searcher: &mut S, marks: &mut TileMarks) -> (outcome: StepOutcome)
    requires
        old(searcher).wf(),
    ensures
        final(searcher).wf(),
        final(searcher).maze() == old(searcher).maze(),
        step_of(
            old(searcher).maze().grid(),
            old(searcher).frontier(),
            old(searcher).selected(),
            final(searcher).frontier(),
        ),
        outcome is NoPath <==> old(searcher).frontier().len() == 0,
        outcome is Found <==> reaches_end(
            old(searcher).maze(),
            old(searcher).frontier(),
            old(searcher).selected(),
        ),
        outcome is Found ==> outcome->Found_0.coordinates() == old(searcher).frontier()[old(
            searcher,
        ).selected()],
        outcome is Running ==> final(searcher).frontier().len() > 0,
        outcome is Exhausted ==> final(searcher).frontier().len() == 0,
        forall|c: Coordinates| #[trigger] final(marks).has_cell(c) == old(marks).has_cell(c),
        outcome is NoPath || outcome is Found ==> forall|c: Coordinates| #[trigger]
            final(marks).mark_at(c) == old(marks).mark_at(c),
        outcome is Running || outcome is Exhausted ==> forall|c: Coordinates| #[trigger]
            final(marks).mark_at(c) == mark_after(
                old(marks).mark_at(c),
                old(marks).has_cell(c),
                tails(final(searcher).frontier()),
                best_path(final(searcher).frontier(), final(searcher).selected()),
                c,
            ),
{
    let ghost m = searcher.maze();
    let path = match searcher.get_current_path() {
        Some(path) => path.clone(),
        None => {
            return StepOutcome::NoPath;
        },
    };
    let node = match searcher.develop_next_node() {
        Some(node) => node,
        None => unreached(),
    };
    proof {
        m.lemma_node_at(old(searcher).frontier()[old(searcher).selected()].last());
    }
    if node.get_tile() == Tile::End {
        return StepOutcome::Found(path);
    }
    let considered = searcher.get_considered_nodes();
    let current = searcher.get_current_path();
    marks.update(&considered, current);
    if current.is_some() {
        StepOutcome::Running
    } else {
        StepOutcome::Exhausted
    }
}

} // verus!
