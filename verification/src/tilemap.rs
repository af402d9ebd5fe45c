//! The validated rectangular table of tiles that a maze is built on.

use vstd::prelude::*;
use vstd::std_specs::convert::FromSpecImpl;
use vstd::std_specs::convert::TryFromSpecImpl;

verus! {

/// The fixed classification of one grid cell.
#[derive(Debug, Clone, Copy, PartialEq, Eq, Structural)]
pub enum Tile {
    Empty,
    Wall,
    Start,
    End,
}

/// How a renderer marks an empty tile while a search is running.
#[derive(Debug, Clone, Copy, PartialEq, Eq, Structural)]
pub enum EmptyTileState {
    Focused,
    Visited,
    Considering,
}

/// Why a table of tiles, or the text it is read from, is not a maze.
#[derive(Debug, Clone, Copy, PartialEq, Eq, Structural)]
pub enum ValidationError {
    /// The table has no row.
    EmptyMaze,
    /// Two rows differ in length.
    RaggedRows,
    /// The number of `Start` tiles is not one.
    MissingOrDuplicateStart,
    /// The number of `End` tiles is not one.
    MissingOrDuplicateEnd,
    /// The text holds a character that stands for no tile and is no blank.
    UnrecognizedTile,
}

/// What is wrong, in words.
pub open spec fn message_of(e: ValidationError) -> &'static str {
    match e {
        ValidationError::EmptyMaze => "TileMap cannot be empty",
        ValidationError::RaggedRows => "Rows have different lengths",
        ValidationError::MissingOrDuplicateStart => "TileMap must have exactly one Start tile",
        ValidationError::MissingOrDuplicateEnd => "TileMap must have exactly one End tile",
        ValidationError::UnrecognizedTile => "Expected values 0, 1, 2, or 3",
    }
}

impl ValidationError {
    /// What is wrong, in words.
    pub fn message(&self) -> (text: &'static str)
        ensures
            text == message_of(*self),
    {
        match self {
            ValidationError::EmptyMaze => "TileMap cannot be empty",
            ValidationError::RaggedRows => "Rows have different lengths",
            ValidationError::MissingOrDuplicateStart => "TileMap must have exactly one Start tile",
            ValidationError::MissingOrDuplicateEnd => "TileMap must have exactly one End tile",
            ValidationError::UnrecognizedTile => "Expected values 0, 1, 2, or 3",
        }
    }
}

/// The mathematical model of a grid: its rows from top to bottom.
pub type Grid = Seq<Seq<Tile>>;

/// A cell's column `x` and row `y`, both counted from zero.
pub type Coordinates = (usize, usize);

/// The number of tiles of kind `t` in one row.
pub open spec fn count_in_row(row: Seq<Tile>, t: Tile) -> nat
    decreases row.len(),
{
    if row.len() == 0 {
        0
    } else {
        count_in_row(row.drop_last(), t) + if row.last() == t {
            1nat
        } else {
            0nat
        }
    }
}

/// The number of tiles of kind `t` in the whole grid.
pub open spec fn count_in_grid(g: Grid, t: Tile) -> nat
    decreases g.len(),
{
    if g.len() == 0 {
        0
    } else {
        count_in_grid(g.drop_last(), t) + count_in_row(g.last(), t)
    }
}

/// Every row is as long as the first one.
pub open spec fn is_rectangular(g: Grid) -> bool {
    forall|i: int| 0 <= i < g.len() ==> (#[trigger] g[i]).len() == g[0].len()
}

/// The first rule that `g` breaks, in the order in which the rules are
/// tested, or `None` where it breaks none.
pub open spec fn validation_error(g: Grid) -> Option<ValidationError> {
    if g.len() == 0 {
        Some(ValidationError::EmptyMaze)
    } else if !is_rectangular(g) {
        Some(ValidationError::RaggedRows)
    } else if count_in_grid(g, Tile::Start) != 1 {
        Some(ValidationError::MissingOrDuplicateStart)
    } else if count_in_grid(g, Tile::End) != 1 {
        Some(ValidationError::MissingOrDuplicateEnd)
    } else {
        None
    }
}

/// A grid that a maze can be built on: at least one row, all rows of one
/// length, one `Start` tile and one `End` tile.
pub open spec fn is_valid_grid(g: Grid) -> bool {
    validation_error(g) is None
}

/// The number of rows of `g`.
pub open spec fn grid_height(g: Grid) -> nat {
    g.len()
}

/// The length of the first row of `g`, zero where there is none.
pub open spec fn grid_width(g: Grid) -> nat {
    if g.len() == 0 {
        0
    } else {
        g[0].len()
    }
}

/// Whether `c` names a cell of `g`.
pub open spec fn in_grid(g: Grid, c: Coordinates) -> bool {
    c.1 < g.len() && c.0 < g[c.1 as int].len()
}

/// The tile at `c`, for `c` inside `g`.
pub open spec fn tile_at(g: Grid, c: Coordinates) -> Tile
    recommends
        in_grid(g, c),
{
    g[c.1 as int][c.0 as int]
}

/// The grid that a vector of rows stands for.
pub open spec fn rows_view(rows: Seq<Vec<Tile>>) -> Grid {
    Seq::new(rows.len(), |i: int| rows[i]@)
}

/// `n` cut off at two: enough to tell one occurrence from none and from many.
pub open spec fn at_most_two(n: nat) -> nat {
    if n < 2 {
        n
    } else {
        2
    }
}

/// A row holds at least as many tiles of a kind as any of its prefixes.
pub proof fn lemma_count_in_row_take(row: Seq<Tile>, t: Tile, i: int)
    requires
        0 <= i < row.len(),
    ensures
        count_in_row(row.take(i + 1), t) == count_in_row(row.take(i), t) + if row[i] == t {
            1nat
        } else {
            0nat
        },
{
    assert(row.take(i + 1).drop_last() =~= row.take(i));
}

/// Counting over the first `i + 1` rows adds the count of row `i`.
pub proof fn lemma_count_in_grid_take(g: Grid, t: Tile, i: int)
    requires
        0 <= i < g.len(),
    ensures
        count_in_grid(g.take(i + 1), t) == count_in_grid(g.take(i), t) + count_in_row(g[i], t),
{
    assert(g.take(i + 1).drop_last() =~= g.take(i));
}

/// A tile of kind `t` at a place in a row is counted.
pub proof fn lemma_count_in_row_positive(row: Seq<Tile>, t: Tile, x: int)
    requires
        0 <= x < row.len(),
        row[x] == t,
    ensures
        count_in_row(row, t) >= 1,
    decreases row.len(),
{
    if x < row.len() - 1 {
        lemma_count_in_row_positive(row.drop_last(), t, x);
    }
}

/// A row that counts a tile of kind `t` holds one.
pub proof fn lemma_count_in_row_witness(row: Seq<Tile>, t: Tile) -> (x: int)
    requires
        count_in_row(row, t) >= 1,
    ensures
        0 <= x < row.len(),
        row[x] == t,
    decreases row.len(),
{
    if row.last() == t {
        row.len() - 1
    } else {
        lemma_count_in_row_witness(row.drop_last(), t)
    }
}

/// A grid that counts a tile of kind `t` holds one.
pub proof fn lemma_count_in_grid_witness(g: Grid, t: Tile) -> (c: (int, int))
    requires
        count_in_grid(g, t) >= 1,
    ensures
        0 <= c.1 < g.len(),
        0 <= c.0 < g[c.1].len(),
        g[c.1][c.0] == t,
    decreases g.len(),
{
    if count_in_row(g.last(), t) >= 1 {
        (lemma_count_in_row_witness(g.last(), t), g.len() - 1)
    } else {
        lemma_count_in_grid_witness(g.drop_last(), t)
    }
}

/// Two tiles of kind `t` at different places in a row count twice.
pub proof fn lemma_count_in_row_two(row: Seq<Tile>, t: Tile, x1: int, x2: int)
    requires
        0 <= x1 < x2 < row.len(),
        row[x1] == t,
        row[x2] == t,
    ensures
        count_in_row(row, t) >= 2,
    decreases row.len(),
{
    if x2 == row.len() - 1 {
        lemma_count_in_row_positive(row.drop_last(), t, x1);
    } else {
        lemma_count_in_row_two(row.drop_last(), t, x1, x2);
    }
}

/// A grid counts at least what one of its rows counts.
pub proof fn lemma_count_in_grid_row(g: Grid, t: Tile, y: int)
    requires
        0 <= y < g.len(),
    ensures
        count_in_grid(g, t) >= count_in_row(g[y], t),
    decreases g.len(),
{
    if y < g.len() - 1 {
        lemma_count_in_grid_row(g.drop_last(), t, y);
    }
}

/// A grid counts at least what two of its rows count together.
pub proof fn lemma_count_in_grid_two_rows(g: Grid, t: Tile, y1: int, y2: int)
    requires
        0 <= y1 < y2 < g.len(),
    ensures
        count_in_grid(g, t) >= count_in_row(g[y1], t) + count_in_row(g[y2], t),
    decreases g.len(),
{
    if y2 == g.len() - 1 {
        lemma_count_in_grid_row(g.drop_last(), t, y1);
    } else {
        lemma_count_in_grid_two_rows(g.drop_last(), t, y1, y2);
    }
}

/// Where a grid counts one tile of kind `t`, that tile has one place.
pub proof fn lemma_unique_tile(g: Grid, t: Tile, a: Coordinates, b: Coordinates)
    requires
        count_in_grid(g, t) == 1,
        in_grid(g, a),
        in_grid(g, b),
        tile_at(g, a) == t,
        tile_at(g, b) == t,
    ensures
        a == b,
{
    if a.1 == b.1 {
        lemma_count_in_grid_row(g, t, a.1 as int);
        if a.0 < b.0 {
            lemma_count_in_row_two(g[a.1 as int], t, a.0 as int, b.0 as int);
        } else if b.0 < a.0 {
            lemma_count_in_row_two(g[a.1 as int], t, b.0 as int, a.0 as int);
        }
    } else {
        lemma_count_in_row_positive(g[a.1 as int], t, a.0 as int);
        lemma_count_in_row_positive(g[b.1 as int], t, b.0 as int);
        if a.1 < b.1 {
            lemma_count_in_grid_two_rows(g, t, a.1 as int, b.1 as int);
        } else {
            lemma_count_in_grid_two_rows(g, t, b.1 as int, a.1 as int);
        }
    }
}

/// A valid grid has a column: its one `Start` tile stands in some row.
pub proof fn lemma_valid_grid_has_cells(g: Grid)
    requires
        is_valid_grid(g),
    ensures
        grid_height(g) > 0,
        grid_width(g) > 0,
        forall|y: int| 0 <= y < g.len() ==> (#[trigger] g[y]).len() == grid_width(g),
{
    let c = lemma_count_in_grid_witness(g, Tile::Start);
    assert(g[c.1].len() == g[0].len());
}

/// Counts the tiles of kind `t` in `row`, on top of `seen`, and stops
/// counting at two.
fn count_row_capped(row: &Vec<Tile>, t: Tile, seen: usize) -> (n: usize)
    requires
        seen <= 2,
    ensures
        n <= 2,
        forall|k: nat|
            seen == #[trigger] at_most_two(k) ==> n == at_most_two(k + count_in_row(row@, t)),
{
    let mut n: usize = seen;
    let mut i: usize = 0;
    while i < row.len()
        invariant
            i <= row.len(),
            n <= 2,
            forall|k: nat|
                seen == #[trigger] at_most_two(k) ==> n == at_most_two(
                    k + count_in_row(row@.take(i as int), t),
                ),
        decreases row.len() - i,
    {
        proof {
            lemma_count_in_row_take(row@, t, i as int);
        }
        if row[i] == t && n < 2 {
            n = n + 1;
        }
        i = i + 1;
    }
    proof {
        assert(row@.take(i as int) =~= row@);
    }
    n
}

/// Counts the tiles of kind `t` in `rows` and stops counting at two.
fn count_capped(rows: &Vec<Vec<Tile>>, t: Tile) -> (n: usize)
    ensures
        n == at_most_two(count_in_grid(rows_view(rows@), t)),
{
    let ghost g = rows_view(rows@);
    let mut n: usize = 0;
    let mut i: usize = 0;
    while i < rows.len()
        invariant
            i <= rows.len(),
            g == rows_view(rows@),
            n == at_most_two(count_in_grid(g.take(i as int), t)),
        decreases rows.len() - i,
    {
        proof {
            lemma_count_in_grid_take(g, t, i as int);
        }
        n = count_row_capped(&rows[i], t, n);
        i = i + 1;
    }
    proof {
        assert(g.take(i as int) =~= g);
    }
    n
}

/// Whether every row of `rows` is as long as the first.
fn all_rows_as_long_as_first(rows: &Vec<Vec<Tile>>) -> (b: bool)
    requires
        rows.len() > 0,
    ensures
        b == is_rectangular(rows_view(rows@)),
{
    let ghost g = rows_view(rows@);
    let first_len = rows[0].len();
    let mut i: usize = 0;
    while i < rows.len()
        invariant
            i <= rows.len(),
            rows.len() > 0,
            g == rows_view(rows@),
            first_len == g[0].len(),
            forall|j: int| 0 <= j < i ==> (#[trigger] g[j]).len() == first_len,
        decreases rows.len() - i,
    {
        if rows[i].len() != first_len {
            assert(g[i as int].len() != g[0].len());
            return false;
        }
        i = i + 1;
    }
    true
}

/// The tile that a character of a maze text stands for.
pub open spec fn tile_of_char(c: char) -> Option<Tile> {
    if c == '0' {
        Some(Tile::Empty)
    } else if c == '1' {
        Some(Tile::Wall)
    } else if c == '2' {
        Some(Tile::Start)
    } else if c == '3' {
        Some(Tile::End)
    } else {
        None
    }
}

/// A character that a maze text skips: a space, a tab or a carriage return.
pub open spec fn is_blank(c: char) -> bool {
    c == ' ' || c == '\t' || c == '\r'
}

/// A character that may stand in a maze text: a tile, a blank or a line end.
pub open spec fn is_maze_char(c: char) -> bool {
    tile_of_char(c) is Some || is_blank(c) || c == '\n'
}

/// The rows that `text` has closed with a line end, and the tiles of the
/// line that is still open. A line without tiles makes no row.
pub open spec fn scan_text(text: Seq<char>) -> (Grid, Seq<Tile>)
    decreases text.len(),
{
    if text.len() == 0 {
        (Seq::empty(), Seq::empty())
    } else {
        let (rows, open_row) = scan_text(text.drop_last());
        let c = text.last();
        if c == '\n' {
            (close_row(rows, open_row), Seq::empty())
        } else if tile_of_char(c) is Some {
            (rows, open_row.push(tile_of_char(c).unwrap()))
        } else {
            (rows, open_row)
        }
    }
}

/// `rows` with `open_row` added as its last row, unless that row is empty.
pub open spec fn close_row(rows: Grid, open_row: Seq<Tile>) -> Grid {
    if open_row.len() > 0 {
        rows.push(open_row)
    } else {
        rows
    }
}

/// The rows of tiles that `text` holds: one for each line with a tile.
pub open spec fn text_rows(text: Seq<char>) -> Grid {
    close_row(scan_text(text).0, scan_text(text).1)
}

/// What reading `text` as a maze ends in: the first broken rule, a
/// character that may not stand there counting before all others, or the
/// grid that the text holds.
pub open spec fn parse_text(text: Seq<char>) -> Result<Grid, ValidationError> {
    if exists|i: int| 0 <= i < text.len() && !is_maze_char(#[trigger] text[i]) {
        Err(ValidationError::UnrecognizedTile)
    } else {
        match validation_error(text_rows(text)) {
            Some(e) => Err(e),
            None => Ok(text_rows(text)),
        }
    }
}

/// Reads `text` into rows of tiles, or returns `None` at a character that
/// may not stand in a maze text.
fn read_rows(text: &str) -> (r: Option<Vec<Vec<Tile>>>)
    ensures
        r is None <==> exists|i: int| 0 <= i < text@.len() && !is_maze_char(#[trigger] text@[i]),
        r is Some ==> rows_view(r.unwrap()@) == text_rows(text@),
{
    let mut rows: Vec<Vec<Tile>> = Vec::new();
    let mut open_row: Vec<Tile> = Vec::new();
    for c in it: text.chars()
        invariant
            it.seq() == text@,
            forall|i: int| 0 <= i < it.index() ==> is_maze_char(#[trigger] text@[i]),
            rows_view(rows@) == scan_text(text@.take(it.index())).0,
            open_row@ == scan_text(text@.take(it.index())).1,
    {
        proof {
            assert(text@.take(it.index() + 1).drop_last() =~= text@.take(it.index()));
            assert(text@.take(it.index() + 1).last() == c);
        }
        if c == '\n' {
            if open_row.len() > 0 {
                let ghost before = rows@;
                rows.push(open_row);
                assert(rows_view(rows@) =~= rows_view(before).push(open_row@));
                open_row = Vec::new();
            }
        } else if c == '0' {
            open_row.push(Tile::Empty);
        } else if c == '1' {
            open_row.push(Tile::Wall);
        } else if c == '2' {
            open_row.push(Tile::Start);
        } else if c == '3' {
            open_row.push(Tile::End);
        } else if c == ' ' || c == '\t' || c == '\r' {
        } else {
            assert(!is_maze_char(text@[it.index()]));
            return None;
        }
    }
    proof {
        assert(text@.take(text@.len() as int) =~= text@);
    }
    if open_row.len() > 0 {
        let ghost before = rows@;
        rows.push(open_row);
        assert(rows_view(rows@) =~= rows_view(before).push(open_row@));
    }
    Some(rows)
}

/// A validated rectangular table of tiles: never empty, with exactly one
/// `Start` and exactly one `End`. It is not changed once it is built.
#[derive(Debug, PartialEq)]
pub struct TileMap(Vec<Vec<Tile>>);

impl View for TileMap {
    type V = Grid;

    closed spec fn view(&self) -> Grid {
        rows_view(self.0@)
    }
}

impl TileMap {
    /// What holds of every tile map: its grid is valid.
    #[verifier::type_invariant]
    pub open spec fn wf(&self) -> bool {
        is_valid_grid(self@)
    }

    /// The length of a row.
    pub fn width(&self) -> (w: usize)
        ensures
            w == grid_width(self@),
            w > 0,
    {
        proof {
            use_type_invariant(self);
            lemma_valid_grid_has_cells(self@);
        }
        self.0[0].len()
    }

    /// The number of rows.
    pub fn height(&self) -> (h: usize)
        ensures
            h == grid_height(self@),
            h > 0,
    {
        proof {
            use_type_invariant(self);
        }
        self.0.len()
    }

    /// The tile in column `x` of row `y`, or `None` outside the table.
    pub fn get(&self, x: usize, y: usize) -> (r: Option<Tile>)
        ensures
            r == if in_grid(self@, (x, y)) {
                Some(tile_at(self@, (x, y)))
            } else {
                None
            },
    {
        if y < self.0.len() {
            let row = &self.0[y];
            if x < row.len() {
                Some(row[x])
            } else {
                None
            }
        } else {
            None
        }
    }
}

impl Clone for TileMap {
    fn clone(&self) -> (r: Self)
        ensures
            r@ == self@,
    {
        proof {
            use_type_invariant(self);
        }
        let mut rows: Vec<Vec<Tile>> = Vec::new();
        let mut i: usize = 0;
        while i < self.0.len()
            invariant
                i <= self.0.len(),
                rows.len() == i,
                forall|j: int| 0 <= j < i ==> (#[trigger] rows[j])@ == self.0[j]@,
            decreases self.0.len() - i,
        {
            let row = self.0[i].clone();
            assert(row@ =~= self.0[i as int]@);
            rows.push(row);
            i = i + 1;
        }
        assert(rows_view(rows@) =~= rows_view(self.0@));
        TileMap(rows)
    }
}

impl TryFrom<Vec<Vec<Tile>>> for TileMap {
    type Error = ValidationError;

    /// Validates `value` and keeps it. The rules are tested in a fixed order
    /// and the first one broken is reported.
    fn try_from(value: Vec<Vec<Tile>>) -> (r: Result<Self, Self::Error>)
        ensures
            match r {
                Ok(map) => validation_error(rows_view(value@)) is None && map@ == rows_view(
                    value@,
                ),
                Err(e) => validation_error(rows_view(value@)) == Some(e),
            },
    {
        if value.len() == 0 {
            return Err(ValidationError::EmptyMaze);
        }
        if !all_rows_as_long_as_first(&value) {
            Err(ValidationError::RaggedRows)
        } else if count_capped(&value, Tile::Start) != 1 {
            Err(ValidationError::MissingOrDuplicateStart)
        } else if count_capped(&value, Tile::End) != 1 {
            Err(ValidationError::MissingOrDuplicateEnd)
        } else {
            Ok(TileMap(value))
        }
    }
}

impl TryFromSpecImpl<Vec<Vec<Tile>>> for TileMap {
    open spec fn obeys_try_from_spec() -> bool {
        true
    }

    closed spec fn try_from_spec(v: Vec<Vec<Tile>>) -> Result<Self, Self::Error> {
        match validation_error(rows_view(v@)) {
            Some(e) => Err(e),
            None => Ok(TileMap(v)),
        }
    }
}

impl TryFrom<String> for TileMap {
    type Error = ValidationError;

    /// Reads a maze text: `0` is an empty tile, `1` a wall, `2` the start
    /// and `3` the end; each line with a tile is a row; spaces, tabs and
    /// carriage returns are skipped.
    fn try_from(value: String) -> (r: Result<Self, Self::Error>)
        ensures
            match r {
                Ok(map) => parse_text(value@) == Ok::<Grid, ValidationError>(map@),
                Err(e) => parse_text(value@) == Err::<Grid, ValidationError>(e),
            },
    {
        match read_rows(value.as_str()) {
            None => Err(ValidationError::UnrecognizedTile),
            Some(rows) => TileMap::try_from(rows),
        }
    }
}

/// The view of the result is pinned by `parse_text`; the rows behind the view
/// are not, so the conversion claims no exact value.
impl TryFromSpecImpl<String> for TileMap {
    open spec fn obeys_try_from_spec() -> bool {
        false
    }

    open spec fn try_from_spec(v: String) -> Result<Self, Self::Error> {
        match parse_text(v@) {
            Ok(g) => Ok(choose|map: TileMap| map@ == g),
            Err(e) => Err(e),
        }
    }
}

/// A walk over the cells of a tile map, row by row from the top, each row
/// from the left. It holds a copy of the map and the cell that comes next.
pub struct TileMapIter(TileMap, usize, usize);

/// The cell that follows `c` in a walk over `g` row by row.
pub open spec fn next_cell(g: Grid, c: Coordinates) -> Coordinates {
    if c.0 + 1 < grid_width(g) {
        ((c.0 + 1) as usize, c.1)
    } else {
        (0, (c.1 + 1) as usize)
    }
}

/// What a walk over `g` returns at the cell `c`: the cell with its tile, or
/// `None` below the last row.
pub open spec fn cell_item(g: Grid, c: Coordinates) -> Option<(Tile, usize, usize)> {
    if c.1 < grid_height(g) {
        Some((tile_at(g, c), c.0, c.1))
    } else {
        None
    }
}

/// Where a walk over `g` stands after it was asked at the cell `c`.
pub open spec fn cursor_after(g: Grid, c: Coordinates) -> Coordinates {
    if c.1 < grid_height(g) {
        next_cell(g, c)
    } else {
        c
    }
}

impl TileMapIter {
    /// What holds of every such walk: the next cell is in a column of the
    /// map, and in a row of it or in the one below the last.
    #[verifier::type_invariant]
    pub closed spec fn wf(&self) -> bool {
        &&& self.0.wf()
        &&& self.1 < grid_width(self.0@)
        &&& self.2 <= grid_height(self.0@)
    }

    /// The grid that is walked over.
    pub closed spec fn grid(&self) -> Grid {
        self.0@
    }

    /// The cell that `next` returns next; its row is the grid's height once
    /// the walk is over.
    pub closed spec fn cursor(&self) -> Coordinates {
        (self.1, self.2)
    }

    /// The next cell with its tile, as `(tile, x, y)`, or `None` once every
    /// cell was returned.
    pub fn next(&mut self) -> (r: Option<(Tile, usize, usize)>)
        ensures
            final(self).grid() == old(self).grid(),
            r == cell_item(old(self).grid(), old(self).cursor()),
            final(self).cursor() == cursor_after(old(self).grid(), old(self).cursor()),
            r is Some ==> in_grid(old(self).grid(), old(self).cursor()),
    {
        proof {
            use_type_invariant(&*self);
            lemma_valid_grid_has_cells(self.0@);
        }
        let x = self.1;
        let y = self.2;
        if y >= self.0.height() {
            return None;
        }
        let width = self.0.width();
        let tile = match self.0.get(x, y) {
            Some(tile) => tile,
            None => Tile::Empty,
        };
        if x + 1 < width {
            self.1 = x + 1;
        } else {
            self.2 = y + 1;
            self.1 = 0;
        }
        Some((tile, x, y))
    }
}

impl<'a> From<&'a TileMap> for TileMapIter {
    /// A walk over a copy of `value`, starting at its top left cell.
    fn from(value: &'a TileMap) -> (r: Self)
        ensures
            r.grid() == value@,
            r.cursor() == (0usize, 0usize),
    {
        let map = value.clone();
        proof {
            use_type_invariant(&map);
            lemma_valid_grid_has_cells(map@);
        }
        TileMapIter(map, 0, 0)
    }
}

/// The walk holds a copy of the map, of which only the view is pinned, so
/// the conversion claims no exact value.
impl<'a> FromSpecImpl<&'a TileMap> for TileMapIter {
    open spec fn obeys_from_spec() -> bool {
        false
    }

    open spec fn from_spec(v: &'a TileMap) -> Self {
        choose|it: TileMapIter| it.grid() == v@ && it.cursor() == (0usize, 0usize)
    }
}

} // verus!
