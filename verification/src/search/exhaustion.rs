//! Why every search ends: each step expands one route, no route is expanded
//! twice, and a grid has only so many routes.

use crate::maze::cell_seq;
use crate::maze::down_of;
use crate::maze::is_open;
use crate::maze::left_of;
use crate::maze::open_neighbours;
use crate::maze::right_of;
use crate::maze::up_of;
use crate::search::expand;
use crate::search::path::extensions;
use crate::search::path::fresh_cells;
use crate::search::path::lemma_extensions_simple;
use crate::search::runs::all_routes;
use crate::search::runs::is_run;
use crate::search::runs::lemma_children_are_routes;
use crate::search::runs::lemma_run_routes;
use crate::search::runs::step_of;
use crate::search::walks::is_route;
use crate::search::Frontier;
use crate::tilemap::grid_height;
use crate::tilemap::grid_width;
use crate::tilemap::in_grid;
use crate::tilemap::is_rectangular;
use crate::tilemap::Coordinates;
use crate::tilemap::Grid;
use vstd::prelude::*;
use vstd::set_lib::lemma_int_range;
use vstd::set_lib::lemma_len_subset;
use vstd::set_lib::set_int_range;

verus! {

/// The number of cells of a rectangular grid.
pub open spec fn cell_count(g: Grid) -> nat {
    grid_width(g) * grid_height(g)
}

/// The number of a cell when the cells are counted row by row.
pub open spec fn cell_number(g: Grid, c: Coordinates) -> int {
    c.1 * grid_width(g) + c.0
}

/// Counting row by row gives each cell of a rectangular grid a number of
/// its own below the number of cells.
pub proof fn lemma_cell_number(g: Grid, a: Coordinates, b: Coordinates)
    requires
        is_rectangular(g),
        in_grid(g, a),
        in_grid(g, b),
    ensures
        0 <= cell_number(g, a) < cell_count(g),
        cell_number(g, a) == cell_number(g, b) ==> a == b,
{
    let w = grid_width(g) as int;
    let h = grid_height(g) as int;
    assert(g[a.1 as int].len() == g[0].len());
    assert(g[b.1 as int].len() == g[0].len());
    let (ax, ay, bx, by) = (a.0 as int, a.1 as int, b.0 as int, b.1 as int);
    assert(ay * w + ax < w * h) by (nonlinear_arith)
        requires
            0 <= ax < w,
            0 <= ay < h,
    ;
    assert(0 <= ay * w + ax) by (nonlinear_arith)
        requires
            0 <= ax < w,
            0 <= ay < h,
    ;
    if cell_number(g, a) == cell_number(g, b) {
        assert(ay == by) by (nonlinear_arith)
            requires
                0 <= ax < w,
                0 <= bx < w,
                0 <= ay,
                0 <= by,
                ay * w + ax == by * w + bx,
        ;
    }
}

/// A sequence of cells of a rectangular grid without a repeated cell is at
/// most as long as the grid has cells.
pub proof fn lemma_route_fits(g: Grid, p: Seq<Coordinates>)
    requires
        is_rectangular(g),
        p.no_duplicates(),
        forall|i: int| 0 <= i < p.len() ==> in_grid(g, #[trigger] p[i]),
    ensures
        p.len() <= cell_count(g),
{
    let numbers = p.map_values(|c: Coordinates| cell_number(g, c));
    assert forall|i: int, j: int|
        0 <= i < numbers.len() && 0 <= j < numbers.len() && i != j implies numbers[i]
        != numbers[j] by {
        lemma_cell_number(g, p[i], p[j]);
    }
    numbers.unique_seq_to_set();
    let all = set_int_range(0, cell_count(g) as int);
    lemma_int_range(0, cell_count(g) as int);
    assert forall|n: int| numbers.to_set().contains(n) implies all.contains(n) by {
        let i = choose|i: int| 0 <= i < numbers.len() && numbers[i] == n;
        lemma_cell_number(g, p[i], p[i]);
    }
    lemma_len_subset(numbers.to_set(), all);
}

/// What the path `p` with the cell that `o` holds appended has in store,
/// where `o` holds a cell that `p` does not hold; else nothing.
pub open spec fn in_store_beyond(g: Grid, p: Seq<Coordinates>, o: Option<Coordinates>) -> nat
    decreases cell_count(g) - p.len(), 0nat,
{
    match o {
        Some(c) => if p.contains(c) || p.len() >= cell_count(g) {
            0
        } else {
            in_store(g, p.push(c))
        },
        None => 0,
    }
}

/// The number of steps that a search spends on the path `p`: one to expand
/// it, and what each of its children has in store.
pub open spec fn in_store(g: Grid, p: Seq<Coordinates>) -> nat
    decreases cell_count(g) - p.len(), 1nat,
{
    if p.len() == 0 || p.len() >= cell_count(g) {
        1
    } else {
        1 + in_store_beyond(g, p, up_of(g, p.last())) + in_store_beyond(g, p, left_of(g, p.last()))
            + in_store_beyond(g, p, down_of(g, p.last())) + in_store_beyond(
            g,
            p,
            right_of(g, p.last()),
        )
    }
}

/// The number of steps that a search spends on the paths of `frontier`.
pub open spec fn steps_left(g: Grid, frontier: Frontier) -> nat
    decreases frontier.len(),
{
    if frontier.len() == 0 {
        0
    } else {
        steps_left(g, frontier.drop_last()) + in_store(g, frontier.last())
    }
}

/// The frontier of one path has in store what the path has.
pub proof fn lemma_steps_left_one(g: Grid, p: Seq<Coordinates>)
    ensures
        steps_left(g, seq![p]) == in_store(g, p),
{
    assert(seq![p].drop_last() =~= Seq::<Seq<Coordinates>>::empty());
    assert(steps_left(g, seq![p].drop_last()) == 0);
    assert(seq![p].last() == p);
}

/// The steps of two frontiers put together add up.
pub proof fn lemma_steps_left_add(g: Grid, a: Frontier, b: Frontier)
    ensures
        steps_left(g, a + b) == steps_left(g, a) + steps_left(g, b),
    decreases b.len(),
{
    if b.len() == 0 {
        assert(a + b =~= a);
    } else {
        assert((a + b).drop_last() =~= a + b.drop_last());
        lemma_steps_left_add(g, a, b.drop_last());
    }
}

/// Taking a path out of a frontier takes out what the path has in store.
pub proof fn lemma_steps_left_remove(g: Grid, frontier: Frontier, i: int)
    requires
        0 <= i < frontier.len(),
    ensures
        steps_left(g, frontier.remove(i)) + in_store(g, frontier[i]) == steps_left(g, frontier),
{
    let before = frontier.take(i);
    let after = frontier.skip(i + 1);
    assert(frontier =~= before + seq![frontier[i]] + after);
    assert(frontier.remove(i) =~= before + after);
    lemma_steps_left_add(g, before, after);
    lemma_steps_left_add(g, before + seq![frontier[i]], after);
    lemma_steps_left_add(g, before, seq![frontier[i]]);
    lemma_steps_left_one(g, frontier[i]);
}

/// Every path has a step in store, so only the empty frontier has none.
pub proof fn lemma_steps_left_positive(g: Grid, frontier: Frontier)
    ensures
        steps_left(g, frontier) >= frontier.len(),
    decreases frontier.len(),
{
    if frontier.len() > 0 {
        lemma_steps_left_positive(g, frontier.drop_last());
    }
}

/// The children of `p` towards one side, as paths.
pub open spec fn children_towards(p: Seq<Coordinates>, o: Option<Coordinates>) -> Frontier {
    fresh_cells(p, cell_seq(o)).map_values(|c: Coordinates| p.push(c))
}

/// The child of a path towards one side has in store what the path has in
/// store beyond that side.
pub proof fn lemma_steps_left_towards(g: Grid, p: Seq<Coordinates>, o: Option<Coordinates>)
    requires
        0 < p.len() < cell_count(g),
    ensures
        steps_left(g, children_towards(p, o)) == in_store_beyond(g, p, o),
{
    reveal_with_fuel(Seq::filter, 2);
    let children = children_towards(p, o);
    match o {
        Some(c) => {
            assert(cell_seq(o).drop_last() =~= Seq::<Coordinates>::empty());
            if p.contains(c) {
                assert(fresh_cells(p, cell_seq(o)) =~= Seq::<Coordinates>::empty());
                assert(children =~= Seq::<Seq<Coordinates>>::empty());
            } else {
                assert(fresh_cells(p, cell_seq(o)) =~= seq![c]);
                assert(children =~= seq![p.push(c)]);
                lemma_steps_left_one(g, p.push(c));
            }
        },
        None => {
            assert(fresh_cells(p, cell_seq(o)) =~= Seq::<Coordinates>::empty());
            assert(children =~= Seq::<Seq<Coordinates>>::empty());
        },
    }
}

/// The children of a path are its children towards the four sides.
pub proof fn lemma_extensions_by_side(g: Grid, p: Seq<Coordinates>)
    requires
        p.len() > 0,
    ensures
        extensions(g, p) == children_towards(p, up_of(g, p.last())) + children_towards(
            p,
            left_of(g, p.last()),
        ) + children_towards(p, down_of(g, p.last())) + children_towards(p, right_of(g, p.last())),
{
    let pred = |c: Coordinates| !p.contains(c);
    let up = cell_seq(up_of(g, p.last()));
    let left = cell_seq(left_of(g, p.last()));
    let down = cell_seq(down_of(g, p.last()));
    let right = cell_seq(right_of(g, p.last()));
    Seq::filter_distributes_over_add(up, left, pred);
    Seq::filter_distributes_over_add(up + left, down, pred);
    Seq::filter_distributes_over_add(up + left + down, right, pred);
    assert(fresh_cells(p, open_neighbours(g, p.last())) == fresh_cells(p, up) + fresh_cells(
        p,
        left,
    ) + fresh_cells(p, down) + fresh_cells(p, right));
    assert(extensions(g, p) =~= children_towards(p, up_of(g, p.last())) + children_towards(
        p,
        left_of(g, p.last()),
    ) + children_towards(p, down_of(g, p.last())) + children_towards(p, right_of(g, p.last())));
}

/// The children of a route have in store what the route has, less the one
/// step that expands the route.
pub proof fn lemma_steps_left_children(g: Grid, start: Coordinates, p: Seq<Coordinates>)
    requires
        is_rectangular(g),
        is_route(g, start, p),
    ensures
        steps_left(g, extensions(g, p)) + 1 == in_store(g, p),
{
    let children = extensions(g, p);
    if p.len() >= cell_count(g) {
        if children.len() > 0 {
            lemma_children_are_routes(g, start, p, 0);
            lemma_extensions_simple(g, p, 0);
            lemma_route_fits(g, children[0]);
        }
    } else {
        let up = children_towards(p, up_of(g, p.last()));
        let left = children_towards(p, left_of(g, p.last()));
        let down = children_towards(p, down_of(g, p.last()));
        let right = children_towards(p, right_of(g, p.last()));
        lemma_extensions_by_side(g, p);
        lemma_steps_left_add(g, up, left);
        lemma_steps_left_add(g, up + left, down);
        lemma_steps_left_add(g, up + left + down, right);
        lemma_steps_left_towards(g, p, up_of(g, p.last()));
        lemma_steps_left_towards(g, p, left_of(g, p.last()));
        lemma_steps_left_towards(g, p, down_of(g, p.last()));
        lemma_steps_left_towards(g, p, right_of(g, p.last()));
    }
}

/// Expanding a path of a frontier of routes leaves one step less.
pub proof fn lemma_steps_left_expand(g: Grid, start: Coordinates, frontier: Frontier, i: int)
    requires
        is_rectangular(g),
        all_routes(g, start, frontier),
        0 <= i < frontier.len(),
    ensures
        steps_left(g, expand(g, frontier, i)) + 1 == steps_left(g, frontier),
{
    lemma_steps_left_remove(g, frontier, i);
    lemma_steps_left_add(g, frontier.remove(i), extensions(g, frontier[i]));
    lemma_steps_left_children(g, start, frontier[i]);
}

/// The number of steps after which a search on `g` from `start` has
/// nothing left to expand.
pub open spec fn search_length(g: Grid, start: Coordinates) -> nat {
    in_store(g, seq![start])
}

/// Every search ends, whatever rule selects the paths: the frontier is
/// empty after `search_length` steps, and not before.
pub proof fn lemma_run_ends(
    g: Grid,
    start: Coordinates,
    frontiers: Seq<Frontier>,
    picks: Seq<int>,
    k: int,
)
    requires
        is_run(g, start, frontiers, picks),
        is_rectangular(g),
        is_open(g, start),
        0 <= k < frontiers.len(),
    ensures
        frontiers[k].len() == 0 <==> k >= search_length(g, start),
        steps_left(g, frontiers[k]) == if k >= search_length(g, start) {
            0
        } else {
            search_length(g, start) - k
        },
    decreases k,
{
    lemma_steps_left_positive(g, frontiers[k]);
    if k == 0 {
        lemma_steps_left_one(g, seq![start]);
    } else {
        lemma_run_ends(g, start, frontiers, picks, k - 1);
        lemma_run_routes(g, start, frontiers, picks, k - 1);
        lemma_steps_left_positive(g, frontiers[k - 1]);
        assert(step_of(g, frontiers[k - 1], picks[k - 1], frontiers[k]));
        if frontiers[k - 1].len() > 0 {
            lemma_steps_left_expand(g, start, frontiers[k - 1], picks[k - 1]);
        }
    }
}

} // verus!
