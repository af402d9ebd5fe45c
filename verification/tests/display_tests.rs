use maze_runner_rs::display::{
    column_paints, column_streaks, paint_of, step, Paint, StepOutcome, Streak, TileMarks,
};
use maze_runner_rs::maze::Maze;
use maze_runner_rs::search::a_star::{manhattan_heuristic, AStarSearcher};
use maze_runner_rs::search::bfs::BreadthFirstSearcher;
use maze_runner_rs::search::dfs::DepthFirstSearcher;
use maze_runner_rs::search::path::Path;
use maze_runner_rs::search::Searcher;
use maze_runner_rs::tilemap::{EmptyTileState, Tile, TileMap};
use std::rc::Rc;

fn maze_of(text: &str) -> Rc<Maze> {
    let map = TileMap::try_from(String::from(text)).unwrap();
    Rc::new(Maze::from(map))
}

fn path_of(maze: &Rc<Maze>, cells: &[(usize, usize)]) -> Path {
    let mut path = Path::new();
    for c in cells {
        path.push(maze.get_node(*c).unwrap());
    }
    path
}

fn streak(start_idx: usize, length: usize, paint: Paint) -> Streak {
    Streak { start_idx, length, paint }
}

fn marks_of(marks: &TileMarks, width: usize, height: usize) -> Vec<Vec<Option<EmptyTileState>>> {
    (0..height).map(|y| (0..width).map(|x| marks.get(x, y)).collect()).collect()
}

const V: Option<EmptyTileState> = Some(EmptyTileState::Visited);
const F: Option<EmptyTileState> = Some(EmptyTileState::Focused);
const C: Option<EmptyTileState> = Some(EmptyTileState::Considering);
const N: Option<EmptyTileState> = None;

const CORRIDOR: &str = "2 0 1\n1 0 1\n1 0 3";

#[test]
fn a_tile_that_is_not_empty_has_its_own_paint() {
    for mark in [N, V, F, C] {
        assert_eq!(paint_of(Tile::Start, mark), Some(Paint::Start));
        assert_eq!(paint_of(Tile::End, mark), Some(Paint::End));
        assert_eq!(paint_of(Tile::Wall, mark), Some(Paint::Wall));
    }
}

#[test]
fn an_empty_tile_has_the_paint_of_its_mark() {
    assert_eq!(paint_of(Tile::Empty, N), None);
    assert_eq!(paint_of(Tile::Empty, V), Some(Paint::Visited));
    assert_eq!(paint_of(Tile::Empty, F), Some(Paint::Focused));
    assert_eq!(paint_of(Tile::Empty, C), Some(Paint::Considering));
}

#[test]
fn a_column_without_cells_has_no_streak() {
    assert_eq!(column_streaks(&vec![]), vec![]);
}

#[test]
fn a_column_without_paint_has_no_streak() {
    assert_eq!(column_streaks(&vec![None, None, None]), vec![]);
}

#[test]
fn a_column_of_one_paint_is_one_streak() {
    let column = vec![Some(Paint::Wall); 4];
    assert_eq!(column_streaks(&column), vec![streak(0, 4, Paint::Wall)]);
    assert_eq!(column_streaks(&vec![Some(Paint::End)]), vec![streak(0, 1, Paint::End)]);
}

#[test]
fn a_streak_ends_where_the_paint_changes() {
    let column = vec![
        Some(Paint::Start),
        Some(Paint::Wall),
        Some(Paint::Wall),
        Some(Paint::Visited),
        Some(Paint::Wall),
    ];
    assert_eq!(
        column_streaks(&column),
        vec![
            streak(0, 1, Paint::Start),
            streak(1, 2, Paint::Wall),
            streak(3, 1, Paint::Visited),
            streak(4, 1, Paint::Wall),
        ]
    );
}

#[test]
fn cells_without_paint_part_the_streaks() {
    let column = vec![
        None,
        Some(Paint::Wall),
        Some(Paint::Wall),
        None,
        None,
        Some(Paint::Wall),
        Some(Paint::Focused),
        Some(Paint::Focused),
        None,
    ];
    assert_eq!(
        column_streaks(&column),
        vec![streak(1, 2, Paint::Wall), streak(5, 1, Paint::Wall), streak(6, 2, Paint::Focused)]
    );
}

#[test]
fn new_marks_mark_no_cell() {
    let marks = TileMarks::new(3, 2);
    assert_eq!(marks_of(&marks, 4, 3), vec![vec![N; 4]; 3]);
}

#[test]
fn insert_marks_one_cell() {
    let mut marks = TileMarks::new(3, 2);
    marks.insert((2, 1), EmptyTileState::Considering);
    marks.insert((0, 0), EmptyTileState::Focused);
    assert_eq!(marks_of(&marks, 3, 2), vec![vec![F, N, N], vec![N, N, C]]);
    marks.insert((2, 1), EmptyTileState::Visited);
    assert_eq!(marks_of(&marks, 3, 2), vec![vec![F, N, N], vec![N, N, V]]);
}

#[test]
fn insert_outside_the_marks_changes_nothing() {
    let mut marks = TileMarks::new(3, 2);
    marks.insert((3, 0), EmptyTileState::Focused);
    marks.insert((0, 2), EmptyTileState::Focused);
    marks.insert((usize::MAX, usize::MAX), EmptyTileState::Focused);
    assert_eq!(marks_of(&marks, 5, 4), vec![vec![N; 5]; 4]);
}

#[test]
fn settle_turns_focused_into_visited() {
    let mut marks = TileMarks::new(2, 2);
    marks.insert((0, 0), EmptyTileState::Focused);
    marks.insert((1, 0), EmptyTileState::Considering);
    marks.insert((0, 1), EmptyTileState::Visited);
    marks.settle();
    assert_eq!(marks_of(&marks, 2, 2), vec![vec![V, C], vec![V, N]]);
    marks.settle();
    assert_eq!(marks_of(&marks, 2, 2), vec![vec![V, C], vec![V, N]]);
}

#[test]
fn update_settles_then_marks_the_tails_then_the_path() {
    let maze = maze_of("2 0 0\n0 0 0\n0 0 3");
    let mut marks = TileMarks::new(3, 3);
    marks.insert((0, 0), EmptyTileState::Focused);
    marks.insert((2, 2), EmptyTileState::Focused);
    marks.insert((0, 2), EmptyTileState::Considering);
    let considered = vec![maze.get_node((1, 1)).unwrap(), maze.get_node((2, 0)).unwrap()];
    let path = path_of(&maze, &[(0, 0), (1, 0), (1, 1)]);
    marks.update(&considered, Some(&path));
    assert_eq!(marks_of(&marks, 3, 3), vec![vec![F, F, C], vec![N, F, N], vec![C, N, V]]);
}

#[test]
fn update_without_a_path_marks_the_tails_only() {
    let maze = maze_of("2 0 0\n0 0 0\n0 0 3");
    let mut marks = TileMarks::new(3, 3);
    marks.insert((1, 0), EmptyTileState::Focused);
    marks.update(&vec![maze.get_node((1, 1)).unwrap()], None);
    assert_eq!(marks_of(&marks, 3, 3), vec![vec![N, V, N], vec![N, C, N], vec![N, N, N]]);
}

#[test]
fn a_column_is_painted_by_tile_and_mark() {
    let maze = maze_of("2 0 1\n1 0 1\n1 0 3");
    let mut marks = TileMarks::new(3, 3);
    marks.insert((1, 0), EmptyTileState::Visited);
    marks.insert((1, 1), EmptyTileState::Focused);
    marks.insert((0, 0), EmptyTileState::Focused);
    marks.insert((2, 2), EmptyTileState::Considering);
    assert_eq!(
        column_paints(&maze, &marks, 0),
        vec![Some(Paint::Start), Some(Paint::Wall), Some(Paint::Wall)]
    );
    assert_eq!(
        column_paints(&maze, &marks, 1),
        vec![Some(Paint::Visited), Some(Paint::Focused), None]
    );
    assert_eq!(
        column_paints(&maze, &marks, 2),
        vec![Some(Paint::Wall), Some(Paint::Wall), Some(Paint::End)]
    );
    assert_eq!(
        column_streaks(&column_paints(&maze, &marks, 0)),
        vec![streak(0, 1, Paint::Start), streak(1, 2, Paint::Wall)]
    );
}

#[test]
fn steps_through_the_corridor() {
    let maze = maze_of(CORRIDOR);
    let mut searcher = BreadthFirstSearcher::new(&maze);
    let mut marks = TileMarks::new(maze.width(), maze.height());
    assert!(matches!(step(&mut searcher, &mut marks), StepOutcome::Running));
    assert_eq!(marks_of(&marks, 3, 3), vec![vec![F, F, N], vec![N, N, N], vec![N, N, N]]);
    assert!(matches!(step(&mut searcher, &mut marks), StepOutcome::Running));
    assert_eq!(marks_of(&marks, 3, 3), vec![vec![F, F, N], vec![N, F, N], vec![N, N, N]]);
    assert!(matches!(step(&mut searcher, &mut marks), StepOutcome::Running));
    assert!(matches!(step(&mut searcher, &mut marks), StepOutcome::Running));
    assert_eq!(marks_of(&marks, 3, 3), vec![vec![F, F, N], vec![N, F, N], vec![N, F, F]]);
    match step(&mut searcher, &mut marks) {
        StepOutcome::Found(path) => {
            let cells: Vec<(usize, usize)> = path.iter().map(|n| n.get_coordinates()).collect();
            assert_eq!(cells, vec![(0, 0), (1, 0), (1, 1), (1, 2), (2, 2)]);
        }
        _ => panic!("the end was not found"),
    }
    assert_eq!(marks_of(&marks, 3, 3), vec![vec![F, F, N], vec![N, F, N], vec![N, F, F]]);
}

#[test]
fn a_step_marks_what_the_search_left_behind() {
    let maze = maze_of("2 0 0\n0 0 0\n0 0 3");
    let mut searcher = BreadthFirstSearcher::new(&maze);
    let mut marks = TileMarks::new(3, 3);
    assert!(matches!(step(&mut searcher, &mut marks), StepOutcome::Running));
    assert_eq!(marks_of(&marks, 3, 3), vec![vec![F, C, N], vec![F, N, N], vec![N, N, N]]);
    assert!(matches!(step(&mut searcher, &mut marks), StepOutcome::Running));
    assert_eq!(marks_of(&marks, 3, 3), vec![vec![F, F, N], vec![V, C, N], vec![C, N, N]]);
}

#[test]
fn a_walled_off_search_is_exhausted_and_then_has_no_path() {
    let maze = maze_of("2 1 3");
    let mut marks = TileMarks::new(3, 1);
    let mut depth = DepthFirstSearcher::new(&maze);
    assert!(matches!(step(&mut depth, &mut marks), StepOutcome::Exhausted));
    assert!(matches!(step(&mut depth, &mut marks), StepOutcome::NoPath));
    assert!(matches!(step(&mut depth, &mut marks), StepOutcome::NoPath));
    let mut star = AStarSearcher::new(maze.clone(), Box::new(manhattan_heuristic));
    assert!(matches!(step(&mut star, &mut marks), StepOutcome::Exhausted));
    assert!(matches!(step(&mut star, &mut marks), StepOutcome::NoPath));
    assert!(star.get_current_path().is_none());
}

#[test]
fn every_strategy_steps_to_the_end() {
    let maze = maze_of("2 0 0 1\n0 1 0 0\n0 0 1 0\n1 0 0 3");
    let mut marks = TileMarks::new(4, 4);
    let mut star = AStarSearcher::new(maze.clone(), Box::new(manhattan_heuristic));
    let mut steps = 0;
    let found = loop {
        match step(&mut star, &mut marks) {
            StepOutcome::Found(path) => break path,
            StepOutcome::Running => steps += 1,
            _ => panic!("the end was not found"),
        }
        assert!(steps < 10_000);
    };
    assert_eq!(found.iter().count(), 7);
    assert_eq!(found.last().unwrap().get_tile(), Tile::End);
    assert!(steps >= 6);
}
