use maze_runner_rs::maze::{Maze, MazeNode};
use maze_runner_rs::search::a_star::{manhattan_heuristic, AStarSearcher};
use maze_runner_rs::search::bfs::BreadthFirstSearcher;
use maze_runner_rs::search::dfs::DepthFirstSearcher;
use maze_runner_rs::search::path::Path;
use maze_runner_rs::search::Searcher;
use maze_runner_rs::tilemap::{Tile, TileMap};
use std::collections::VecDeque;
use std::rc::Rc;

type Cell = (usize, usize);

fn maze_of(text: &str) -> Rc<Maze> {
    let map = TileMap::try_from(String::from(text)).unwrap();
    Rc::new(Maze::from(map))
}

fn cells_of(path: &Path) -> Vec<Cell> {
    path.iter().map(|n| n.get_coordinates()).collect()
}

fn cells_of_nodes(nodes: &[MazeNode]) -> Vec<Cell> {
    nodes.iter().map(|n| n.get_coordinates()).collect()
}

fn a_star(maze: &Rc<Maze>) -> impl Searcher {
    AStarSearcher::new(maze.clone(), Box::new(manhattan_heuristic))
}

/// Steps until a step returns the end node, and gives the path that was
/// current before that step; `None` when the frontier runs empty first.
fn solve(searcher: &mut impl Searcher) -> Option<Vec<Cell>> {
    for _ in 0..1_000_000 {
        let current = searcher.get_current_path().cloned();
        match searcher.develop_next_node() {
            None => return None,
            Some(node) => {
                if node.get_tile() == Tile::End {
                    return Some(cells_of(&current.unwrap()));
                }
            }
        }
    }
    panic!("the search did not end");
}

/// Steps until the frontier is empty and counts the steps that returned a
/// node.
fn exhaust(searcher: &mut impl Searcher) -> usize {
    let mut steps = 0;
    while searcher.develop_next_node().is_some() {
        steps += 1;
        assert!(steps < 1_000_000, "the search did not end");
    }
    steps
}

/// The number of steps of a shortest walk from the start to the end, found
/// by flooding the maze.
fn flood(maze: &Rc<Maze>) -> Option<usize> {
    let (w, h) = (maze.width(), maze.height());
    let mut steps = vec![vec![None; w]; h];
    let (sx, sy) = maze.get_start().get_coordinates();
    steps[sy][sx] = Some(0usize);
    let mut queue = VecDeque::from([(sx, sy)]);
    while let Some((x, y)) = queue.pop_front() {
        let here = steps[y][x].unwrap();
        if (x, y) == maze.get_end().get_coordinates() {
            return Some(here);
        }
        let mut around = Vec::new();
        if y > 0 {
            around.push((x, y - 1));
        }
        if x > 0 {
            around.push((x - 1, y));
        }
        if y + 1 < h {
            around.push((x, y + 1));
        }
        if x + 1 < w {
            around.push((x + 1, y));
        }
        for (nx, ny) in around {
            let wall = maze.get_node((nx, ny)).unwrap().get_tile() == Tile::Wall;
            if !wall && steps[ny][nx].is_none() {
                steps[ny][nx] = Some(here + 1);
                queue.push_back((nx, ny));
            }
        }
    }
    None
}

fn is_walk(maze: &Rc<Maze>, cells: &[Cell]) -> bool {
    !cells.is_empty()
        && cells.iter().all(|c| {
            maze.get_node(*c).map(|n| n.get_tile() != Tile::Wall).unwrap_or(false)
        })
        && cells.windows(2).all(|p| p[0].0.abs_diff(p[1].0) + p[0].1.abs_diff(p[1].1) == 1)
}

const CORRIDOR: &str = "2 0 1\n1 0 1\n1 0 3";
const WALLED_OFF: &str = "2 1 3";
const TWO_WAYS: &str = "2 0 0 0 0\n1 1 0 1 0\n0 0 0 1 0\n0 1 1 1 0\n0 0 0 0 3";
const ROOMS: &str = "2 0 0 1\n0 1 0 0\n0 0 1 0\n1 0 0 3";

#[test]
fn breadth_first_walks_the_corridor() {
    let maze = maze_of(CORRIDOR);
    let path = solve(&mut BreadthFirstSearcher::new(&maze)).unwrap();
    assert_eq!(path, vec![(0, 0), (1, 0), (1, 1), (1, 2), (2, 2)]);
    assert_eq!(path.len() - 1, 4);
}

#[test]
fn a_star_walks_the_corridor() {
    let maze = maze_of(CORRIDOR);
    let path = solve(&mut a_star(&maze)).unwrap();
    assert_eq!(path, vec![(0, 0), (1, 0), (1, 1), (1, 2), (2, 2)]);
    assert_eq!(path.len() - 1, 4);
}

#[test]
fn depth_first_walks_the_corridor() {
    let maze = maze_of(CORRIDOR);
    let path = solve(&mut DepthFirstSearcher::new(&maze)).unwrap();
    assert!(path.len() - 1 >= 4);
    assert!(is_walk(&maze, &path));
    assert_eq!(path[0], (0, 0));
    assert_eq!(path[path.len() - 1], (2, 2));
}

#[test]
fn a_walled_off_end_exhausts_breadth_first() {
    let maze = maze_of(WALLED_OFF);
    let mut searcher = BreadthFirstSearcher::new(&maze);
    assert_eq!(solve(&mut searcher), None);
    assert!(searcher.get_current_path().is_none());
    assert!(searcher.get_considered_nodes().is_empty());
}

#[test]
fn a_walled_off_end_exhausts_depth_first() {
    let maze = maze_of(WALLED_OFF);
    let mut searcher = DepthFirstSearcher::new(&maze);
    assert_eq!(solve(&mut searcher), None);
    assert!(searcher.get_current_path().is_none());
    assert!(searcher.get_considered_nodes().is_empty());
}

#[test]
fn a_walled_off_end_exhausts_a_star() {
    let maze = maze_of(WALLED_OFF);
    let mut searcher = a_star(&maze);
    assert_eq!(solve(&mut searcher), None);
    assert!(searcher.get_current_path().is_none());
    assert!(searcher.get_considered_nodes().is_empty());
}

#[test]
fn a_walled_off_end_takes_one_step_to_exhaust() {
    let maze = maze_of(WALLED_OFF);
    let mut searcher = DepthFirstSearcher::new(&maze);
    assert_eq!(searcher.develop_next_node().unwrap().get_coordinates(), (0, 0));
    assert!(searcher.develop_next_node().is_none());
}

#[test]
fn an_exhausted_searcher_stays_exhausted() {
    let maze = maze_of(WALLED_OFF);
    let mut depth = DepthFirstSearcher::new(&maze);
    let mut breadth = BreadthFirstSearcher::new(&maze);
    let mut star = a_star(&maze);
    exhaust(&mut depth);
    exhaust(&mut breadth);
    exhaust(&mut star);
    for _ in 0..3 {
        assert!(depth.develop_next_node().is_none());
        assert!(breadth.develop_next_node().is_none());
        assert!(star.develop_next_node().is_none());
        assert!(depth.get_current_path().is_none());
        assert!(breadth.get_current_path().is_none());
        assert!(star.get_current_path().is_none());
    }
}

#[test]
fn depth_first_ends_where_the_end_cannot_be_reached() {
    let maze = maze_of("2 0 0 1 3\n0 0 0 1 0\n0 0 0 1 0");
    let mut searcher = DepthFirstSearcher::new(&maze);
    assert_eq!(solve(&mut searcher), None);
    assert!(searcher.develop_next_node().is_none());
}

#[test]
fn every_strategy_takes_as_many_steps_to_exhaust() {
    for text in [CORRIDOR, WALLED_OFF, TWO_WAYS, ROOMS, "2 3", "2 0\n0 3"] {
        let maze = maze_of(text);
        let depth = exhaust(&mut DepthFirstSearcher::new(&maze));
        let breadth = exhaust(&mut BreadthFirstSearcher::new(&maze));
        let star = exhaust(&mut a_star(&maze));
        assert_eq!(depth, breadth);
        assert_eq!(depth, star);
        assert!(depth >= 1);
    }
}

#[test]
fn a_square_of_four_has_seven_routes_from_its_corner() {
    let maze = maze_of("2 0\n0 3");
    assert_eq!(exhaust(&mut BreadthFirstSearcher::new(&maze)), 7);
    let corridor = maze_of(CORRIDOR);
    assert_eq!(exhaust(&mut DepthFirstSearcher::new(&corridor)), 5);
}

#[test]
fn breadth_first_finds_a_shortest_path() {
    for text in [CORRIDOR, TWO_WAYS, ROOMS, "2 3", "2 0\n0 3", "3 0 0\n0 1 0\n0 0 2"] {
        let maze = maze_of(text);
        let path = solve(&mut BreadthFirstSearcher::new(&maze)).unwrap();
        assert!(is_walk(&maze, &path));
        assert_eq!(path[0], maze.get_start().get_coordinates());
        assert_eq!(path[path.len() - 1], maze.get_end().get_coordinates());
        assert_eq!(Some(path.len() - 1), flood(&maze));
    }
}

#[test]
fn a_star_finds_a_path_as_long_as_breadth_first() {
    for text in [CORRIDOR, TWO_WAYS, ROOMS, "2 3", "2 0\n0 3", "3 0 0\n0 1 0\n0 0 2"] {
        let maze = maze_of(text);
        let star = solve(&mut a_star(&maze)).unwrap();
        let breadth = solve(&mut BreadthFirstSearcher::new(&maze)).unwrap();
        assert!(is_walk(&maze, &star));
        assert_eq!(star[0], maze.get_start().get_coordinates());
        assert_eq!(star[star.len() - 1], maze.get_end().get_coordinates());
        assert_eq!(star.len(), breadth.len());
    }
}

#[test]
fn the_shortest_of_two_ways_has_eight_steps() {
    let maze = maze_of(TWO_WAYS);
    let path = solve(&mut BreadthFirstSearcher::new(&maze)).unwrap();
    assert_eq!(
        path,
        vec![(0, 0), (1, 0), (2, 0), (3, 0), (4, 0), (4, 1), (4, 2), (4, 3), (4, 4)]
    );
    assert_eq!(solve(&mut a_star(&maze)).unwrap(), path);
}

#[test]
fn depth_first_finds_a_path_that_may_be_longer() {
    let maze = maze_of(TWO_WAYS);
    let path = solve(&mut DepthFirstSearcher::new(&maze)).unwrap();
    assert!(is_walk(&maze, &path));
    assert_eq!(path[0], (0, 0));
    assert_eq!(path[path.len() - 1], (4, 4));
    assert_eq!(
        path,
        vec![(0, 0), (1, 0), (2, 0), (3, 0), (4, 0), (4, 1), (4, 2), (4, 3), (4, 4)]
    );
    let rooms = maze_of(ROOMS);
    let path = solve(&mut DepthFirstSearcher::new(&rooms)).unwrap();
    assert!(is_walk(&rooms, &path));
    assert!(path.len() - 1 >= flood(&rooms).unwrap());
}

#[test]
fn a_new_searcher_holds_the_start_only() {
    let maze = maze_of(CORRIDOR);
    let depth = DepthFirstSearcher::new(&maze);
    let breadth = BreadthFirstSearcher::new(&maze);
    let star = a_star(&maze);
    assert_eq!(cells_of(depth.get_current_path().unwrap()), vec![(0, 0)]);
    assert_eq!(cells_of(breadth.get_current_path().unwrap()), vec![(0, 0)]);
    assert_eq!(cells_of(star.get_current_path().unwrap()), vec![(0, 0)]);
    assert_eq!(cells_of_nodes(&depth.get_considered_nodes()), vec![(0, 0)]);
    assert_eq!(cells_of_nodes(&breadth.get_considered_nodes()), vec![(0, 0)]);
    assert_eq!(cells_of_nodes(&star.get_considered_nodes()), vec![(0, 0)]);
}

#[test]
fn a_step_returns_the_tail_of_the_current_path() {
    let maze = maze_of(ROOMS);
    let mut depth = DepthFirstSearcher::new(&maze);
    let mut breadth = BreadthFirstSearcher::new(&maze);
    let mut star = a_star(&maze);
    for _ in 0..12 {
        let tail = depth.get_current_path().unwrap().last().unwrap().get_coordinates();
        assert_eq!(depth.develop_next_node().unwrap().get_coordinates(), tail);
        let tail = breadth.get_current_path().unwrap().last().unwrap().get_coordinates();
        assert_eq!(breadth.develop_next_node().unwrap().get_coordinates(), tail);
        let tail = star.get_current_path().unwrap().last().unwrap().get_coordinates();
        assert_eq!(star.develop_next_node().unwrap().get_coordinates(), tail);
    }
}

#[test]
fn the_stack_expands_the_newest_path() {
    let maze = maze_of("2 0 0\n0 0 0\n0 0 3");
    let mut searcher = DepthFirstSearcher::new(&maze);
    assert_eq!(searcher.develop_next_node().unwrap().get_coordinates(), (0, 0));
    assert_eq!(cells_of_nodes(&searcher.get_considered_nodes()), vec![(0, 1), (1, 0)]);
    assert_eq!(cells_of(searcher.get_current_path().unwrap()), vec![(0, 0), (1, 0)]);
    assert_eq!(searcher.develop_next_node().unwrap().get_coordinates(), (1, 0));
    assert_eq!(
        cells_of_nodes(&searcher.get_considered_nodes()),
        vec![(0, 1), (1, 1), (2, 0)]
    );
    assert_eq!(cells_of(searcher.get_current_path().unwrap()), vec![(0, 0), (1, 0), (2, 0)]);
}

#[test]
fn the_queue_expands_the_oldest_path() {
    let maze = maze_of("2 0 0\n0 0 0\n0 0 3");
    let mut searcher = BreadthFirstSearcher::new(&maze);
    assert_eq!(searcher.develop_next_node().unwrap().get_coordinates(), (0, 0));
    assert_eq!(cells_of_nodes(&searcher.get_considered_nodes()), vec![(0, 1), (1, 0)]);
    assert_eq!(cells_of(searcher.get_current_path().unwrap()), vec![(0, 0), (0, 1)]);
    assert_eq!(searcher.develop_next_node().unwrap().get_coordinates(), (0, 1));
    assert_eq!(
        cells_of_nodes(&searcher.get_considered_nodes()),
        vec![(1, 0), (0, 2), (1, 1)]
    );
    assert_eq!(cells_of(searcher.get_current_path().unwrap()), vec![(0, 0), (1, 0)]);
}

#[test]
fn a_star_expands_the_first_path_with_the_least_sum() {
    let maze = maze_of("2 0 0\n0 0 0\n0 0 3");
    let mut searcher = a_star(&maze);
    assert_eq!(searcher.develop_next_node().unwrap().get_coordinates(), (0, 0));
    assert_eq!(cells_of_nodes(&searcher.get_considered_nodes()), vec![(0, 1), (1, 0)]);
    assert_eq!(cells_of(searcher.get_current_path().unwrap()), vec![(0, 0), (0, 1)]);
    assert_eq!(searcher.develop_next_node().unwrap().get_coordinates(), (0, 1));
    assert_eq!(
        cells_of_nodes(&searcher.get_considered_nodes()),
        vec![(1, 0), (0, 2), (1, 1)]
    );
    assert_eq!(cells_of(searcher.get_current_path().unwrap()), vec![(0, 0), (1, 0)]);
}

#[test]
fn a_star_follows_its_estimates() {
    let maze = maze_of("0 0 0\n2 0 3\n0 0 0");
    let mut searcher = a_star(&maze);
    assert_eq!(searcher.develop_next_node().unwrap().get_coordinates(), (0, 1));
    assert_eq!(
        cells_of_nodes(&searcher.get_considered_nodes()),
        vec![(0, 0), (0, 2), (1, 1)]
    );
    assert_eq!(cells_of(searcher.get_current_path().unwrap()), vec![(0, 1), (1, 1)]);
    assert_eq!(searcher.develop_next_node().unwrap().get_coordinates(), (1, 1));
    assert_eq!(cells_of(searcher.get_current_path().unwrap()), vec![(0, 1), (1, 1), (2, 1)]);
    assert_eq!(searcher.develop_next_node().unwrap().get_tile(), Tile::End);
}

#[test]
fn a_star_with_no_estimate_searches_like_a_queue() {
    let maze = maze_of(ROOMS);
    let mut star = AStarSearcher::new(maze.clone(), Box::new(|_: &MazeNode, _: &MazeNode| 0u64));
    let mut breadth = BreadthFirstSearcher::new(&maze);
    for _ in 0..40 {
        let a = star.develop_next_node().map(|n| n.get_coordinates());
        let b = breadth.develop_next_node().map(|n| n.get_coordinates());
        assert_eq!(a, b);
    }
}

#[test]
fn a_star_takes_the_estimates_of_the_caller() {
    let maze = maze_of("0 0 0\n2 0 3\n0 0 0");
    let away = |node: &MazeNode, _: &MazeNode| node.get_coordinates().0 as u64 * 10;
    let mut searcher = AStarSearcher::new(maze.clone(), Box::new(away));
    assert_eq!(searcher.develop_next_node().unwrap().get_coordinates(), (0, 1));
    assert_eq!(searcher.develop_next_node().unwrap().get_coordinates(), (0, 0));
    assert_eq!(searcher.develop_next_node().unwrap().get_coordinates(), (0, 2));
}

#[test]
fn the_manhattan_estimate_is_the_distance() {
    let maze = maze_of("2 0 0 0\n0 0 0 0\n0 0 0 3");
    let end = maze.get_end();
    assert_eq!(manhattan_heuristic(&maze.get_start(), &end), 5);
    assert_eq!(manhattan_heuristic(&end, &maze.get_start()), 5);
    assert_eq!(manhattan_heuristic(&maze.get_node((3, 0)).unwrap(), &end), 2);
    assert_eq!(manhattan_heuristic(&maze.get_node((0, 2)).unwrap(), &end), 3);
    assert_eq!(manhattan_heuristic(&end, &end), 0);
}

#[test]
fn asking_twice_gives_the_same_answer() {
    let maze = maze_of(ROOMS);
    let mut depth = DepthFirstSearcher::new(&maze);
    let mut breadth = BreadthFirstSearcher::new(&maze);
    let mut star = a_star(&maze);
    for _ in 0..30 {
        let first = depth.get_current_path().map(cells_of);
        assert_eq!(depth.get_current_path().map(cells_of), first);
        let first = cells_of_nodes(&depth.get_considered_nodes());
        assert_eq!(cells_of_nodes(&depth.get_considered_nodes()), first);
        let first = breadth.get_current_path().map(cells_of);
        assert_eq!(breadth.get_current_path().map(cells_of), first);
        let first = cells_of_nodes(&breadth.get_considered_nodes());
        assert_eq!(cells_of_nodes(&breadth.get_considered_nodes()), first);
        let first = star.get_current_path().map(cells_of);
        assert_eq!(star.get_current_path().map(cells_of), first);
        let first = cells_of_nodes(&star.get_considered_nodes());
        assert_eq!(cells_of_nodes(&star.get_considered_nodes()), first);
        depth.develop_next_node();
        breadth.develop_next_node();
        star.develop_next_node();
    }
}

#[test]
fn next_is_a_step() {
    let maze = maze_of(CORRIDOR);
    let mut depth = DepthFirstSearcher::new(&maze);
    let mut breadth = BreadthFirstSearcher::new(&maze);
    let mut star = AStarSearcher::new(maze.clone(), Box::new(manhattan_heuristic));
    let expected = [Some((0, 0)), Some((1, 0)), Some((1, 1)), Some((1, 2)), Some((2, 2)), None, None];
    for cell in expected {
        assert_eq!(depth.next().map(|n| n.get_coordinates()), cell);
        assert_eq!(breadth.next().map(|n| n.get_coordinates()), cell);
        assert_eq!(star.next().map(|n| n.get_coordinates()), cell);
    }
}

#[test]
fn searchers_share_one_maze() {
    let maze = maze_of(CORRIDOR);
    let mut first = BreadthFirstSearcher::new(&maze);
    let mut second = DepthFirstSearcher::new(&maze);
    first.develop_next_node();
    assert_eq!(cells_of(second.get_current_path().unwrap()), vec![(0, 0)]);
    assert_eq!(solve(&mut second).unwrap().len(), 5);
    assert_eq!(solve(&mut first).unwrap().len(), 5);
    assert_eq!(maze.get_start().get_coordinates(), (0, 0));
}
