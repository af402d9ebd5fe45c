use maze_runner_rs::maze::{Maze, MazeNode};
use maze_runner_rs::tilemap::{Tile, TileMap};
use std::rc::Rc;

fn maze_of(text: &str) -> Rc<Maze> {
    let map = TileMap::try_from(String::from(text)).unwrap();
    Rc::new(Maze::from(map))
}

fn cell(node: &Option<MazeNode>) -> Option<(usize, usize)> {
    node.as_ref().map(|n| n.get_coordinates())
}

const CORRIDOR: &str = "2 0 1\n1 0 1\n1 0 3";

#[test]
fn the_start_and_the_end_are_located() {
    let maze = maze_of(CORRIDOR);
    assert_eq!(maze.get_start().get_coordinates(), (0, 0));
    assert_eq!(maze.get_end().get_coordinates(), (2, 2));
    assert_eq!(maze.get_start().get_tile(), Tile::Start);
    assert_eq!(maze.get_end().get_tile(), Tile::End);
}

#[test]
fn the_start_may_come_after_the_end() {
    let maze = maze_of("1 3 0\n0 0 0\n0 2 1");
    assert_eq!(maze.get_start().get_coordinates(), (1, 2));
    assert_eq!(maze.get_end().get_coordinates(), (1, 0));
}

#[test]
fn width_and_height_are_those_of_the_table() {
    let maze = maze_of("2 0 0 0\n0 0 0 3");
    assert_eq!(maze.width(), 4);
    assert_eq!(maze.height(), 2);
}

#[test]
fn get_node_is_none_outside_the_maze_only() {
    let maze = maze_of(CORRIDOR);
    for y in 0..5 {
        for x in 0..5 {
            let node = maze.get_node((x, y));
            assert_eq!(node.is_some(), x < 3 && y < 3);
            if let Some(node) = node {
                assert_eq!(node.get_coordinates(), (x, y));
            }
        }
    }
    assert!(maze.get_node((usize::MAX, 0)).is_none());
    assert!(maze.get_node((0, usize::MAX)).is_none());
}

#[test]
fn a_node_has_the_tile_of_its_cell() {
    let maze = maze_of(CORRIDOR);
    let expected = [
        [Tile::Start, Tile::Empty, Tile::Wall],
        [Tile::Wall, Tile::Empty, Tile::Wall],
        [Tile::Wall, Tile::Empty, Tile::End],
    ];
    for y in 0..3 {
        for x in 0..3 {
            assert_eq!(maze.get_node((x, y)).unwrap().get_tile(), expected[y][x]);
        }
    }
}

#[test]
fn a_node_shares_the_maze() {
    let maze = maze_of(CORRIDOR);
    assert_eq!(Rc::strong_count(&maze), 1);
    let node = maze.get_node((1, 1)).unwrap();
    assert_eq!(Rc::strong_count(&maze), 2);
    let copy = node.clone();
    assert_eq!(Rc::strong_count(&maze), 3);
    assert_eq!(copy.get_coordinates(), (1, 1));
    assert_eq!(copy.get_tile(), Tile::Empty);
    drop(node);
    drop(copy);
    assert_eq!(Rc::strong_count(&maze), 1);
}

#[test]
fn nodes_are_equal_where_their_cells_are() {
    let maze = maze_of(CORRIDOR);
    let other = maze_of("2 3 0\n0 0 0\n0 0 0");
    assert!(maze.get_node((1, 2)).unwrap() == maze.get_node((1, 2)).unwrap());
    assert!(maze.get_node((1, 2)).unwrap() != maze.get_node((2, 1)).unwrap());
    assert!(maze.get_node((1, 2)).unwrap() != maze.get_node((1, 1)).unwrap());
    assert!(maze.get_node((0, 0)).unwrap() == maze.get_start());
    assert!(maze.get_node((1, 2)).unwrap() == other.get_node((1, 2)).unwrap());
}

#[test]
fn manhattan_distance_adds_the_two_gaps() {
    assert_eq!(Maze::manhattan_distance((0, 0), (2, 2)), 4);
    assert_eq!(Maze::manhattan_distance((2, 2), (0, 0)), 4);
    assert_eq!(Maze::manhattan_distance((3, 1), (1, 4)), 5);
    assert_eq!(Maze::manhattan_distance((1, 4), (3, 1)), 5);
    assert_eq!(Maze::manhattan_distance((7, 7), (7, 7)), 0);
    assert_eq!(Maze::manhattan_distance((0, 9), (0, 2)), 7);
    assert_eq!(Maze::manhattan_distance((usize::MAX, 0), (0, 0)), usize::MAX);
}

#[test]
fn neighbours_at_the_start_of_the_corridor() {
    let maze = maze_of(CORRIDOR);
    let around = maze.get_start().get_neighbors();
    assert_eq!(cell(&around.up), None);
    assert_eq!(cell(&around.left), None);
    assert_eq!(cell(&around.down), None);
    assert_eq!(cell(&around.right), Some((1, 0)));
}

#[test]
fn neighbours_in_the_middle_of_the_corridor() {
    let maze = maze_of(CORRIDOR);
    let around = maze.get_node((1, 1)).unwrap().get_neighbors();
    assert_eq!(cell(&around.up), Some((1, 0)));
    assert_eq!(cell(&around.left), None);
    assert_eq!(cell(&around.down), Some((1, 2)));
    assert_eq!(cell(&around.right), None);
}

#[test]
fn neighbours_on_all_four_sides() {
    let maze = maze_of("2 0 0\n0 0 0\n0 0 3");
    let around = maze.get_node((1, 1)).unwrap().get_neighbors();
    assert_eq!(cell(&around.up), Some((1, 0)));
    assert_eq!(cell(&around.left), Some((0, 1)));
    assert_eq!(cell(&around.down), Some((1, 2)));
    assert_eq!(cell(&around.right), Some((2, 1)));
}

#[test]
fn neighbours_at_the_far_corner() {
    let maze = maze_of("2 0 0\n0 0 0\n0 0 3");
    let around = maze.get_end().get_neighbors();
    assert_eq!(cell(&around.up), Some((2, 1)));
    assert_eq!(cell(&around.left), Some((1, 2)));
    assert_eq!(cell(&around.down), None);
    assert_eq!(cell(&around.right), None);
}

#[test]
fn a_wall_has_neighbours_but_is_none() {
    let maze = maze_of(CORRIDOR);
    let around = maze.get_node((0, 1)).unwrap().get_neighbors();
    assert_eq!(cell(&around.up), Some((0, 0)));
    assert_eq!(cell(&around.left), None);
    assert_eq!(cell(&around.down), None);
    assert_eq!(cell(&around.right), Some((1, 1)));
}

#[test]
fn the_start_and_the_end_are_neighbours_like_empty_tiles() {
    let maze = maze_of("2 3");
    assert_eq!(cell(&maze.get_start().get_neighbors().right), Some((1, 0)));
    assert_eq!(cell(&maze.get_end().get_neighbors().left), Some((0, 0)));
}

#[test]
fn no_neighbour_is_a_wall_or_outside() {
    let maze = maze_of("2 0 1 0 0\n1 0 1 0 1\n0 0 0 0 1\n0 1 1 0 3");
    for y in 0..maze.height() {
        for x in 0..maze.width() {
            let node = maze.get_node((x, y)).unwrap();
            let mut rest = node.get_neighbors().into_iter();
            let mut count = 0;
            while let Some(next) = rest.next() {
                let (nx, ny) = next.get_coordinates();
                assert!(nx < maze.width() && ny < maze.height());
                assert!(next.get_tile() != Tile::Wall);
                assert_eq!(x.abs_diff(nx) + y.abs_diff(ny), 1);
                count += 1;
                assert!(count <= 4);
            }
        }
    }
}

#[test]
fn neighbours_are_handed_out_up_left_down_right() {
    let maze = maze_of("2 0 0\n0 0 0\n0 0 3");
    let mut rest = maze.get_node((1, 1)).unwrap().get_neighbors().into_iter();
    assert_eq!(cell(&rest.next()), Some((1, 0)));
    assert_eq!(cell(&rest.next()), Some((0, 1)));
    assert_eq!(cell(&rest.next()), Some((1, 2)));
    assert_eq!(cell(&rest.next()), Some((2, 1)));
    assert_eq!(cell(&rest.next()), None);
    assert_eq!(cell(&rest.next()), None);
}

#[test]
fn neighbours_that_are_not_there_are_passed_over() {
    let maze = maze_of(CORRIDOR);
    let mut rest = maze.get_node((1, 1)).unwrap().get_neighbors().into_iter();
    assert_eq!(cell(&rest.next()), Some((1, 0)));
    assert_eq!(cell(&rest.next()), Some((1, 2)));
    assert_eq!(cell(&rest.next()), None);
}

#[test]
fn mazes_are_equal_where_their_tables_are() {
    assert!(*maze_of(CORRIDOR) == *maze_of("201\n101\n103"));
    assert!(*maze_of(CORRIDOR) != *maze_of("2 0 1\n1 0 1\n1 0 3\n1 1 1"));
    assert!(*maze_of(CORRIDOR) != *maze_of("2 0 0\n1 0 1\n1 0 3"));
    let table = TileMap::try_from(String::from(CORRIDOR)).unwrap();
    assert!(table == table.clone());
}
