use maze::maze::Direction::{Left, Right};
use maze::maze::{Maze, Wall};
use maze::maze::Direction::{Down, Up};
use maze::solve::{get_reachable_cells, solve, try_solve};

#[test]
fn get_reachable_cells_should_return_all_neighbors_when_there_are_no_walls() {
    let maze = Maze::new(3, 3, false);
    let expected = vec![(0, 1), (1, 0), (1, 2), (2, 1)];

    let mut reachable = get_reachable_cells(&maze, (1, 1));
    reachable.sort();

    assert_eq!(reachable, expected);
}

#[test]
fn get_reachable_cells_works_for_edge_cells() {
    let maze = Maze::new(2, 2, false);
    let expected = vec![(0, 1), (1, 0)];

    let mut reachable = get_reachable_cells(&maze, (1, 1));
    reachable.sort();

    assert_eq!(reachable, expected);
}

#[test]
fn get_reachable_cells_returns_correct_neighbors_when_there_are_walls() {
    let mut maze = Maze::new(2, 2, false);
    maze.set_wall(&Wall { x: 0, y: 0, dir: Right }, true);

    let expected = vec![(0, 1)];

    assert_eq!(get_reachable_cells(&maze, (0, 0)), expected);
}

#[test]
fn solve_works_for_two_by_two_maze() {
    let mut maze = Maze::new(2, 2, false);
    maze.set_wall(&Wall { x: 0, y: 0, dir: Right }, true);

    let start = (0, 0);
    let end = (1, 0);
    let expected = vec![(0, 0), (0, 1), (1, 1), (1, 0)];

    assert_eq!(solve(&maze, start, end), expected);
}

#[test]
fn solve_works_for_three_by_three_maze() {
    let mut maze = Maze::new(3, 3, false);
    maze.set_wall(&Wall { x: 1, y: 0, dir: Left }, true);
    maze.set_wall(&Wall { x: 1, y: 0, dir: Right }, true);
    maze.set_wall(&Wall { x: 1, y: 2, dir: Left }, true);
    maze.set_wall(&Wall { x: 1, y: 2, dir: Right }, true);

    let start = (0, 0);
    let end = (2, 2);
    let expected = vec![(0, 0), (0, 1), (1, 1), (2, 1), (2, 2)];

    assert_eq!(solve(&maze, start, end), expected);
}

fn three_by_three() -> Maze {
    let mut maze = Maze::new(3, 3, false);
    maze.set_wall(&Wall { x: 1, y: 0, dir: Left }, true);
    maze.set_wall(&Wall { x: 1, y: 0, dir: Right }, true);
    maze.set_wall(&Wall { x: 1, y: 2, dir: Left }, true);
    maze.set_wall(&Wall { x: 1, y: 2, dir: Right }, true);
    maze
}

#[test]
fn get_reachable_cells_keeps_the_order_right_left_down_up() {
    let maze = Maze::new(3, 3, false);
    assert_eq!(get_reachable_cells(&maze, (1, 1)), vec![(2, 1), (0, 1), (1, 2), (1, 0)]);
    assert_eq!(get_reachable_cells(&maze, (0, 0)), vec![(1, 0), (0, 1)]);
}

#[test]
fn solve_from_a_cell_to_itself_is_that_cell() {
    let maze = three_by_three();
    for x in 0..3 {
        for y in 0..3 {
            assert_eq!(solve(&maze, (x, y), (x, y)), vec![(x, y)]);
        }
    }
}

#[test]
fn solve_backwards_is_the_reversed_path() {
    let maze = three_by_three();
    for a in 0..9 {
        for b in 0..9 {
            let start = (a % 3, a / 3);
            let end = (b % 3, b / 3);
            let mut there = solve(&maze, start, end);
            let back = solve(&maze, end, start);
            there.reverse();
            assert_eq!(there, back);
        }
    }
}

#[test]
fn solve_steps_through_open_passages_only() {
    let maze = three_by_three();
    for a in 0..9 {
        for b in 0..9 {
            let start = (a % 3, a / 3);
            let end = (b % 3, b / 3);
            let path = solve(&maze, start, end);
            assert_eq!(path[0], start);
            assert_eq!(path[path.len() - 1], end);
            for i in 1..path.len() {
                assert!(get_reachable_cells(&maze, path[i - 1]).contains(&path[i]));
                for j in 0..i {
                    assert_ne!(path[i], path[j]);
                }
            }
        }
    }
}

#[test]
fn solve_finds_the_tree_distance() {
    let maze = three_by_three();
    assert_eq!(solve(&maze, (0, 0), (0, 2)).len(), 3);
    assert_eq!(solve(&maze, (1, 0), (1, 2)).len(), 3);
    assert_eq!(solve(&maze, (0, 0), (2, 0)), vec![(0, 0), (0, 1), (1, 1), (2, 1), (2, 0)]);
    assert_eq!(solve(&maze, (1, 0), (0, 0)), vec![(1, 0), (1, 1), (0, 1), (0, 0)]);
}

#[test]
fn try_solve_finds_what_solve_finds() {
    let maze = three_by_three();
    for a in 0..9 {
        for b in 0..9 {
            let start = (a % 3, a / 3);
            let end = (b % 3, b / 3);
            assert_eq!(try_solve(&maze, start, end), Some(solve(&maze, start, end)));
        }
    }
}

#[test]
fn try_solve_finds_nothing_between_cells_that_are_not_connected() {
    let mut maze = Maze::new(3, 2, false);
    for y in 0..2 {
        maze.set_wall(&Wall { x: 0, y, dir: Right }, true);
    }
    assert_eq!(try_solve(&maze, (0, 0), (2, 1)), None);
    assert_eq!(try_solve(&maze, (1, 0), (0, 1)), None);
    assert_eq!(try_solve(&maze, (0, 0), (0, 1)), Some(vec![(0, 0), (0, 1)]));
    assert_eq!(try_solve(&maze, (0, 1), (0, 1)), Some(vec![(0, 1)]));

    let mut walled = Maze::new(2, 2, true);
    assert_eq!(try_solve(&walled, (0, 0), (1, 1)), None);
    walled.set_wall(&Wall { x: 0, y: 0, dir: Down }, false);
    walled.set_wall(&Wall { x: 1, y: 1, dir: Up }, false);
    assert_eq!(try_solve(&walled, (0, 0), (1, 1)), None);
    walled.set_wall(&Wall { x: 1, y: 1, dir: Left }, false);
    assert_eq!(try_solve(&walled, (0, 0), (1, 1)), Some(vec![(0, 0), (0, 1), (1, 1)]));
}
