use maze::maze::Direction::{Down, Left, Right, Up};
use maze::maze::{Maze, Wall, WallIterator};

fn walls_of(maze: &Maze) -> Vec<Wall> {
    let mut iter: WallIterator = maze.wall_iter();
    std::iter::from_fn(move || iter.next()).collect()
}

fn slot_of(wall: &Wall) -> (bool, usize, usize) {
    match wall.dir {
        Up => (false, wall.x, wall.y),
        Down => (false, wall.x, wall.y + 1),
        Left => (true, wall.x, wall.y),
        Right => (true, wall.x + 1, wall.y),
    }
}

#[test]
fn maze_returns_appropriate_size_after_construction() {
    let maze = Maze::new(5, 6, false);
    assert_eq!(maze.width(), 5);
    assert_eq!(maze.height(), 6);
}

#[test]
fn maze_get_wall_returns_false_when_maze_constructed_with_walls_off() {
    let maze = Maze::new(2, 2, false);
    assert_eq!(maze.get_wall(&Wall { x: 0, y: 0, dir: Right }), false);
}

#[test]
fn maze_get_wall_returns_true_when_maze_constructed_with_walls_on() {
    let maze = Maze::new(2, 2, true);
    assert_eq!(maze.get_wall(&Wall { x: 0, y: 0, dir: Right }), true);
}

#[test]
fn maze_set_wall_changes_wall_state() {
    let mut maze = Maze::new(2, 2, false);
    let wall = Wall { x: 1, y: 0, dir: Left };

    maze.set_wall(&wall, true);
    let maze = maze;

    assert_eq!(maze.get_wall(&wall), true);
}

#[test]
fn maze_returns_iterator_with_appropriate_count() {
    let maze = Maze::new(2, 2, false);
    let mut iter = maze.wall_iter();

    assert_eq!(std::iter::from_fn(move || iter.next()).count(), 12);
}

#[test]
fn maze_set_wall_sets_exactly_one_wall() {
    let mut maze = Maze::new(10, 10, false);
    let wall = Wall { x: 5, y: 5, dir: Left };

    maze.set_wall(&wall, true);
    let maze = maze;

    let on_count = walls_of(&maze).iter().filter(|wall| maze.get_wall(wall)).count();

    assert_eq!(on_count, 1);
}

#[test]
fn maze_set_wall_can_set_all_walls() {
    let mut maze = Maze::new(3, 2, false);

    for x in 0..3 {
        for y in 0..2 {
            maze.set_wall(&Wall { x, y, dir: Up }, true);
            maze.set_wall(&Wall { x, y, dir: Down }, true);
            maze.set_wall(&Wall { x, y, dir: Left }, true);
            maze.set_wall(&Wall { x, y, dir: Right }, true);
        }
    }
    let maze = maze;

    let on_count = walls_of(&maze).iter().filter(|wall| maze.get_wall(wall)).count();

    assert_eq!(on_count, 17);
}

#[test]
fn maze_can_be_constructed_with_edges() {
    let maze = Maze::new_with_edges(10, 10, false);

    let on_count = walls_of(&maze).iter().filter(|wall| maze.get_wall(wall)).count();

    assert_eq!(on_count, 40);
}

#[test]
fn wall_iterator_yields_twelve_distinct_walls_for_two_by_two() {
    let maze = Maze::new(2, 2, false);
    let walls = walls_of(&maze);
    assert_eq!(walls.len(), 12);
    for i in 0..walls.len() {
        for j in 0..i {
            assert_ne!(walls[i], walls[j]);
            assert_ne!(slot_of(&walls[i]), slot_of(&walls[j]));
        }
    }
}

#[test]
fn wall_iterator_follows_the_fixed_order() {
    let maze = Maze::new(2, 3, false);
    let walls = walls_of(&maze);
    let mut expected = vec![
        Wall { x: 0, y: 0, dir: Left },
        Wall { x: 0, y: 1, dir: Left },
        Wall { x: 0, y: 2, dir: Left },
        Wall { x: 0, y: 0, dir: Up },
        Wall { x: 1, y: 0, dir: Up },
    ];
    for x in 0..2 {
        for y in 0..3 {
            expected.push(Wall { x, y, dir: Right });
        }
    }
    for x in 0..2 {
        for y in 0..3 {
            expected.push(Wall { x, y, dir: Down });
        }
    }
    assert_eq!(walls, expected);
}

#[test]
fn wall_iterator_stays_at_its_end_and_restarts_fresh() {
    let maze = Maze::new(2, 2, true);
    let mut iter = maze.wall_iter();
    for _ in 0..12 {
        assert!(iter.next().is_some());
    }
    assert_eq!(iter.next(), None);
    assert_eq!(iter.next(), None);
    let mut again = maze.wall_iter();
    assert_eq!(again.next(), Some(Wall { x: 0, y: 0, dir: Left }));
}

#[test]
fn both_addresses_of_an_edge_name_one_wall() {
    let mut maze = Maze::new(3, 3, false);
    maze.set_wall(&Wall { x: 1, y: 1, dir: Right }, true);
    assert!(maze.get_wall(&Wall { x: 2, y: 1, dir: Left }));
    maze.set_wall(&Wall { x: 1, y: 1, dir: Down }, true);
    assert!(maze.get_wall(&Wall { x: 1, y: 2, dir: Up }));
    maze.set_wall(&Wall { x: 2, y: 1, dir: Left }, false);
    assert!(!maze.get_wall(&Wall { x: 1, y: 1, dir: Right }));
    assert!(maze.get_wall(&Wall { x: 1, y: 1, dir: Down }));
}

#[test]
fn edges_are_forced_whatever_the_fill_and_survive_interior_edits() {
    for walls_on in [false, true] {
        let mut maze = Maze::new_with_edges(4, 3, walls_on);
        for x in 0..3 {
            for y in 0..3 {
                maze.set_wall(&Wall { x, y, dir: Right }, false);
            }
        }
        for x in 0..4 {
            for y in 0..2 {
                maze.set_wall(&Wall { x, y, dir: Down }, false);
            }
        }
        for y in 0..3 {
            assert!(maze.get_wall(&Wall { x: 0, y, dir: Left }));
            assert!(maze.get_wall(&Wall { x: 3, y, dir: Right }));
        }
        for x in 0..4 {
            assert!(maze.get_wall(&Wall { x, y: 0, dir: Up }));
            assert!(maze.get_wall(&Wall { x, y: 2, dir: Down }));
        }
        let on_count = walls_of(&maze).iter().filter(|wall| maze.get_wall(wall)).count();
        assert_eq!(on_count, 14);
    }
}

#[test]
fn new_with_edges_keeps_the_fill_inside() {
    let maze = Maze::new_with_edges(3, 3, false);
    assert!(!maze.get_wall(&Wall { x: 0, y: 0, dir: Right }));
    assert!(!maze.get_wall(&Wall { x: 1, y: 1, dir: Down }));
    let walled = Maze::new_with_edges(3, 3, true);
    assert!(walled.get_wall(&Wall { x: 0, y: 0, dir: Right }));
}
