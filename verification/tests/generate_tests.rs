use maze::generate::{
    create_sets, create_walls, BinaryTreeGenerator, Field, KruskalsGenerator, MazeGenerator,
    RecursiveBacktrackingGenerator, RecursiveDivisionGenerator, SimpleGenerator,
};
use maze::maze::Direction::{Down, Right};
use maze::maze::{Maze, Wall};
use maze::solve::{get_reachable_cells, solve, try_solve};

fn drain<G: MazeGenerator>(generator: &mut G) -> Vec<(Wall, bool)> {
    let mut edits = Vec::new();
    while let Some(edit) = generator.next() {
        edits.push(edit);
    }
    edits
}

fn generate<G: MazeGenerator>(generator: &mut G) -> Maze {
    let mut maze = generator.initial_maze();
    for (wall, on) in drain(generator) {
        maze.set_wall(&wall, on);
    }
    maze
}

fn open_interior_walls(maze: &Maze) -> usize {
    let mut open = 0;
    for x in 0..maze.width() {
        for y in 0..maze.height() {
            if x + 1 < maze.width() && !maze.get_wall(&Wall { x, y, dir: Right }) {
                open += 1;
            }
            if y + 1 < maze.height() && !maze.get_wall(&Wall { x, y, dir: Down }) {
                open += 1;
            }
        }
    }
    open
}

fn cells_reached_from(maze: &Maze, from: (usize, usize)) -> usize {
    let mut seen = vec![vec![false; maze.height()]; maze.width()];
    let mut stack = vec![from];
    seen[from.0][from.1] = true;
    let mut count = 1;
    while let Some(cell) = stack.pop() {
        for next in get_reachable_cells(maze, cell) {
            if !seen[next.0][next.1] {
                seen[next.0][next.1] = true;
                count += 1;
                stack.push(next);
            }
        }
    }
    count
}

fn assert_perfect(maze: &Maze) {
    let cells = maze.width() * maze.height();
    assert_eq!(open_interior_walls(maze), cells - 1);
    assert_eq!(cells_reached_from(maze, (0, 0)), cells);
    let path = solve(maze, (0, 0), (maze.width() - 1, maze.height() - 1));
    assert_eq!(path[0], (0, 0));
    assert_eq!(path[path.len() - 1], (maze.width() - 1, maze.height() - 1));
    let mut back = solve(maze, (maze.width() - 1, maze.height() - 1), (0, 0));
    back.reverse();
    assert_eq!(path, back);
}

#[test]
fn create_walls_should_return_appropriate_number_of_walls() {
    let walls = create_walls(3, 3);
    assert_eq!(walls.len(), 12);
}

#[test]
fn create_sets_should_return_appropriate_number_of_sets() {
    let sets = create_sets(3, 3);
    assert_eq!(sets.len(), 9);
}

#[test]
fn create_sets_should_return_sets_with_size_one() {
    let sets = create_sets(3, 3);

    for x in 0..3 {
        for y in 0..3 {
            assert_eq!(sets.set_size((x, y)), 1);
        }
    }
}

#[test]
fn field_vertical_split_should_split_the_width() {
    let field = Field { x: 0, y: 0, width: 5, height: 5 };
    let (left, right) = field.split_vertically();

    assert_eq!(left.width + right.width, 5);
}

#[test]
fn field_vertical_split_should_work_with_width_two() {
    let field = Field { x: 0, y: 0, width: 2, height: 5 };
    let (left, right) = field.split_vertically();

    assert_eq!(left.width, 1);
    assert_eq!(left.x, 0);

    assert_eq!(right.width, 1);
    assert_eq!(right.x, 1);
}

#[test]
fn field_horizontal_split_should_split_the_height() {
    let field = Field { x: 0, y: 0, width: 5, height: 5 };
    let (top, bottom) = field.split_horizontally();

    assert_eq!(top.height + bottom.height, 5);
}

#[test]
fn field_horizontal_split_should_work_with_height_two() {
    let field = Field { x: 0, y: 0, width: 5, height: 2 };
    let (top, bottom) = field.split_horizontally();

    assert_eq!(top.height, 1);
    assert_eq!(top.y, 0);

    assert_eq!(bottom.height, 1);
    assert_eq!(bottom.y, 1);
}

#[test]
fn simple_generator_should_output_one_value_for_two_by_two() {
    let mut generator = SimpleGenerator::new(2, 2);
    let walls = drain(&mut generator).len();

    assert_eq!(walls, 1);
}

#[test]
fn simple_generator_should_output_four_values_for_three_by_three() {
    let mut generator = SimpleGenerator::new(3, 3);
    let walls = drain(&mut generator).len();

    assert_eq!(walls, 4);
}

#[test]
fn simple_generator_should_not_return_too_large_values() {
    let mut generator = SimpleGenerator::new(20, 10);

    for (wall, _) in drain(&mut generator) {
        assert!(wall.x < 20);
        assert!(wall.y < 10);
    }
}

#[test]
fn simple_generator_follows_its_pattern() {
    let mut generator = SimpleGenerator::new(3, 3);
    let expected = vec![
        (Wall { x: 0, y: 0, dir: Right }, false),
        (Wall { x: 0, y: 1, dir: Right }, false),
        (Wall { x: 1, y: 1, dir: Right }, false),
        (Wall { x: 1, y: 2, dir: Right }, false),
    ];
    assert_eq!(drain(&mut generator), expected);
    assert_eq!(generator.next(), None);
    assert_eq!(generator.name(), "Simple Dummy Algorithm");
}

#[test]
fn generators_report_their_dimensions_and_names() {
    let binary = BinaryTreeGenerator::new(4, 7);
    assert_eq!((binary.width(), binary.height()), (4, 7));
    assert_eq!(binary.name(), "Binary Tree Algorithm");
    let kruskal = KruskalsGenerator::new(4, 7);
    assert_eq!((kruskal.width(), kruskal.height()), (4, 7));
    assert_eq!(kruskal.name(), "Kruskal's Algorithm");
    let backtracking = RecursiveBacktrackingGenerator::new(4, 7);
    assert_eq!((backtracking.width(), backtracking.height()), (4, 7));
    assert_eq!(backtracking.name(), "Recursive Backtracking");
    let division = RecursiveDivisionGenerator::new(4, 7);
    assert_eq!((division.width(), division.height()), (4, 7));
    assert_eq!(division.name(), "Recursive Division Algorithm");
}

#[test]
fn initial_mazes_are_walled_for_carving_and_open_for_dividing() {
    let inside = Wall { x: 1, y: 1, dir: Right };
    let edge = Wall { x: 0, y: 1, dir: maze::maze::Direction::Left };
    assert!(BinaryTreeGenerator::new(3, 3).initial_maze().get_wall(&inside));
    assert!(KruskalsGenerator::new(3, 3).initial_maze().get_wall(&inside));
    assert!(RecursiveBacktrackingGenerator::new(3, 3).initial_maze().get_wall(&inside));
    let open = RecursiveDivisionGenerator::new(3, 3).initial_maze();
    assert!(!open.get_wall(&inside));
    assert!(open.get_wall(&edge));
    let simple = SimpleGenerator::new(3, 3).initial_maze();
    assert!(simple.get_wall(&inside));
    assert!(simple.get_wall(&edge));
}

#[test]
fn binary_tree_yields_a_perfect_maze() {
    for (width, height) in [(2, 2), (2, 5), (7, 3), (12, 9)] {
        let mut generator = BinaryTreeGenerator::new(width, height);
        let edits = {
            let mut probe = BinaryTreeGenerator::new(width, height);
            drain(&mut probe)
        };
        assert_eq!(edits.len(), width * height - 1);
        assert!(edits.iter().all(|(_, on)| !on));
        assert_perfect(&generate(&mut generator));
        assert_eq!(generator.next(), None);
    }
}

#[test]
fn binary_tree_removes_right_or_down_at_each_cell_in_row_order() {
    let mut generator = BinaryTreeGenerator::new(3, 2);
    let edits = drain(&mut generator);
    assert_eq!(edits.len(), 5);
    for (index, (wall, _)) in edits.iter().enumerate() {
        assert_eq!((wall.x, wall.y), (index % 3, index / 3));
        assert!(wall.dir == Right || wall.dir == Down);
    }
    assert_eq!(edits[2].0.dir, Down);
    assert_eq!(edits[3].0.dir, Right);
    assert_eq!(edits[4].0.dir, Right);
}

#[test]
fn binary_tree_candidates_and_picks() {
    let mut generator = BinaryTreeGenerator::new(2, 2);
    assert_eq!(
        generator.get_candidate_walls(),
        vec![Wall { x: 0, y: 0, dir: Right }, Wall { x: 0, y: 0, dir: Down }]
    );
    let candidates = generator.get_candidate_walls();
    assert_eq!(generator.take_candidate(candidates, 1), Some((Wall { x: 0, y: 0, dir: Down }, false)));
    assert_eq!(generator.get_candidate_walls(), vec![Wall { x: 1, y: 0, dir: Down }]);
    let candidates = generator.get_candidate_walls();
    assert_eq!(generator.take_candidate(candidates, 0), Some((Wall { x: 1, y: 0, dir: Down }, false)));
    assert_eq!(generator.get_candidate_walls(), vec![Wall { x: 0, y: 1, dir: Right }]);
    let candidates = generator.get_candidate_walls();
    assert_eq!(generator.take_candidate(candidates, 0), Some((Wall { x: 0, y: 1, dir: Right }, false)));
    assert_eq!(generator.get_candidate_walls(), vec![]);
    assert_eq!(generator.take_candidate(Vec::new(), 0), None);
    assert_eq!(generator.next(), None);
}

#[test]
fn kruskal_yields_a_perfect_maze() {
    for (width, height) in [(2, 2), (2, 5), (7, 3), (12, 9)] {
        let mut probe = KruskalsGenerator::new(width, height);
        let edits = drain(&mut probe);
        assert_eq!(edits.len(), width * height - 1);
        assert!(edits.iter().all(|(_, on)| !on));
        let mut generator = KruskalsGenerator::new(width, height);
        assert_perfect(&generate(&mut generator));
        assert_eq!(generator.next(), None);
    }
}

#[test]
fn create_walls_holds_every_interior_wall_once_in_shuffled_order() {
    let mut ordered = Vec::new();
    for x in 0..10 {
        for y in 0..9 {
            ordered.push(Wall { x, y, dir: Down });
        }
    }
    for x in 0..9 {
        for y in 0..10 {
            ordered.push(Wall { x, y, dir: Right });
        }
    }
    let walls = create_walls(10, 10);
    assert_eq!(walls.len(), 180);
    for wall in &ordered {
        assert_eq!(walls.iter().filter(|other| *other == wall).count(), 1);
    }
    assert_ne!(walls, ordered);
}

#[test]
fn cell_sets_merge_moves_the_first_set_into_the_second() {
    let mut sets = create_sets(3, 2);
    assert_eq!(sets.len(), 6);
    assert!(sets.same_set((1, 1), (1, 1)));
    assert!(!sets.same_set((0, 0), (1, 0)));
    sets.merge((0, 0), (1, 0));
    assert!(sets.same_set((0, 0), (1, 0)));
    assert_eq!(sets.set_size((0, 0)), 2);
    assert_eq!(sets.set_size((1, 0)), 2);
    assert_eq!(sets.set_size((2, 0)), 1);
    sets.merge((2, 1), (2, 0));
    sets.merge((2, 0), (0, 0));
    assert!(sets.same_set((2, 1), (1, 0)));
    assert!(!sets.same_set((2, 1), (0, 1)));
    assert_eq!(sets.set_size((2, 1)), 4);
    assert_eq!(sets.set_size((0, 1)), 1);
}

#[test]
fn kruskal_emits_a_wall_only_between_two_sets() {
    let mut generator = KruskalsGenerator::new(2, 2);
    let down = Wall { x: 0, y: 0, dir: Down };
    let right = Wall { x: 0, y: 0, dir: Right };
    assert_eq!(generator.get_cells(&down), ((0, 0), (0, 1)));
    assert_eq!(generator.get_cells(&right), ((0, 0), (1, 0)));
    assert!(generator.try_remove(&down));
    assert!(!generator.try_remove(&down));
    assert!(generator.try_remove(&right));
    assert!(generator.try_remove(&Wall { x: 1, y: 0, dir: Down }));
    assert!(!generator.try_remove(&Wall { x: 0, y: 1, dir: Right }));
    assert_eq!(generator.next(), None);
}

#[test]
fn recursive_backtracking_yields_a_perfect_maze() {
    for (width, height) in [(2, 2), (2, 5), (7, 3), (12, 9)] {
        let mut probe = RecursiveBacktrackingGenerator::new(width, height);
        let edits = drain(&mut probe);
        assert_eq!(edits.len(), width * height - 1);
        assert!(edits.iter().all(|(_, on)| !on));
        let mut generator = RecursiveBacktrackingGenerator::new(width, height);
        assert_perfect(&generate(&mut generator));
        assert_eq!(generator.next(), None);
    }
}

#[test]
fn recursive_backtracking_enters_each_cell_once() {
    let mut generator = RecursiveBacktrackingGenerator::starting_at(4, 3, (2, 1));
    let mut visited = vec![(2, 1)];
    while let Some((wall, on)) = generator.next() {
        assert!(!on);
        assert!(visited.contains(&(wall.x, wall.y)));
        let entered = match wall.dir {
            maze::maze::Direction::Up => (wall.x, wall.y - 1),
            Down => (wall.x, wall.y + 1),
            maze::maze::Direction::Left => (wall.x - 1, wall.y),
            Right => (wall.x + 1, wall.y),
        };
        assert!(entered.0 < 4 && entered.1 < 3);
        assert!(!visited.contains(&entered));
        visited.push(entered);
    }
    assert_eq!(visited.len(), 12);
    assert_eq!(generator.backtrack_and_next_unvisited(), None);
}

#[test]
fn recursive_backtracking_neighbors() {
    let generator = RecursiveBacktrackingGenerator::starting_at(3, 3, (0, 0));
    assert_eq!(generator.get_neighbor((0, 0), maze::maze::Direction::Up), None);
    assert_eq!(generator.get_neighbor((0, 0), maze::maze::Direction::Left), None);
    assert_eq!(generator.get_neighbor((2, 2), Down), None);
    assert_eq!(generator.get_neighbor((2, 2), Right), None);
    assert_eq!(generator.get_neighbor((1, 1), Down), Some(((1, 2), Wall { x: 1, y: 1, dir: Down })));
    assert_eq!(
        generator.get_neighbor((1, 1), maze::maze::Direction::Left),
        Some(((0, 1), Wall { x: 1, y: 1, dir: maze::maze::Direction::Left }))
    );
    assert_eq!(
        generator.unvisited_neighbors(),
        vec![((0, 1), Wall { x: 0, y: 0, dir: Down }), ((1, 0), Wall { x: 0, y: 0, dir: Right })]
    );
}

#[test]
fn recursive_backtracking_starts_at_random_cells_of_the_grid() {
    let mut starts = Vec::new();
    for _ in 0..40 {
        let mut generator = RecursiveBacktrackingGenerator::new(50, 50);
        let (wall, _) = generator.next().unwrap();
        assert!(wall.x < 50 && wall.y < 50);
        starts.push((wall.x, wall.y));
    }
    assert!(starts.iter().any(|start| *start != (0, 0)));
    assert!(starts.iter().any(|start| *start != starts[0]));
}

#[test]
fn recursive_division_yields_a_perfect_maze() {
    for (width, height) in [(2, 2), (2, 5), (7, 3), (12, 9), (9, 9)] {
        let mut generator = RecursiveDivisionGenerator::new(width, height);
        assert_perfect(&generate(&mut generator));
        assert_eq!(generator.next(), None);
    }
}

#[test]
fn recursive_division_never_closes_a_gap() {
    for _ in 0..20 {
        let mut generator = RecursiveDivisionGenerator::new(6, 5);
        let edits = drain(&mut generator);
        let gaps: Vec<Wall> = edits.iter().filter(|(_, on)| !on).map(|(wall, _)| *wall).collect();
        for (wall, on) in &edits {
            if *on {
                assert!(!gaps.contains(wall));
            }
        }
        let closed = edits.iter().filter(|(_, on)| *on).count();
        assert_eq!(closed, (5 * 5 + 6 * 4) - (6 * 5 - 1));
    }
}

#[test]
fn recursive_division_places_a_split_line_in_order() {
    let mut generator = RecursiveDivisionGenerator::new(4, 3);
    assert_eq!(drain_one(&mut generator), None);
    let field = Field { x: 0, y: 0, width: 4, height: 3 };
    let (left, right) = field.split_vertically_at(1);
    assert_eq!(left, Field { x: 0, y: 0, width: 1, height: 3 });
    assert_eq!(right, Field { x: 1, y: 0, width: 3, height: 3 });
    generator.place_vertical_split(left, right, 1);
    assert_eq!(generator.next(), Some((Wall { x: 0, y: 0, dir: Right }, true)));
    assert_eq!(generator.next(), Some((Wall { x: 0, y: 2, dir: Right }, true)));
    assert_eq!(generator.next(), Some((Wall { x: 0, y: 1, dir: Right }, false)));
}

fn drain_one(generator: &mut RecursiveDivisionGenerator) -> Option<(Wall, bool)> {
    // Empties the generator so that the next split placed is the only one.
    while generator.next().is_some() {}
    generator.next()
}

#[test]
fn recursive_division_places_a_horizontal_line_in_order() {
    let mut generator = RecursiveDivisionGenerator::new(3, 4);
    assert_eq!(drain_one(&mut generator), None);
    let field = Field { x: 0, y: 0, width: 3, height: 4 };
    let (top, bottom) = field.split_horizontally_at(2);
    assert_eq!(top, Field { x: 0, y: 0, width: 3, height: 2 });
    assert_eq!(bottom, Field { x: 0, y: 2, width: 3, height: 2 });
    assert!(top.is_splittable());
    assert!(!Field { x: 0, y: 0, width: 1, height: 1 }.is_splittable());
    generator.place_horizontal_split(top, bottom, 0);
    assert_eq!(generator.next(), Some((Wall { x: 1, y: 1, dir: Down }, true)));
    assert_eq!(generator.next(), Some((Wall { x: 2, y: 1, dir: Down }, true)));
    assert_eq!(generator.next(), Some((Wall { x: 0, y: 1, dir: Down }, false)));
}

#[test]
fn field_splits_stay_inside_the_field() {
    for _ in 0..50 {
        let field = Field { x: 3, y: 4, width: 6, height: 2 };
        let (left, right) = field.split_vertically();
        assert!(1 <= left.width && left.width < 6);
        assert_eq!((left.x, left.y, left.height), (3, 4, 2));
        assert_eq!((right.x, right.y, right.height), (3 + left.width, 4, 2));
        assert_eq!(right.width, 6 - left.width);
        let (top, bottom) = field.split_horizontally();
        assert_eq!(top.height, 1);
        assert_eq!((bottom.x, bottom.y, bottom.width, bottom.height), (3, 5, 6, 1));
    }
}

#[test]
fn generate_returns_a_perfect_maze_for_each_algorithm() {
    for (width, height) in [(2, 2), (3, 8), (10, 6)] {
        assert_perfect(&BinaryTreeGenerator::generate(width, height));
        assert_perfect(&KruskalsGenerator::generate(width, height));
        assert_perfect(&RecursiveBacktrackingGenerator::generate(width, height));
        assert_perfect(&RecursiveDivisionGenerator::generate(width, height));
    }
}

#[test]
fn generated_mazes_keep_their_perimeter() {
    let mazes = [
        BinaryTreeGenerator::generate(5, 4),
        KruskalsGenerator::generate(5, 4),
        generate(&mut RecursiveDivisionGenerator::new(5, 4)),
        RecursiveDivisionGenerator::generate(5, 4),
    ];
    for maze in &mazes {
        for y in 0..4 {
            assert!(maze.get_wall(&Wall { x: 0, y, dir: maze::maze::Direction::Left }));
            assert!(maze.get_wall(&Wall { x: 4, y, dir: Right }));
        }
        for x in 0..5 {
            assert!(maze.get_wall(&Wall { x, y: 0, dir: maze::maze::Direction::Up }));
            assert!(maze.get_wall(&Wall { x, y: 3, dir: Down }));
        }
    }
}

#[test]
fn simple_generator_removes_one_wall_on_two_by_two() {
    let mut generator = SimpleGenerator::new(2, 2);
    let mut maze = generator.initial_maze();
    let edit = generator.next();
    assert_eq!(edit, Some((Wall { x: 0, y: 0, dir: Right }, false)));
    assert_eq!(generator.next(), None);
    let (wall, on) = edit.unwrap();
    assert!(maze.get_wall(&wall));
    maze.set_wall(&wall, on);
    assert!(!maze.get_wall(&wall));
    assert_eq!(open_interior_walls(&maze), 1);
}

#[test]
fn recursive_division_splits_a_square_across_its_height() {
    for _ in 0..20 {
        let mut generator = RecursiveDivisionGenerator::new(2, 2);
        let mut maze = generator.initial_maze();
        let edits = drain(&mut generator);
        assert_eq!(edits.len(), 2);
        assert!(edits[0].1);
        assert!(!edits[1].1);
        for (wall, on) in edits {
            assert_eq!(wall.dir, Down);
            assert_eq!(wall.y, 0);
            maze.set_wall(&wall, on);
        }
        let left = maze.get_wall(&Wall { x: 0, y: 0, dir: Down });
        let right = maze.get_wall(&Wall { x: 1, y: 0, dir: Down });
        assert!(left != right);
        assert!(!maze.get_wall(&Wall { x: 0, y: 0, dir: Right }));
        assert!(!maze.get_wall(&Wall { x: 0, y: 1, dir: Right }));
    }
}

#[test]
fn recursive_division_splits_along_the_longer_side() {
    for _ in 0..20 {
        let mut wide = RecursiveDivisionGenerator::new(5, 3);
        let (wall, on) = wide.next().unwrap();
        assert!(on);
        assert_eq!(wall.dir, Right);
        assert!(wall.x < 4 && wall.y < 3);

        let mut high = RecursiveDivisionGenerator::new(3, 5);
        let (wall, on) = high.next().unwrap();
        assert!(on);
        assert_eq!(wall.dir, Down);
        assert!(wall.x < 3 && wall.y < 4);
    }
}

#[test]
fn split_next_field_splits_the_field_on_top_once() {
    let mut generator = RecursiveDivisionGenerator::new(4, 2);
    generator.split_next_field();
    let mut line = Vec::new();
    for _ in 0..2 {
        line.push(generator.next().unwrap());
    }
    let x = line[0].0.x;
    assert!(x < 3);
    assert!(line[0].1 && !line[1].1);
    assert_eq!(line[0].0.dir, Right);
    assert_eq!(line[1].0.dir, Right);
    assert_eq!((line[0].0.x, line[1].0.x), (x, x));
    assert_eq!(line[0].0.y + line[1].0.y, 1);
}

#[test]
fn carving_generators_start_fully_walled() {
    let mazes = [
        SimpleGenerator::new(3, 2).initial_maze(),
        BinaryTreeGenerator::new(3, 2).initial_maze(),
        KruskalsGenerator::new(3, 2).initial_maze(),
        RecursiveBacktrackingGenerator::new(3, 2).initial_maze(),
    ];
    for maze in &mazes {
        for x in 0..3 {
            for y in 0..2 {
                for dir in [maze::maze::Direction::Up, Down, maze::maze::Direction::Left, Right] {
                    assert!(maze.get_wall(&Wall { x, y, dir }));
                }
            }
        }
    }
}

#[test]
fn recursive_backtracking_generate_keeps_the_perimeter() {
    let maze = RecursiveBacktrackingGenerator::generate(4, 3);
    for y in 0..3 {
        assert!(maze.get_wall(&Wall { x: 0, y, dir: maze::maze::Direction::Left }));
        assert!(maze.get_wall(&Wall { x: 3, y, dir: Right }));
    }
    for x in 0..4 {
        assert!(maze.get_wall(&Wall { x, y: 0, dir: maze::maze::Direction::Up }));
        assert!(maze.get_wall(&Wall { x, y: 2, dir: Down }));
    }
}

fn assert_every_open_wall_is_a_bridge(maze: &mut Maze) {
    for x in 0..maze.width() {
        for y in 0..maze.height() {
            let ways = [(Right, (x + 1, y)), (Down, (x, y + 1))];
            for (dir, far) in ways {
                let wall = Wall { x, y, dir };
                if far.0 < maze.width() && far.1 < maze.height() && !maze.get_wall(&wall) {
                    maze.set_wall(&wall, true);
                    assert_eq!(try_solve(maze, (x, y), far), None);
                    maze.set_wall(&wall, false);
                    assert_eq!(try_solve(maze, (x, y), far), Some(vec![(x, y), far]));
                }
            }
        }
    }
}

#[test]
fn closing_any_open_wall_of_a_generated_maze_parts_its_cells() {
    for (width, height) in [(2, 2), (4, 3), (6, 7)] {
        assert_every_open_wall_is_a_bridge(&mut BinaryTreeGenerator::generate(width, height));
        assert_every_open_wall_is_a_bridge(&mut KruskalsGenerator::generate(width, height));
        assert_every_open_wall_is_a_bridge(&mut RecursiveBacktrackingGenerator::generate(width, height));
        assert_every_open_wall_is_a_bridge(&mut RecursiveDivisionGenerator::generate(width, height));
    }
}
