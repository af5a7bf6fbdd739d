use vstd::arithmetic::div_mod::lemma_fundamental_div_mod;
use vstd::arithmetic::div_mod::lemma_fundamental_div_mod_converse;
use vstd::prelude::*;
use crate::generate::MazeGenerator;
use crate::generate::random::random_range;
use crate::maze::bridges::is_opening;
use crate::maze::bridges::lemma_bridge_keeps_simple_paths_unique;
use crate::maze::bridges::lemma_connected_after_opening;
use crate::maze::bridges::lemma_walled_maze_is_forest;
use crate::maze::maze::Maze;
use crate::maze::paths::connected;
use crate::maze::paths::fully_connected;
use crate::maze::paths::is_perfect;
use crate::maze::paths::lemma_connected_reflexive;
use crate::maze::paths::lemma_connected_symmetric;
use crate::maze::paths::lemma_connected_transitive;
use crate::maze::paths::lemma_opened_wall_connects;
use crate::maze::paths::lemma_opening_adds_one_open_wall;
use crate::maze::paths::lemma_opening_keeps_connected;
use crate::maze::paths::lemma_walled_maze_has_no_open_walls;
use crate::maze::paths::open_walls;
use crate::maze::paths::unique_simple_paths;
use crate::maze::wall::Direction;
use crate::maze::wall::Slot;
use crate::maze::wall::Wall;

verus! {

/// The walls that may be removed at the cell with the number `index`, the
/// cells counted row by row: the one on its right, unless the cell is in the
/// last column, and the one below it, unless it is in the last row.
pub open spec fn candidates_at(width: int, height: int, index: int) -> Seq<Wall> {
    let x = (index % width) as usize;
    let y = (index / width) as usize;
    let right = if x + 2 <= width {
        seq![(Wall { x, y, dir: Direction::Right })]
    } else {
        Seq::empty()
    };
    let down = if y + 2 <= height {
        seq![(Wall { x, y, dir: Direction::Down })]
    } else {
        Seq::empty()
    };
    right + down
}

/// Every cell but the last has a candidate, the last has none, and every
/// candidate at a cell of the grid stands between two cells.
pub proof fn lemma_candidates(width: int, height: int, index: int)
    requires
        1 < width < usize::MAX,
        1 < height < usize::MAX,
        0 <= index < width * height,
    ensures
        candidates_at(width, height, index).len() > 0 <==> index < width * height - 1,
        forall|i: int| 0 <= i < candidates_at(width, height, index).len() ==> (#[trigger] candidates_at(
            width,
            height,
            index,
        )[i]).is_interior(width, height),
        0 <= index / width < height,
        0 <= index % width < width,
{
    let x = index % width;
    let y = index / width;
    lemma_fundamental_div_mod(index, width);
    assert(0 <= y < height) by (nonlinear_arith)
        requires
            index == width * y + x,
            0 <= x < width,
            0 <= index < width * height,
            1 < width,
    ;
    if x + 2 > width && y + 2 > height {
        assert(index == width * height - 1) by (nonlinear_arith)
            requires
                index == width * y + x,
                x == width - 1,
                y == height - 1,
        ;
    }
    if index == width * height - 1 {
        assert(width * height - 1 == (height - 1) * width + (width - 1)) by (nonlinear_arith);
        lemma_fundamental_div_mod_converse(index, width, height - 1, width - 1);
    }
}

/// The cell with the number `index`, the cells counted row by row.
pub open spec fn cell_at(width: int, index: int) -> (usize, usize) {
    ((index % width) as usize, (index / width) as usize)
}

/// Whether `maze` connects the cell with the number `index` with a cell
/// whose number is `bound` or more.
pub open spec fn leads_on(maze: &Maze, width: int, height: int, index: int, bound: int) -> bool {
    exists|r: int| bound <= r < width * height && #[trigger] connected(maze, cell_at(width, index), cell_at(width, r))
}

/// The cell with the number `y * width + x` is `(x, y)`.
pub proof fn lemma_cell_at(width: int, x: int, y: int)
    requires
        0 <= x < width < usize::MAX,
        0 <= y < usize::MAX,
    ensures
        cell_at(width, y * width + x) == (x as usize, y as usize),
{
    lemma_fundamental_div_mod_converse(y * width + x, width, y, x);
}

/// The binary tree algorithm: goes through the cells row by row and removes,
/// at each, either the wall on its right or the wall below it.
pub struct BinaryTreeGenerator {
    width: usize,
    height: usize,
    cell_index: usize,
}

impl BinaryTreeGenerator {
    pub closed spec fn grid_width(&self) -> int {
        self.width as int
    }

    pub closed spec fn grid_height(&self) -> int {
        self.height as int
    }

    /// The number of the cell that is next, the cells counted row by row.
    pub closed spec fn cursor(&self) -> int {
        self.cell_index as int
    }

    pub open spec fn inv(&self) -> bool {
        &&& 1 < self.grid_width() < usize::MAX
        &&& 1 < self.grid_height() < usize::MAX
        &&& self.grid_width() * self.grid_height() <= usize::MAX
        &&& 0 <= self.cursor() <= self.grid_width() * self.grid_height()
    }

    /// The number of the next cell, or of the last one when all are passed.
    pub open spec fn frontier(&self) -> int {
        if self.cursor() < self.grid_width() * self.grid_height() - 1 {
            self.cursor()
        } else {
            self.grid_width() * self.grid_height() - 1
        }
    }

    /// Whether `maze` has the generator's dimensions and connects every cell
    /// that the generator has passed with a cell that it has not passed, or
    /// with the last cell.
    pub open spec fn passed_cells_lead_on(&self, maze: &Maze) -> bool {
        &&& maze.wf()
        &&& maze.spec_width() == self.grid_width()
        &&& maze.spec_height() == self.grid_height()
        &&& forall|i: int| 0 <= i < self.cursor() && i < self.grid_width() * self.grid_height() ==> #[trigger] leads_on(
            maze,
            self.grid_width(),
            self.grid_height(),
            i,
            self.frontier(),
        )
    }

    /// If every passed cell led on before a wall was removed at the next
    /// cell, then in the maze without that wall every passed cell leads on,
    /// the next cell now among them.
    pub proof fn lemma_removal_keeps_leading_on(&self, before: &Self, wall: Wall, maze_before: &Maze, maze_after: &Maze)
        requires
            before.inv(),
            before.cursor() < before.grid_width() * before.grid_height() - 1,
            self.grid_width() == before.grid_width(),
            self.grid_height() == before.grid_height(),
            self.cursor() == before.cursor() + 1,
            candidates_at(before.grid_width(), before.grid_height(), before.cursor()).contains(wall),
            before.passed_cells_lead_on(maze_before),
            maze_after.is_edit_of(maze_before, wall, false),
        ensures
            self.passed_cells_lead_on(maze_after),
    {
        let w = before.grid_width();
        let h = before.grid_height();
        let c = before.cursor();
        let x = c % w;
        let y = c / w;
        lemma_candidates(w, h, c);
        lemma_fundamental_div_mod(c, w);
        let candidates = candidates_at(w, h, c);
        let k = choose|k: int| 0 <= k < candidates.len() && candidates[k] == wall;
        assert(wall.is_interior(w, h));
        assert(wall.near_cell() == cell_at(w, c));
        let t = if wall.dir == Direction::Right {
            c + 1
        } else {
            c + w
        };
        if wall.dir == Direction::Right {
            assert(y * w + (x + 1) == c + 1) by (nonlinear_arith)
                requires
                    c == w * y + x,
            ;
            lemma_cell_at(w, x + 1, y);
        } else {
            assert((y + 1) * w + x == c + w) by (nonlinear_arith)
                requires
                    c == w * y + x,
            ;
            assert((y + 1) * w + x < w * h) by (nonlinear_arith)
                requires
                    y + 1 < h,
                    0 <= x < w,
            ;
            lemma_cell_at(w, x, y + 1);
        }
        let far = cell_at(w, t);
        assert(wall.far_cell() == (far.0 as int, far.1 as int));
        lemma_opened_wall_connects(maze_before, maze_after, wall, far);
        assert forall|i: int| 0 <= i < self.cursor() && i < w * h implies #[trigger] leads_on(
            maze_after,
            w,
            h,
            i,
            self.frontier(),
        ) by {
            if i == c {
                assert(connected(maze_after, cell_at(w, i), cell_at(w, t)));
            } else {
                assert(leads_on(maze_before, w, h, i, before.frontier()));
                let r = choose|r: int| c <= r < w * h && #[trigger] connected(maze_before, cell_at(w, i), cell_at(w, r));
                lemma_opening_keeps_connected(maze_before, maze_after, wall, cell_at(w, i), cell_at(w, r));
                if r == c {
                    lemma_connected_transitive(maze_after, cell_at(w, i), cell_at(w, c), cell_at(w, t));
                    assert(connected(maze_after, cell_at(w, i), cell_at(w, t)));
                }
            }
        }
    }

    /// Whether `maze` has the generator's dimensions, has one open wall for
    /// each cell that the generator has passed, the last cell not counted, and
    /// still has the walls on the right of and below every other cell.
    pub open spec fn carved_in(&self, maze: &Maze) -> bool {
        &&& maze.wf()
        &&& maze.spec_width() == self.grid_width()
        &&& maze.spec_height() == self.grid_height()
        &&& open_walls(maze).finite()
        &&& open_walls(maze).len() == self.frontier()
        &&& forall|wall: Wall|
            wall.is_interior(self.grid_width(), self.grid_height()) && wall.y * self.grid_width() + wall.x >= self.cursor()
                ==> #[trigger] maze.has_wall(wall)
    }

    /// The initial maze, before any cell is passed, has no open wall.
    pub proof fn lemma_initial_maze_carved(&self, maze: &Maze)
        requires
            self.inv(),
            self.cursor() == 0,
            maze.wf(),
            maze.spec_width() == self.grid_width(),
            maze.spec_height() == self.grid_height(),
            forall|slot: Slot| maze.has_slot(slot) && !maze.is_perimeter(slot) ==> #[trigger] maze.slot_state(slot),
        ensures
            self.carved_in(maze),
            self.passed_cells_lead_on(maze),
    {
        lemma_walled_maze_has_no_open_walls(maze);
        assert(1 <= self.grid_width() * self.grid_height() - 1) by (nonlinear_arith)
            requires
                1 < self.grid_width(),
                1 < self.grid_height(),
        ;
        assert forall|wall: Wall|
            wall.is_interior(self.grid_width(), self.grid_height()) implies #[trigger] maze.has_wall(wall) by {
            assert(maze.has_slot(wall.slot()) && !maze.is_perimeter(wall.slot()));
        }
    }

    /// Removing the wall that was picked at the next cell adds one open wall
    /// and leaves the walls of the cells that are still to come.
    pub proof fn lemma_removal_counts(&self, before: &Self, wall: Wall, maze_before: &Maze, maze_after: &Maze)
        requires
            before.inv(),
            before.cursor() < before.grid_width() * before.grid_height() - 1,
            self.grid_width() == before.grid_width(),
            self.grid_height() == before.grid_height(),
            self.cursor() == before.cursor() + 1,
            candidates_at(before.grid_width(), before.grid_height(), before.cursor()).contains(wall),
            before.carved_in(maze_before),
            maze_after.is_edit_of(maze_before, wall, false),
        ensures
            self.carved_in(maze_after),
    {
        let w = before.grid_width();
        let h = before.grid_height();
        let c = before.cursor();
        lemma_candidates(w, h, c);
        lemma_fundamental_div_mod(c, w);
        let candidates = candidates_at(w, h, c);
        let k = choose|k: int| 0 <= k < candidates.len() && candidates[k] == wall;
        assert(wall.is_interior(w, h));
        assert(wall.y * w + wall.x == c) by (nonlinear_arith)
            requires
                c == w * (c / w) + c % w,
                wall.x == c % w,
                wall.y == c / w,
        ;
        assert(maze_before.has_wall(wall));
        lemma_opening_adds_one_open_wall(maze_before, maze_after, wall);
        assert forall|other: Wall| other.is_interior(w, h) && other.y * w + other.x >= self.cursor() implies #[trigger] maze_after.has_wall(
            other,
        ) by {
            assert(maze_before.has_wall(other));
            assert(other.slot() != wall.slot());
            maze_before.lemma_cell_walls_have_slots(other);
        }
    }

    /// Whether `maze` has the generator's dimensions, has at most one simple
    /// path between any two cells, and connects no two cells that are still
    /// to come.
    pub open spec fn is_forest_of(&self, maze: &Maze) -> bool {
        &&& maze.wf()
        &&& maze.spec_width() == self.grid_width()
        &&& maze.spec_height() == self.grid_height()
        &&& unique_simple_paths(maze)
        &&& forall|r: int, s: int|
            self.cursor() <= r < self.grid_width() * self.grid_height() && self.cursor() <= s < self.grid_width()
                * self.grid_height() && #[trigger] connected(
                maze,
                cell_at(self.grid_width(), r),
                cell_at(self.grid_width(), s),
            ) ==> r == s
    }

    /// A maze with a wall between any two cells is a forest of single cells.
    pub proof fn lemma_initial_maze_forest(&self, maze: &Maze)
        requires
            self.inv(),
            maze.wf(),
            maze.spec_width() == self.grid_width(),
            maze.spec_height() == self.grid_height(),
            forall|slot: Slot| maze.has_slot(slot) && !maze.is_perimeter(slot) ==> #[trigger] maze.slot_state(slot),
        ensures
            self.is_forest_of(maze),
    {
        let w = self.grid_width();
        lemma_walled_maze_is_forest(maze);
        assert forall|r: int, s: int|
            self.cursor() <= r < w * self.grid_height() && self.cursor() <= s < w * self.grid_height() && #[trigger] connected(
                maze,
                cell_at(w, r),
                cell_at(w, s),
            ) implies r == s by {
            lemma_fundamental_div_mod(r, w);
            lemma_fundamental_div_mod(s, w);
            lemma_candidates(w, self.grid_height(), r);
            lemma_candidates(w, self.grid_height(), s);
        }
    }

    /// The wall that is removed at the next cell leads to a cell with which
    /// the maze did not connect it, so that its removal closes no cycle; and
    /// after it the maze still connects no two cells that are to come.
    pub proof fn lemma_removal_keeps_forest(&self, before: &Self, wall: Wall, maze_before: &Maze, maze_after: &Maze)
        requires
            before.inv(),
            before.cursor() < before.grid_width() * before.grid_height() - 1,
            self.grid_width() == before.grid_width(),
            self.grid_height() == before.grid_height(),
            self.cursor() == before.cursor() + 1,
            candidates_at(before.grid_width(), before.grid_height(), before.cursor()).contains(wall),
            before.is_forest_of(maze_before),
            maze_after.is_edit_of(maze_before, wall, false),
        ensures
            self.is_forest_of(maze_after),
    {
        let w = before.grid_width();
        let h = before.grid_height();
        let c = before.cursor();
        let x = c % w;
        let y = c / w;
        lemma_candidates(w, h, c);
        lemma_fundamental_div_mod(c, w);
        let candidates = candidates_at(w, h, c);
        let k = choose|k: int| 0 <= k < candidates.len() && candidates[k] == wall;
        assert(wall.is_interior(w, h));
        assert(wall.near_cell() == cell_at(w, c));
        let t = if wall.dir == Direction::Right {
            c + 1
        } else {
            c + w
        };
        if wall.dir == Direction::Right {
            assert(y * w + (x + 1) == c + 1) by (nonlinear_arith)
                requires
                    c == w * y + x,
            ;
            lemma_cell_at(w, x + 1, y);
        } else {
            assert((y + 1) * w + x == c + w) by (nonlinear_arith)
                requires
                    c == w * y + x,
            ;
            assert((y + 1) * w + x < w * h) by (nonlinear_arith)
                requires
                    y + 1 < h,
                    0 <= x < w,
            ;
            lemma_cell_at(w, x, y + 1);
        }
        let near = cell_at(w, c);
        let far = cell_at(w, t);
        assert(wall.far_cell() == (far.0 as int, far.1 as int));
        assert(is_opening(maze_before, maze_after, wall, far));
        if connected(maze_before, cell_at(w, c), cell_at(w, t)) {
            assert(c == t);
        }
        lemma_bridge_keeps_simple_paths_unique(maze_before, maze_after, wall, far);
        assert forall|r: int, s: int|
            self.cursor() <= r < w * h && self.cursor() <= s < w * h && #[trigger] connected(
                maze_after,
                cell_at(w, r),
                cell_at(w, s),
            ) implies r == s by {
            lemma_connected_after_opening(maze_before, maze_after, wall, far, cell_at(w, r), cell_at(w, s));
            if connected(maze_before, cell_at(w, r), cell_at(w, s)) {
            } else if connected(maze_before, cell_at(w, r), near) && connected(maze_before, far, cell_at(w, s)) {
                assert(connected(maze_before, cell_at(w, r), cell_at(w, c)));
                assert(r == c);
            } else {
                lemma_connected_symmetric(maze_before, near, cell_at(w, s));
                assert(connected(maze_before, cell_at(w, s), cell_at(w, c)));
                assert(s == c);
            }
        }
    }

    /// Passing the last cell, at which no wall is removed, leaves every
    /// passed cell leading on.
    pub proof fn lemma_last_cell_keeps_leading_on(&self, before: &Self, maze: &Maze)
        requires
            before.inv(),
            before.cursor() >= before.grid_width() * before.grid_height() - 1,
            self.grid_width() == before.grid_width(),
            self.grid_height() == before.grid_height(),
            self.cursor() == before.cursor() || self.cursor() == before.cursor() + 1,
            before.passed_cells_lead_on(maze),
        ensures
            self.passed_cells_lead_on(maze),
            before.carved_in(maze) ==> self.carved_in(maze),
            before.is_forest_of(maze) ==> self.is_forest_of(maze),
    {
        let w = before.grid_width();
        let h = before.grid_height();
        let last = w * h - 1;
        assert(1 <= w * h) by (nonlinear_arith)
            requires
                1 < w,
                1 < h,
        ;
        lemma_candidates(w, h, last);
        lemma_connected_reflexive(maze, cell_at(w, last));
        assert forall|i: int| 0 <= i < self.cursor() && i < w * h implies #[trigger] leads_on(maze, w, h, i, self.frontier()) by {
            if i < before.cursor() {
                assert(leads_on(maze, w, h, i, before.frontier()));
            } else {
                assert(connected(maze, cell_at(w, i), cell_at(w, last)));
            }
        }
    }

    /// Once all cells but the last are passed, a maze in which every passed
    /// cell leads on is fully connected: every cell is connected with the
    /// last one. If it has one open wall for each passed cell, it has one
    /// less than it has cells.
    pub proof fn lemma_finished_fully_connected(&self, maze: &Maze)
        requires
            self.inv(),
            self.cursor() >= self.grid_width() * self.grid_height() - 1,
            self.passed_cells_lead_on(maze),
        ensures
            fully_connected(maze),
            self.carved_in(maze) ==> open_walls(maze).len() == self.grid_width() * self.grid_height() - 1,
            self.is_forest_of(maze) ==> is_perfect(maze),
    {
        let w = self.grid_width();
        let h = self.grid_height();
        let last = w * h - 1;
        assert forall|a: (usize, usize), b: (usize, usize)|
            maze.has_cell(a.0 as int, a.1 as int) && maze.has_cell(b.0 as int, b.1 as int) implies #[trigger] connected(
            maze,
            a,
            b,
        ) by {
            self.lemma_connected_with_last(maze, a);
            self.lemma_connected_with_last(maze, b);
            lemma_connected_symmetric(maze, b, cell_at(w, last));
            lemma_connected_transitive(maze, a, cell_at(w, last), b);
        }
    }

    proof fn lemma_connected_with_last(&self, maze: &Maze, a: (usize, usize))
        requires
            self.inv(),
            self.cursor() >= self.grid_width() * self.grid_height() - 1,
            self.passed_cells_lead_on(maze),
            maze.has_cell(a.0 as int, a.1 as int),
        ensures
            connected(maze, a, cell_at(self.grid_width(), self.grid_width() * self.grid_height() - 1)),
    {
        let w = self.grid_width();
        let h = self.grid_height();
        let last = w * h - 1;
        let i = a.1 * w + a.0;
        lemma_cell_at(w, a.0 as int, a.1 as int);
        assert(0 <= i < w * h) by (nonlinear_arith)
            requires
                i == a.1 * w + a.0,
                0 <= a.0 < w,
                0 <= a.1 < h,
        ;
        if i < self.cursor() {
            assert(leads_on(maze, w, h, i, self.frontier()));
        } else {
            lemma_connected_reflexive(maze, a);
        }
    }

    /// A generator for a grid of `width` by `height` cells, at the first cell.
    /// The number of cells must fit the machine's word.
    pub fn new(width: usize, height: usize) -> (generator: BinaryTreeGenerator)
        requires
            1 < width < usize::MAX,
            1 < height < usize::MAX,
            width * height <= usize::MAX,
        ensures
            generator.inv(),
            generator.grid_width() == width,
            generator.grid_height() == height,
            generator.cursor() == 0,
    {
        assert(0 <= width * height) by (nonlinear_arith);
        BinaryTreeGenerator { width, height, cell_index: 0 }
    }

    /// Runs the algorithm to its end on a fully walled maze of `width` by
    /// `height` cells and returns the maze: it is perfect, with one open wall
    /// less than it has cells.
    pub fn generate(width: usize, height: usize) -> (maze: Maze)
        requires
            1 < width < usize::MAX,
            1 < height < usize::MAX,
            width * height <= usize::MAX,
        ensures
            maze.wf(),
            maze.spec_width() == width,
            maze.spec_height() == height,
            is_perfect(&maze),
            open_walls(&maze).len() == width * height - 1,
            maze.has_edges(),
    {
        let mut generator = BinaryTreeGenerator::new(width, height);
        let mut maze = generator.initial_maze();
        proof {
            generator.lemma_initial_maze_carved(&maze);
            generator.lemma_initial_maze_forest(&maze);
        }
        loop
            invariant
                generator.inv(),
                generator.grid_width() == width,
                generator.grid_height() == height,
                generator.passed_cells_lead_on(&maze),
                generator.carved_in(&maze),
                generator.is_forest_of(&maze),
                maze.has_edges(),
            decreases width * height - generator.cursor(),
        {
            let ghost before = generator;
            let ghost maze_before = maze;
            match generator.next() {
                Some((wall, on)) => {
                    maze.set_wall(&wall, on);
                    proof {
                        maze.lemma_interior_edit_keeps_edges(&maze_before, wall, on);
                        generator.lemma_removal_keeps_leading_on(&before, wall, &maze_before, &maze);
                        generator.lemma_removal_counts(&before, wall, &maze_before, &maze);
                        generator.lemma_removal_keeps_forest(&before, wall, &maze_before, &maze);
                    }
                },
                None => {
                    proof {
                        generator.lemma_last_cell_keeps_leading_on(&before, &maze);
                        generator.lemma_finished_fully_connected(&maze);
                    }
                    return maze;
                },
            }
        }
    }

    /// The walls that may be removed at the cell that is next.
    pub fn get_candidate_walls(&self) -> (candidates: Vec<Wall>)
        requires
            self.inv(),
        ensures
            candidates@ == candidates_at(self.grid_width(), self.grid_height(), self.cursor()),
    {
        let x = self.cell_index % self.width;
        let y = self.cell_index / self.width;
        let mut candidates: Vec<Wall> = Vec::new();
        let right_wall = Wall { x, y, dir: Direction::Right };
        if x <= self.width - 2 {
            candidates.push(right_wall);
        }
        let down_wall = Wall { x, y, dir: Direction::Down };
        if y <= self.height - 2 {
            candidates.push(down_wall);
        }
        assert(candidates@ =~= candidates_at(self.grid_width(), self.grid_height(), self.cursor()));
        candidates
    }

    /// Moves on to the next cell and removes the candidate at place `pick`,
    /// if there is any candidate.
    pub fn take_candidate(&mut self, candidates: Vec<Wall>, pick: usize) -> (edit: Option<(Wall, bool)>)
        requires
            old(self).inv(),
            old(self).cursor() < old(self).grid_width() * old(self).grid_height(),
            candidates@.len() > 0 ==> pick < candidates@.len(),
        ensures
            final(self).inv(),
            final(self).grid_width() == old(self).grid_width(),
            final(self).grid_height() == old(self).grid_height(),
            final(self).cursor() == old(self).cursor() + 1,
            edit == if candidates@.len() > 0 {
                Some((candidates@[pick as int], false))
            } else {
                None
            },
    {
        let mut candidates = candidates;
        self.cell_index += 1;
        let candidate_count = candidates.len();
        if candidate_count > 0 {
            let wall_to_remove = candidates.remove(pick);
            Some((wall_to_remove, false))
        } else {
            // Only the last cell has no candidate.
            None
        }
    }
}

impl MazeGenerator for BinaryTreeGenerator {
    open spec fn wf(&self) -> bool {
        self.inv()
    }

    open spec fn spec_width(&self) -> int {
        self.grid_width()
    }

    open spec fn spec_height(&self) -> int {
        self.grid_height()
    }

    open spec fn handed_out(&self, before: &Self, edit: Option<(Wall, bool)>) -> bool {
        &&& edit.is_some() <==> before.cursor() < before.grid_width() * before.grid_height() - 1
        &&& self.cursor() == if before.cursor() < before.grid_width() * before.grid_height() {
            before.cursor() + 1
        } else {
            before.cursor()
        }
        &&& edit.is_some() ==> {
            &&& !edit.unwrap().1
            &&& candidates_at(before.grid_width(), before.grid_height(), before.cursor()).contains(edit.unwrap().0)
        }
    }

    open spec fn exhausted(&self) -> bool {
        self.cursor() >= self.grid_width() * self.grid_height() - 1
    }

    open spec fn carves(&self) -> bool {
        true
    }

    fn width(&self) -> (width: usize) {
        self.width
    }

    fn height(&self) -> (height: usize) {
        self.height
    }

    fn initial_maze(&self) -> (maze: Maze)
        ensures
            maze.is_walled(),
            maze.has_edges(),
    {
        Maze::new_with_edges(self.width, self.height, true)
    }

    fn name(&self) -> (name: String)
        ensures
            name@ == "Binary Tree Algorithm"@,
    {
        "Binary Tree Algorithm".to_string()
    }

    /// Removes one of the candidates at the next cell, picked at random, and
    /// moves on. The last cell has no candidate: there, and after it, the
    /// sequence has ended.
    fn next(&mut self) -> (edit: Option<(Wall, bool)>)
        ensures
            edit.is_some() <==> old(self).cursor() < old(self).grid_width() * old(self).grid_height() - 1,
            final(self).cursor() == if old(self).cursor() < old(self).grid_width() * old(self).grid_height() {
                old(self).cursor() + 1
            } else {
                old(self).cursor()
            },
            edit.is_some() ==> {
                &&& !edit.unwrap().1
                &&& candidates_at(old(self).grid_width(), old(self).grid_height(), old(self).cursor()).contains(edit.unwrap().0)
                &&& edit.unwrap().0.is_interior(old(self).grid_width(), old(self).grid_height())
            },
    {
        if self.cell_index >= self.width * self.height {
            return None;
        }
        proof {
            lemma_candidates(self.grid_width(), self.grid_height(), self.cursor());
        }
        let candidates = self.get_candidate_walls();
        let pick = if candidates.len() > 0 {
            random_range(0, candidates.len())
        } else {
            0
        };
        self.take_candidate(candidates, pick)
    }
}

} // verus!
