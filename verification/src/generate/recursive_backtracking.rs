use vstd::prelude::*;
use vstd::set_lib::lemma_len_subset;
use crate::generate::MazeGenerator;
use crate::generate::random::choose_one;
use crate::generate::random::random_range;
use crate::maze::bridges::is_opening;
use crate::maze::bridges::lemma_bridge_keeps_simple_paths_unique;
use crate::maze::bridges::lemma_enclosed_cell_is_isolated;
use crate::maze::bridges::lemma_walled_maze_is_forest;
use crate::maze::cells::grid_cells;
use crate::maze::cells::lemma_grid_cells_count;
use crate::maze::maze::Maze;
use crate::maze::paths::connected;
use crate::maze::paths::fully_connected;
use crate::maze::paths::is_perfect;
use crate::maze::paths::lemma_connected_reflexive;
use crate::maze::paths::lemma_connected_transitive;
use crate::maze::paths::lemma_opened_wall_connects;
use crate::maze::paths::lemma_opening_adds_one_open_wall;
use crate::maze::paths::lemma_opening_keeps_connected;
use crate::maze::paths::lemma_walled_maze_has_no_open_walls;
use crate::maze::paths::open_walls;
use crate::maze::paths::passage;
use crate::maze::paths::unique_simple_paths;
use crate::maze::wall::Direction;
use crate::maze::wall::Slot;
use crate::maze::wall::Wall;

verus! {

/// The neighbour of `cell` on the side `dir` together with the wall between
/// the two, if that neighbour is a cell of a `width` by `height` grid.
pub open spec fn neighbor_toward(width: int, height: int, cell: (usize, usize), dir: Direction) -> Option<
    ((usize, usize), Wall),
> {
    let wall = Wall { x: cell.0, y: cell.1, dir };
    let far = wall.far_cell();
    if 0 <= far.0 < width && 0 <= far.1 < height {
        Some(((far.0 as usize, far.1 as usize), wall))
    } else {
        None
    }
}

spec fn marked(grid: Seq<Vec<bool>>, cell: (usize, usize)) -> bool {
    grid[cell.0 as int]@[cell.1 as int]
}

/// Recursive backtracking: a random depth-first walk that removes the wall to
/// each new cell it enters and steps back where no new cell is next to it.
pub struct RecursiveBacktrackingGenerator {
    width: usize,
    height: usize,
    visited_cells: Vec<Vec<bool>>,
    backtrack_stack: Vec<(usize, usize)>,
    current_cell: (usize, usize),
}

impl RecursiveBacktrackingGenerator {
    pub closed spec fn grid_width(&self) -> int {
        self.width as int
    }

    pub closed spec fn grid_height(&self) -> int {
        self.height as int
    }

    pub open spec fn has_cell(&self, cell: (usize, usize)) -> bool {
        cell.0 < self.grid_width() && cell.1 < self.grid_height()
    }

    /// Whether the walk has entered `cell`.
    pub closed spec fn visited(&self, cell: (usize, usize)) -> bool {
        marked(self.visited_cells@, cell)
    }

    /// The cells to which the walk can still step back, the latest last.
    pub closed spec fn stack(&self) -> Seq<(usize, usize)> {
        self.backtrack_stack@
    }

    /// The cell at which the walk stands.
    pub closed spec fn current(&self) -> (usize, usize) {
        self.current_cell
    }

    pub open spec fn all_visited(&self) -> bool {
        forall|cell: (usize, usize)| self.has_cell(cell) ==> #[trigger] self.visited(cell)
    }

    /// Whether the neighbour of `cell` on the side `dir`, if there is one, has
    /// been visited.
    pub open spec fn settled_toward(&self, cell: (usize, usize), dir: Direction) -> bool {
        match neighbor_toward(self.grid_width(), self.grid_height(), cell, dir) {
            Some((neighbor, _)) => self.visited(neighbor),
            None => true,
        }
    }

    /// Whether no unvisited cell is next to `cell`.
    pub open spec fn finished(&self, cell: (usize, usize)) -> bool {
        &&& self.settled_toward(cell, Direction::Up)
        &&& self.settled_toward(cell, Direction::Down)
        &&& self.settled_toward(cell, Direction::Left)
        &&& self.settled_toward(cell, Direction::Right)
    }

    /// Whether the walk can go on from the current cell through `wall` to the
    /// unvisited cell `neighbor`.
    pub open spec fn is_step(&self, neighbor: (usize, usize), wall: Wall) -> bool {
        &&& !self.visited(neighbor)
        &&& self.has_cell(neighbor)
        &&& neighbor_toward(self.grid_width(), self.grid_height(), self.current(), wall.dir) == Some((neighbor, wall))
    }

    /// The unvisited neighbour of the current cell on the side `dir`, as a
    /// sequence of at most one step.
    pub open spec fn step_toward(&self, dir: Direction) -> Seq<((usize, usize), Wall)> {
        match neighbor_toward(self.grid_width(), self.grid_height(), self.current(), dir) {
            Some((neighbor, wall)) => if self.visited(neighbor) {
                Seq::empty()
            } else {
                seq![(neighbor, wall)]
            },
            None => Seq::empty(),
        }
    }

    /// The steps that are open to the walk, in the order up, down, left,
    /// right.
    pub open spec fn open_steps(&self) -> Seq<((usize, usize), Wall)> {
        self.step_toward(Direction::Up) + self.step_toward(Direction::Down) + self.step_toward(Direction::Left)
            + self.step_toward(Direction::Right)
    }

    /// What holds whether or not the current cell is on top of the stack: the
    /// current cell and those of the stack are visited cells of the grid, and
    /// every other visited cell has no unvisited cell next to it.
    pub closed spec fn settled(&self) -> bool {
        &&& 1 < self.width < usize::MAX
        &&& 1 < self.height < usize::MAX
        &&& self.visited_cells@.len() == self.width
        &&& forall|x: int| 0 <= x < self.width ==> (#[trigger] self.visited_cells@[x])@.len() == self.height
        &&& self.has_cell(self.current_cell)
        &&& self.visited(self.current_cell)
        &&& forall|i: int| 0 <= i < self.backtrack_stack@.len() ==> self.has_cell(#[trigger] self.backtrack_stack@[i])
            && self.visited(self.backtrack_stack@[i])
        &&& forall|cell: (usize, usize)| self.has_cell(cell) && self.visited(cell) && !self.backtrack_stack@.contains(cell)
            ==> #[trigger] self.finished(cell)
    }

    /// The state is settled, and the walk stands on the top cell of the stack,
    /// if there is one.
    pub open spec fn inv(&self) -> bool {
        &&& self.settled()
        &&& self.stack().len() > 0 ==> self.stack().last() == self.current()
    }

    pub proof fn lemma_dimensions(&self)
        requires
            self.settled(),
        ensures
            1 < self.grid_width() < usize::MAX,
            1 < self.grid_height() < usize::MAX,
            self.has_cell(self.current()),
            self.visited(self.current()),
    {
    }

    /// A walk that starts at `cell`.
    pub fn starting_at(width: usize, height: usize, cell: (usize, usize)) -> (generator: Self)
        requires
            1 < width < usize::MAX,
            1 < height < usize::MAX,
            cell.0 < width,
            cell.1 < height,
        ensures
            generator.inv(),
            generator.grid_width() == width,
            generator.grid_height() == height,
            generator.current() == cell,
            generator.stack() == seq![cell],
            forall|c: (usize, usize)| generator.has_cell(c) ==> (#[trigger] generator.visited(c) <==> c == cell),
    {
        let mut visited_cells: Vec<Vec<bool>> = Vec::new();
        let mut x: usize = 0;
        while x < width
            invariant
                x <= width,
                visited_cells@.len() == x,
                forall|i: int| 0 <= i < x ==> (#[trigger] visited_cells@[i])@.len() == height,
                forall|i: int, j: int| 0 <= i < x && 0 <= j < height ==> !(#[trigger] visited_cells@[i]@[j]),
            decreases width - x,
        {
            let mut column: Vec<bool> = Vec::new();
            let mut y: usize = 0;
            while y < height
                invariant
                    y <= height,
                    column@.len() == y,
                    forall|j: int| 0 <= j < y ==> !(#[trigger] column@[j]),
                decreases height - y,
            {
                column.push(false);
                y += 1;
            }
            visited_cells.push(column);
            x += 1;
        }
        visited_cells[cell.0][cell.1] = true;
        let mut backtrack_stack: Vec<(usize, usize)> = Vec::new();
        backtrack_stack.push(cell);
        let generator = Self { width, height, visited_cells, backtrack_stack, current_cell: cell };
        proof {
            assert(generator.stack() =~= seq![cell]);
            assert(generator.backtrack_stack@[0] == cell);
            assert forall|c: (usize, usize)| generator.has_cell(c) implies (#[trigger] generator.visited(c) <==> c == cell) by {}
        }
        generator
    }

    /// A walk that starts at a random cell.
    pub fn new(width: usize, height: usize) -> (generator: Self)
        requires
            1 < width < usize::MAX,
            1 < height < usize::MAX,
        ensures
            generator.inv(),
            generator.grid_width() == width,
            generator.grid_height() == height,
            generator.has_cell(generator.current()),
            generator.stack() == seq![generator.current()],
            forall|c: (usize, usize)| generator.has_cell(c) ==> (#[trigger] generator.visited(c) <==> c == generator.current()),
    {
        let current_cell = (random_range(0, width), random_range(0, height));
        Self::starting_at(width, height, current_cell)
    }

    /// Runs the algorithm to its end on a fully walled maze of `width` by
    /// `height` cells and returns the maze: it is perfect, with one open wall
    /// less than it has cells.
    pub fn generate(width: usize, height: usize) -> (maze: Maze)
        requires
            1 < width < usize::MAX,
            1 < height < usize::MAX,
        ensures
            maze.wf(),
            maze.spec_width() == width,
            maze.spec_height() == height,
            is_perfect(&maze),
            open_walls(&maze).len() == width * height - 1,
            maze.has_edges(),
    {
        let mut generator = Self::new(width, height);
        let mut maze = generator.initial_maze();
        proof {
            generator.lemma_start_connected(&maze);
            generator.lemma_start_carved(&maze);
            lemma_walled_maze_is_forest(&maze);
        }
        loop
            invariant
                generator.inv(),
                generator.grid_width() == width,
                generator.grid_height() == height,
                generator.visited_connected_in(&maze),
                generator.carved_in(&maze),
                unique_simple_paths(&maze),
                maze.has_edges(),
            decreases width * height - generator.visited_set().len(),
        {
            let ghost before = generator;
            let ghost maze_before = maze;
            match generator.next() {
                Some((wall, on)) => {
                    maze.set_wall(&wall, on);
                    proof {
                        maze.lemma_interior_edit_keeps_edges(&maze_before, wall, on);
                        generator.lemma_step_keeps_visited_connected(&before, wall, &maze_before, &maze);
                        generator.lemma_step_counts(&before, wall, &maze_before, &maze);
                        generator.lemma_step_keeps_paths_unique(&before, wall, &maze_before, &maze);
                        lemma_grid_cells_count(width as int, height as int);
                        lemma_len_subset(generator.visited_set(), grid_cells(width as int, height as int));
                    }
                },
                None => {
                    proof {
                        before.lemma_done_is_perfect(&maze);
                        before.lemma_done_counts(&maze);
                    }
                    return maze;
                },
            }
        }
    }

    /// The neighbour of `cell` on the side `dir` and the wall between the two,
    /// if that neighbour is a cell of the grid.
    pub fn get_neighbor(&self, cell: (usize, usize), dir: Direction) -> (neighbor: Option<((usize, usize), Wall)>)
        requires
            self.settled(),
            self.has_cell(cell),
        ensures
            neighbor == neighbor_toward(self.grid_width(), self.grid_height(), cell, dir),
    {
        let (x, y) = cell;
        let neighbor = match dir {
            Direction::Up => if y == 0 {
                return None;
            } else {
                (x, y - 1)
            },
            Direction::Down => if y >= self.height - 1 {
                return None;
            } else {
                (x, y + 1)
            },
            Direction::Left => if x == 0 {
                return None;
            } else {
                (x - 1, y)
            },
            Direction::Right => if x >= self.width - 1 {
                return None;
            } else {
                (x + 1, y)
            },
        };
        Some((neighbor, Wall { x, y, dir }))
    }

    /// Adds the step from the current cell toward `dir` to `steps`, if it
    /// leads to an unvisited cell.
    fn add_step(&self, steps: &mut Vec<((usize, usize), Wall)>, dir: Direction)
        requires
            self.settled(),
        ensures
            final(steps)@ == old(steps)@ + self.step_toward(dir),
    {
        match self.get_neighbor(self.current_cell, dir) {
            Some((neighbor, wall)) => {
                if !self.visited_cells[neighbor.0][neighbor.1] {
                    steps.push((neighbor, wall));
                    assert(steps@ =~= old(steps)@ + self.step_toward(dir));
                } else {
                    assert(steps@ =~= old(steps)@ + self.step_toward(dir));
                }
            },
            None => {
                assert(steps@ =~= old(steps)@ + self.step_toward(dir));
            },
        }
    }

    /// The steps that are open to the walk, in the order up, down, left,
    /// right.
    pub fn unvisited_neighbors(&self) -> (steps: Vec<((usize, usize), Wall)>)
        requires
            self.settled(),
        ensures
            steps@ == self.open_steps(),
    {
        let mut steps: Vec<((usize, usize), Wall)> = Vec::new();
        self.add_step(&mut steps, Direction::Up);
        self.add_step(&mut steps, Direction::Down);
        self.add_step(&mut steps, Direction::Left);
        self.add_step(&mut steps, Direction::Right);
        assert(steps@ =~= self.open_steps());
        steps
    }

    /// The open steps are the steps to an unvisited neighbour, and there is
    /// none if and only if the current cell is finished.
    pub proof fn lemma_open_steps(&self)
        requires
            self.settled(),
        ensures
            self.open_steps().len() == 0 <==> self.finished(self.current()),
            forall|i: int| 0 <= i < self.open_steps().len() ==> self.is_step(
                (#[trigger] self.open_steps()[i]).0,
                self.open_steps()[i].1,
            ),
    {
        let up = self.step_toward(Direction::Up);
        let down = self.step_toward(Direction::Down);
        let left = self.step_toward(Direction::Left);
        let right = self.step_toward(Direction::Right);
        assert forall|i: int| 0 <= i < self.open_steps().len() implies self.is_step(
            (#[trigger] self.open_steps()[i]).0,
            self.open_steps()[i].1,
        ) by {
            let step = self.open_steps()[i];
            if i < up.len() {
                assert(step == up[i]);
            } else if i < up.len() + down.len() {
                assert(step == down[i - up.len()]);
            } else if i < up.len() + down.len() + left.len() {
                assert(step == left[i - up.len() - down.len()]);
            } else {
                assert(step == right[i - up.len() - down.len() - left.len()]);
            }
        }
    }

    /// One of the open steps, picked at random; `None` if there is none.
    fn next_unvisited(&self) -> (step: Option<((usize, usize), Wall)>)
        requires
            self.settled(),
        ensures
            step.is_none() <==> self.finished(self.current()),
            step.is_some() ==> self.is_step(step.unwrap().0, step.unwrap().1),
    {
        let steps = self.unvisited_neighbors();
        proof {
            self.lemma_open_steps();
        }
        let step = choose_one(steps);
        proof {
            if step.is_some() {
                let i = choose|i: int| 0 <= i < steps@.len() && steps@[i] == step.unwrap();
                assert(self.is_step(self.open_steps()[i].0, self.open_steps()[i].1));
            }
        }
        step
    }

    /// Steps back along the stack to the latest cell that has an unvisited
    /// neighbour and picks a step from there; `None` once the stack is empty.
    pub fn backtrack_and_next_unvisited(&mut self) -> (step: Option<((usize, usize), Wall)>)
        requires
            old(self).inv(),
            old(self).finished(old(self).current()),
        ensures
            final(self).inv(),
            final(self).grid_width() == old(self).grid_width(),
            final(self).grid_height() == old(self).grid_height(),
            forall|c: (usize, usize)| final(self).visited(c) == old(self).visited(c),
            step.is_none() ==> final(self).stack().len() == 0,
            step.is_some() ==> final(self).stack().len() > 0 && final(self).is_step(step.unwrap().0, step.unwrap().1),
            final(self).stack() == old(self).stack().take(final(self).stack().len() as int),
            forall|i: int| final(self).stack().len() <= i < old(self).stack().len() ==> old(self).finished(#[trigger] old(self).stack()[i]),
    {
        loop
            invariant
                self.settled(),
                self.width == old(self).width,
                self.height == old(self).height,
                self.visited_cells == old(self).visited_cells,
                self.backtrack_stack@.len() > 0 ==> self.finished(self.backtrack_stack@.last()),
                self.backtrack_stack@.len() <= old(self).backtrack_stack@.len(),
                self.backtrack_stack@ == old(self).backtrack_stack@.take(self.backtrack_stack@.len() as int),
                forall|i: int| self.backtrack_stack@.len() <= i < old(self).backtrack_stack@.len() ==> old(self).finished(
                    #[trigger] old(self).backtrack_stack@[i],
                ),
            decreases self.backtrack_stack@.len(),
        {
            let ghost before = *self;
            self.backtrack_stack.pop();
            proof {
                assert(self.backtrack_stack@ =~= old(self).backtrack_stack@.take(self.backtrack_stack@.len() as int));
                if before.backtrack_stack@.len() > 0 {
                    let top = before.backtrack_stack@.len() - 1;
                    assert(old(self).backtrack_stack@[top] == before.backtrack_stack@[top]);
                    assert(before.finished(before.backtrack_stack@[top]));
                    assert(old(self).finished(old(self).backtrack_stack@[top]));
                }
                assert forall|cell: (usize, usize)|
                    self.has_cell(cell) && self.visited(cell) && !self.backtrack_stack@.contains(
                        cell,
                    ) implies #[trigger] self.finished(cell) by {
                    if before.backtrack_stack@.contains(cell) {
                        let i = choose|i: int| 0 <= i < before.backtrack_stack@.len() && before.backtrack_stack@[i] == cell;
                        if i < self.backtrack_stack@.len() {
                            assert(self.backtrack_stack@[i] == cell);
                        }
                    }
                    assert(before.finished(cell));
                }
            }
            if self.backtrack_stack.len() == 0 {
                return None;
            }
            let ghost popped = *self;
            self.current_cell = self.backtrack_stack[self.backtrack_stack.len() - 1];
            proof {
                assert forall|cell: (usize, usize)|
                    self.has_cell(cell) && self.visited(cell) && !self.backtrack_stack@.contains(
                        cell,
                    ) implies #[trigger] self.finished(cell) by {
                    assert(popped.finished(cell));
                }
            }
            let step = self.next_unvisited();
            if step.is_some() {
                return step;
            }
        }
    }

    /// This state is `before` after the walk went through `wall`: the wall
    /// leads from a visited cell to a cell that was not visited, and that one
    /// cell is now visited too; the walk stands on it. The stack has lost the
    /// cells above the one from which the wall leads, all of them finished,
    /// and has the new cell on top.
    pub open spec fn entered_from(&self, before: &Self, wall: Wall) -> bool {
        let entered = self.current();
        &&& before.has_cell(wall.near_cell())
        &&& before.visited(wall.near_cell())
        &&& before.has_cell(entered)
        &&& !before.visited(entered)
        &&& wall.far_cell() == (entered.0 as int, entered.1 as int)
        &&& forall|c: (usize, usize)| before.has_cell(c) ==> #[trigger] self.visited(c) == (before.visited(c) || c == entered)
        &&& self.stack().len() >= 2
        &&& self.stack().last() == entered
        &&& self.stack()[self.stack().len() - 2] == wall.near_cell()
        &&& self.stack().drop_last() == before.stack().take(self.stack().len() - 1)
        &&& forall|i: int| self.stack().len() - 1 <= i < before.stack().len() ==> before.finished(#[trigger] before.stack()[i])
    }

    /// Whether `maze` has the generator's dimensions and connects any two
    /// visited cells.
    pub open spec fn visited_connected_in(&self, maze: &Maze) -> bool {
        &&& maze.wf()
        &&& maze.spec_width() == self.grid_width()
        &&& maze.spec_height() == self.grid_height()
        &&& forall|a: (usize, usize), b: (usize, usize)|
            self.has_cell(a) && self.has_cell(b) && self.visited(a) && self.visited(b) ==> #[trigger] connected(maze, a, b)
    }

    /// While one cell only is visited, any maze of the generator's size
    /// connects the visited cells.
    pub proof fn lemma_start_connected(&self, maze: &Maze)
        requires
            maze.wf(),
            maze.spec_width() == self.grid_width(),
            maze.spec_height() == self.grid_height(),
            forall|c: (usize, usize)| self.has_cell(c) ==> (#[trigger] self.visited(c) <==> c == self.current()),
        ensures
            self.visited_connected_in(maze),
    {
        assert forall|a: (usize, usize), b: (usize, usize)|
            self.has_cell(a) && self.has_cell(b) && self.visited(a) && self.visited(b) implies #[trigger] connected(
            maze,
            a,
            b,
        ) by {
            lemma_connected_reflexive(maze, a);
        }
    }

    /// If the maze connected the visited cells before the walk went through
    /// `wall`, then the maze with that wall removed connects the visited cells
    /// after it.
    pub proof fn lemma_step_keeps_visited_connected(&self, before: &Self, wall: Wall, maze_before: &Maze, maze_after: &Maze)
        requires
            self.grid_width() == before.grid_width(),
            self.grid_height() == before.grid_height(),
            self.entered_from(before, wall),
            before.visited_connected_in(maze_before),
            maze_after.is_edit_of(maze_before, wall, false),
        ensures
            self.visited_connected_in(maze_after),
    {
        let near = wall.near_cell();
        let entered = self.current();
        lemma_opened_wall_connects(maze_before, maze_after, wall, entered);
        assert forall|a: (usize, usize), b: (usize, usize)|
            self.has_cell(a) && self.has_cell(b) && self.visited(a) && self.visited(b) implies #[trigger] connected(
            maze_after,
            a,
            b,
        ) by {
            if a == entered && b == entered {
                lemma_connected_reflexive(maze_after, a);
            } else if a == entered {
                assert(connected(maze_before, near, b));
                lemma_opening_keeps_connected(maze_before, maze_after, wall, near, b);
                lemma_connected_transitive(maze_after, a, near, b);
            } else if b == entered {
                assert(connected(maze_before, a, near));
                lemma_opening_keeps_connected(maze_before, maze_after, wall, a, near);
                lemma_connected_transitive(maze_after, a, near, b);
            } else {
                assert(connected(maze_before, a, b));
                lemma_opening_keeps_connected(maze_before, maze_after, wall, a, b);
            }
        }
    }

    /// The cells that the walk has entered.
    pub open spec fn visited_set(&self) -> Set<(usize, usize)> {
        Set::new(|cell: (usize, usize)| self.has_cell(cell) && self.visited(cell))
    }

    /// Each step of the walk visits one cell more; there are never more
    /// visited cells than the grid has cells.
    pub proof fn lemma_step_visits_one_more(&self, before: &Self, wall: Wall)
        requires
            before.settled(),
            self.grid_width() == before.grid_width(),
            self.grid_height() == before.grid_height(),
            self.entered_from(before, wall),
        ensures
            before.visited_set().finite(),
            self.visited_set() == before.visited_set().insert(self.current()),
            self.visited_set().len() == before.visited_set().len() + 1,
            self.visited_set().len() <= self.grid_width() * self.grid_height(),
    {
        let grid = grid_cells(self.grid_width(), self.grid_height());
        lemma_grid_cells_count(self.grid_width(), self.grid_height());
        lemma_len_subset(before.visited_set(), grid);
        assert(self.visited_set() =~= before.visited_set().insert(self.current()));
        lemma_len_subset(self.visited_set(), grid);
    }

    /// Whether `maze` has the generator's dimensions, has one open wall less
    /// than there are visited cells, and has a wall wherever one of the two
    /// cells is not visited.
    pub open spec fn carved_in(&self, maze: &Maze) -> bool {
        &&& maze.wf()
        &&& maze.spec_width() == self.grid_width()
        &&& maze.spec_height() == self.grid_height()
        &&& open_walls(maze).finite()
        &&& self.visited_set().finite()
        &&& open_walls(maze).len() + 1 == self.visited_set().len()
        &&& forall|wall: Wall|
            {
                let far = wall.far_cell();
                &&& self.has_cell(wall.near_cell())
                &&& 0 <= far.0 < self.grid_width()
                &&& 0 <= far.1 < self.grid_height()
                &&& !self.visited(wall.near_cell()) || !self.visited((far.0 as usize, far.1 as usize))
            } ==> #[trigger] maze.has_wall(wall)
    }

    /// While one cell only is visited, a maze with a wall between any two
    /// cells has a wall wherever the walk has not been, and no open wall.
    pub proof fn lemma_start_carved(&self, maze: &Maze)
        requires
            self.settled(),
            maze.wf(),
            maze.spec_width() == self.grid_width(),
            maze.spec_height() == self.grid_height(),
            forall|c: (usize, usize)| self.has_cell(c) ==> (#[trigger] self.visited(c) <==> c == self.current()),
            forall|slot: Slot| maze.has_slot(slot) && !maze.is_perimeter(slot) ==> #[trigger] maze.slot_state(slot),
        ensures
            self.carved_in(maze),
            self.visited_set().len() == 1,
    {
        lemma_walled_maze_has_no_open_walls(maze);
        assert(self.visited_set() =~= Set::<(usize, usize)>::empty().insert(self.current()));
        assert forall|wall: Wall|
            ({
                let far = wall.far_cell();
                &&& self.has_cell(wall.near_cell())
                &&& 0 <= far.0 < self.grid_width()
                &&& 0 <= far.1 < self.grid_height()
            }) implies #[trigger] maze.has_wall(wall) by {
            assert(maze.has_slot(wall.slot()) && !maze.is_perimeter(wall.slot()));
        }
    }

    /// A step of the walk visits one cell more and, in the maze, removes one
    /// wall that stood.
    pub proof fn lemma_step_counts(&self, before: &Self, wall: Wall, maze_before: &Maze, maze_after: &Maze)
        requires
            self.grid_width() == before.grid_width(),
            self.grid_height() == before.grid_height(),
            self.entered_from(before, wall),
            before.carved_in(maze_before),
            maze_after.is_edit_of(maze_before, wall, false),
        ensures
            self.visited_set() == before.visited_set().insert(self.current()),
            self.visited_set().len() == before.visited_set().len() + 1,
            self.carved_in(maze_after),
    {
        let entered = self.current();
        assert(self.visited_set() =~= before.visited_set().insert(entered));
        assert(maze_before.has_wall(wall));
        lemma_opening_adds_one_open_wall(maze_before, maze_after, wall);
        assert forall|other: Wall|
            ({
                let far = other.far_cell();
                &&& self.has_cell(other.near_cell())
                &&& 0 <= far.0 < self.grid_width()
                &&& 0 <= far.1 < self.grid_height()
                &&& !self.visited(other.near_cell()) || !self.visited((far.0 as usize, far.1 as usize))
            }) implies #[trigger] maze_after.has_wall(other) by {
            let far = other.far_cell();
            assert(before.has_cell((far.0 as usize, far.1 as usize)));
            assert(maze_before.has_wall(other));
            maze_before.lemma_cell_walls_have_slots(other);
            assert(other.slot() != wall.slot());
        }
    }

    /// The cell that the walk enters was connected with no other cell, so that
    /// the removal of the wall closes no cycle: simple paths stay unique.
    pub proof fn lemma_step_keeps_paths_unique(&self, before: &Self, wall: Wall, maze_before: &Maze, maze_after: &Maze)
        requires
            self.grid_width() == before.grid_width(),
            self.grid_height() == before.grid_height(),
            self.entered_from(before, wall),
            before.carved_in(maze_before),
            unique_simple_paths(maze_before),
            maze_after.is_edit_of(maze_before, wall, false),
        ensures
            !connected(maze_before, wall.near_cell(), self.current()),
            unique_simple_paths(maze_after),
    {
        let entered = self.current();
        assert forall|from: (usize, usize)| !#[trigger] passage(maze_before, from, entered) by {
            if maze_before.has_cell(from.0 as int, from.1 as int) {
                assert(maze_before.has_wall(Wall { x: from.0, y: from.1, dir: Direction::Right }) || !(entered.0 == from.0 + 1
                    && entered.1 == from.1));
                assert(maze_before.has_wall(Wall { x: from.0, y: from.1, dir: Direction::Left }) || !(entered.0 + 1 == from.0
                    && entered.1 == from.1));
                assert(maze_before.has_wall(Wall { x: from.0, y: from.1, dir: Direction::Down }) || !(entered.0 == from.0
                    && entered.1 == from.1 + 1));
                assert(maze_before.has_wall(Wall { x: from.0, y: from.1, dir: Direction::Up }) || !(entered.0 == from.0
                    && entered.1 + 1 == from.1));
            }
        }
        if connected(maze_before, wall.near_cell(), entered) {
            lemma_enclosed_cell_is_isolated(maze_before, entered, wall.near_cell());
        }
        assert(is_opening(maze_before, maze_after, wall, entered));
        lemma_bridge_keeps_simple_paths_unique(maze_before, maze_after, wall, entered);
    }

    /// Once every cell is visited, a maze that the generator's edits have
    /// carved from a fully walled one is perfect: fully connected, with one
    /// simple path between any two cells.
    pub proof fn lemma_done_is_perfect(&self, maze: &Maze)
        requires
            self.all_visited(),
            self.visited_connected_in(maze),
            unique_simple_paths(maze),
        ensures
            is_perfect(maze),
    {
        self.lemma_done_fully_connected(maze);
    }

    /// Once every cell is visited, as many cells are visited as the grid has,
    /// and a maze that has one open wall less than there are visited cells has
    /// one less than it has cells.
    pub proof fn lemma_done_counts(&self, maze: &Maze)
        requires
            self.settled(),
            self.all_visited(),
        ensures
            self.visited_set().len() == self.grid_width() * self.grid_height(),
            self.carved_in(maze) ==> open_walls(maze).len() == self.grid_width() * self.grid_height() - 1,
    {
        lemma_grid_cells_count(self.grid_width(), self.grid_height());
        assert(self.visited_set() =~= grid_cells(self.grid_width(), self.grid_height()));
    }

    /// Once every cell is visited, a maze that connects the visited cells is
    /// fully connected.
    pub proof fn lemma_done_fully_connected(&self, maze: &Maze)
        requires
            self.all_visited(),
            self.visited_connected_in(maze),
        ensures
            fully_connected(maze),
    {
    }

    /// With an empty stack, every cell has been visited.
    pub proof fn lemma_empty_stack_all_visited(&self)
        requires
            self.settled(),
            self.stack().len() == 0,
        ensures
            self.all_visited(),
    {
        assert forall|cell: (usize, usize)| self.has_cell(cell) implies #[trigger] self.visited(cell) by {
            self.lemma_visited_spreads(self.current_cell, cell);
        }
    }

    proof fn lemma_visited_spreads(&self, from: (usize, usize), to: (usize, usize))
        requires
            self.settled(),
            self.stack().len() == 0,
            self.has_cell(from),
            self.has_cell(to),
            self.visited(from),
        ensures
            self.visited(to),
        decreases
                (if from.0 < to.0 {
                    to.0 - from.0
                } else {
                    from.0 - to.0
                }) + (if from.1 < to.1 {
                    to.1 - from.1
                } else {
                    from.1 - to.1
                }),
    {
        assert(self.finished(from));
        if from.0 < to.0 {
            assert(self.settled_toward(from, Direction::Right));
            self.lemma_visited_spreads(((from.0 + 1) as usize, from.1), to);
        } else if from.0 > to.0 {
            assert(self.settled_toward(from, Direction::Left));
            self.lemma_visited_spreads(((from.0 - 1) as usize, from.1), to);
        } else if from.1 < to.1 {
            assert(self.settled_toward(from, Direction::Down));
            self.lemma_visited_spreads((from.0, (from.1 + 1) as usize), to);
        } else if from.1 > to.1 {
            assert(self.settled_toward(from, Direction::Up));
            self.lemma_visited_spreads((from.0, (from.1 - 1) as usize), to);
        }
    }
}

impl MazeGenerator for RecursiveBacktrackingGenerator {
    open spec fn wf(&self) -> bool {
        self.inv()
    }

    open spec fn spec_width(&self) -> int {
        self.grid_width()
    }

    open spec fn spec_height(&self) -> int {
        self.grid_height()
    }

    open spec fn handed_out(&self, before: &Self, edit: Option<(Wall, bool)>) -> bool {
        match edit {
            Some((wall, on)) => !on && !before.all_visited() && self.entered_from(before, wall),
            None => {
                &&& before.all_visited()
                &&& self.stack().len() == 0
                &&& forall|c: (usize, usize)| self.visited(c) == before.visited(c)
            },
        }
    }

    open spec fn exhausted(&self) -> bool {
        self.all_visited()
    }

    open spec fn carves(&self) -> bool {
        true
    }

    fn width(&self) -> (width: usize) {
        self.width
    }

    fn height(&self) -> (height: usize) {
        self.height
    }

    fn initial_maze(&self) -> (maze: Maze)
        ensures
            maze.is_walled(),
            maze.has_edges(),
    {
        Maze::new(self.width, self.height, true)
    }

    fn name(&self) -> (name: String)
        ensures
            name@ == "Recursive Backtracking"@,
    {
        "Recursive Backtracking".to_string()
    }

    /// Steps from the current cell to an unvisited neighbour, picked at
    /// random, and removes the wall between the two; where the current cell
    /// has none, from the latest cell of the stack that has one. Ends, with an
    /// empty stack, when every cell has been visited.
    fn next(&mut self) -> (edit: Option<(Wall, bool)>)
        ensures
            edit.is_none() <==> old(self).all_visited(),
            edit.is_none() ==> {
                &&& final(self).stack().len() == 0
                &&& forall|c: (usize, usize)| final(self).visited(c) == old(self).visited(c)
            },
            edit.is_some() ==> !edit.unwrap().1 && final(self).entered_from(old(self), edit.unwrap().0),
    {
        let first = self.next_unvisited();
        proof {
            if self.stack().len() == 0 {
                self.lemma_empty_stack_all_visited();
            }
        }
        let step = match first {
            Some(step) => Some(step),
            None => self.backtrack_and_next_unvisited(),
        };
        let (next_cell, carved_wall) = match step {
            Some(step) => step,
            None => {
                proof {
                    self.lemma_empty_stack_all_visited();
                }
                return None;
            },
        };
        let ghost before = *self;
        self.current_cell = next_cell;
        self.visited_cells[next_cell.0][next_cell.1] = true;
        self.backtrack_stack.push(next_cell);
        proof {
            assert(!old(self).visited(next_cell));
            assert forall|c: (usize, usize)| before.has_cell(c) implies #[trigger] self.visited(c) == (before.visited(c) || c
                == next_cell) by {}
            assert(self.backtrack_stack@[before.backtrack_stack@.len() as int] == next_cell);
            assert(self.backtrack_stack@.drop_last() =~= before.backtrack_stack@);
            assert(before.backtrack_stack@ == old(self).backtrack_stack@.take(before.backtrack_stack@.len() as int));
            assert(before.backtrack_stack@.len() > 0);
            assert(before.backtrack_stack@.last() == carved_wall.near_cell());
            assert forall|i: int| 0 <= i < self.backtrack_stack@.len() implies self.has_cell(#[trigger] self.backtrack_stack@[i])
                && self.visited(self.backtrack_stack@[i]) by {
                if i < before.backtrack_stack@.len() {
                    assert(before.backtrack_stack@[i] == self.backtrack_stack@[i]);
                }
            }
            assert forall|cell: (usize, usize)|
                self.has_cell(cell) && self.visited(cell) && !self.backtrack_stack@.contains(cell) implies #[trigger] self.finished(
                cell,
            ) by {
                assert(cell != next_cell);
                if before.backtrack_stack@.contains(cell) {
                    let i = choose|i: int| 0 <= i < before.backtrack_stack@.len() && before.backtrack_stack@[i] == cell;
                    assert(self.backtrack_stack@[i] == cell);
                }
                assert(before.visited(cell));
                assert(before.finished(cell));
            }
        }
        Some((carved_wall, false))
    }
}

} // verus!
