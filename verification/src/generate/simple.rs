use vstd::prelude::*;
use crate::generate::MazeGenerator;
use crate::maze::maze::Maze;
use crate::maze::wall::Direction;
use crate::maze::wall::Wall;

verus! {

/// A generator without chance: starting from a fully walled maze it removes,
/// column by column, the right wall of all cells of a column but one row,
/// shifted by one row in every other column. What it yields is a pattern, not
/// a perfect maze.
pub struct SimpleGenerator {
    width: usize,
    height: usize,
    x_index: usize,
    y_index: usize,
}

impl SimpleGenerator {
    pub closed spec fn grid_width(&self) -> int {
        self.width as int
    }

    pub closed spec fn grid_height(&self) -> int {
        self.height as int
    }

    /// The column of the next wall.
    pub closed spec fn column(&self) -> int {
        self.x_index as int
    }

    /// The place of the next wall within its column.
    pub closed spec fn place(&self) -> int {
        self.y_index as int
    }

    pub open spec fn inv(&self) -> bool {
        &&& 1 < self.grid_width() < usize::MAX
        &&& 1 < self.grid_height() < usize::MAX
        &&& 0 <= self.column() <= self.grid_width() - 1
        &&& 0 <= self.place() < self.grid_height() - 1
    }

    /// How many edits are still to come.
    pub open spec fn edits_left(&self) -> int {
        (self.grid_width() - 1 - self.column()) * (self.grid_height() - 1) - self.place()
    }

    pub fn new(width: usize, height: usize) -> (generator: SimpleGenerator)
        requires
            1 < width < usize::MAX,
            1 < height < usize::MAX,
        ensures
            generator.inv(),
            generator.grid_width() == width,
            generator.grid_height() == height,
            generator.column() == 0,
            generator.place() == 0,
    {
        SimpleGenerator { width, height, x_index: 0, y_index: 0 }
    }
}

impl MazeGenerator for SimpleGenerator {
    open spec fn wf(&self) -> bool {
        self.inv()
    }

    open spec fn spec_width(&self) -> int {
        self.grid_width()
    }

    open spec fn spec_height(&self) -> int {
        self.grid_height()
    }

    open spec fn handed_out(&self, before: &Self, edit: Option<(Wall, bool)>) -> bool {
        if before.column() >= before.grid_width() - 1 {
            edit.is_none() && *self == *before
        } else {
            &&& edit == Some(
                (
                    Wall {
                        x: before.column() as usize,
                        y: (before.place() + before.column() % 2) as usize,
                        dir: Direction::Right,
                    },
                    false,
                ),
            )
            &&& if before.place() + 1 < before.grid_height() - 1 {
                self.column() == before.column() && self.place() == before.place() + 1
            } else {
                self.column() == before.column() + 1 && self.place() == 0
            }
        }
    }

    open spec fn exhausted(&self) -> bool {
        self.column() >= self.grid_width() - 1
    }

    open spec fn carves(&self) -> bool {
        true
    }

    fn width(&self) -> (width: usize) {
        self.width
    }

    fn height(&self) -> (height: usize) {
        self.height
    }

    fn initial_maze(&self) -> (maze: Maze)
        ensures
            maze.is_walled(),
            maze.has_edges(),
    {
        Maze::new_with_edges(self.width, self.height, true)
    }

    fn name(&self) -> (name: String)
        ensures
            name@ == "Simple Dummy Algorithm"@,
    {
        "Simple Dummy Algorithm".to_string()
    }

    /// Removes the right wall of the cell in the current column, at the current
    /// place shifted by one row in the odd columns, and moves on: down the
    /// column, and from the last place but one to the top of the next column.
    fn next(&mut self) -> (edit: Option<(Wall, bool)>)
        ensures
            old(self).column() >= old(self).grid_width() - 1 ==> edit.is_none() && *final(self) == *old(self),
            old(self).column() < old(self).grid_width() - 1 ==> {
                &&& edit == Some(
                    (
                        Wall {
                            x: old(self).column() as usize,
                            y: (old(self).place() + old(self).column() % 2) as usize,
                            dir: Direction::Right,
                        },
                        false,
                    ),
                )
                &&& edit.unwrap().0.is_interior(old(self).grid_width(), old(self).grid_height())
                &&& final(self).edits_left() == old(self).edits_left() - 1
                &&& if old(self).place() + 1 < old(self).grid_height() - 1 {
                    final(self).column() == old(self).column() && final(self).place() == old(self).place() + 1
                } else {
                    final(self).column() == old(self).column() + 1 && final(self).place() == 0
                }
            },
            edit.is_some() <==> old(self).edits_left() > 0,
    {
        proof {
            let columns = self.grid_width() - 1 - self.column();
            let rows = self.grid_height() - 1;
            assert(columns * rows == (columns - 1) * rows + rows) by (nonlinear_arith);
            assert(columns > 0 ==> (columns - 1) * rows >= 0) by (nonlinear_arith)
                requires
                    rows > 0,
            ;
            assert(columns == 0 ==> columns * rows == 0) by (nonlinear_arith);
        }
        if self.x_index >= self.width - 1 {
            return None;
        }
        let new_wall = Wall { x: self.x_index, y: self.y_index + self.x_index % 2, dir: Direction::Right };
        self.y_index += 1;
        if self.y_index >= self.height - 1 {
            self.y_index = 0;
            self.x_index += 1;
        }
        Some((new_wall, false))
    }
}

} // verus!
