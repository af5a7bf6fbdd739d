use vstd::prelude::*;
use crate::maze::iterator::WallIterator;
use crate::maze::wall::Direction;
use crate::maze::wall::Slot;
use crate::maze::wall::Wall;

verus! {

/// A rectangular grid of cells with one boolean per wall slot: `true` where a
/// wall stands, `false` where the passage is open.
pub struct Maze {
    width: usize,
    height: usize,
    vertical_walls: Vec<Vec<bool>>,
    horizontal_walls: Vec<Vec<bool>>,
}

/// A column of `len` equal values.
fn filled_column(len: usize, value: bool) -> (column: Vec<bool>)
    ensures
        column@.len() == len,
        forall|i: int| 0 <= i < len ==> column@[i] == value,
{
    let mut column: Vec<bool> = Vec::new();
    let mut i: usize = 0;
    while i < len
        invariant
            i <= len,
            column@.len() == i,
            forall|k: int| 0 <= k < i ==> column@[k] == value,
        decreases len - i,
    {
        column.push(value);
        i += 1;
    }
    column
}

/// `columns` columns of `rows` equal values each.
fn filled_grid(columns: usize, rows: usize, value: bool) -> (grid: Vec<Vec<bool>>)
    ensures
        grid@.len() == columns,
        forall|x: int| 0 <= x < columns ==> (#[trigger] grid@[x])@.len() == rows,
        forall|x: int, y: int| 0 <= x < columns && 0 <= y < rows ==> (#[trigger] grid@[x]@[y]) == value,
{
    let mut grid: Vec<Vec<bool>> = Vec::new();
    let mut x: usize = 0;
    while x < columns
        invariant
            x <= columns,
            grid@.len() == x,
            forall|k: int| 0 <= k < x ==> (#[trigger] grid@[k])@.len() == rows,
            forall|k: int, y: int| 0 <= k < x && 0 <= y < rows ==> (#[trigger] grid@[k]@[y]) == value,
        decreases columns - x,
    {
        grid.push(filled_column(rows, value));
        x += 1;
    }
    grid
}

impl Maze {
    /// The number of columns of cells.
    pub closed spec fn spec_width(&self) -> int {
        self.width as int
    }

    /// The number of rows of cells.
    pub closed spec fn spec_height(&self) -> int {
        self.height as int
    }

    /// The storage has the shape that the dimensions ask for.
    pub closed spec fn wf(&self) -> bool {
        &&& 1 < self.width < usize::MAX
        &&& 1 < self.height < usize::MAX
        &&& self.vertical_walls@.len() == self.width + 1
        &&& forall|x: int| 0 <= x <= self.width ==> (#[trigger] self.vertical_walls@[x])@.len() == self.height
        &&& self.horizontal_walls@.len() == self.width
        &&& forall|x: int| 0 <= x < self.width ==> (#[trigger] self.horizontal_walls@[x])@.len() == self.height + 1
    }

    /// Whether `(x, y)` is a cell of this maze.
    pub open spec fn has_cell(&self, x: int, y: int) -> bool {
        0 <= x < self.spec_width() && 0 <= y < self.spec_height()
    }

    /// Whether `slot` is one of the slots this maze stores.
    pub open spec fn has_slot(&self, slot: Slot) -> bool {
        if slot.vertical {
            0 <= slot.col <= self.spec_width() && 0 <= slot.row < self.spec_height()
        } else {
            0 <= slot.col < self.spec_width() && 0 <= slot.row <= self.spec_height()
        }
    }

    /// Whether `slot` lies on the perimeter of the grid.
    pub open spec fn is_perimeter(&self, slot: Slot) -> bool {
        if slot.vertical {
            slot.col == 0 || slot.col == self.spec_width()
        } else {
            slot.row == 0 || slot.row == self.spec_height()
        }
    }

    /// The state of a slot: `true` where a wall stands.
    pub closed spec fn slot_state(&self, slot: Slot) -> bool {
        if slot.vertical {
            self.vertical_walls@[slot.col]@[slot.row]
        } else {
            self.horizontal_walls@[slot.col]@[slot.row]
        }
    }

    /// Whether a wall stands at the address `wall`.
    pub open spec fn has_wall(&self, wall: Wall) -> bool {
        self.slot_state(wall.slot())
    }

    /// Whether this maze is `before` with the wall `wall` set to `on` and
    /// every other slot as it was.
    pub open spec fn is_edit_of(&self, before: &Maze, wall: Wall, on: bool) -> bool {
        &&& before.wf()
        &&& self.wf()
        &&& self.spec_width() == before.spec_width()
        &&& self.spec_height() == before.spec_height()
        &&& before.has_cell(wall.x as int, wall.y as int)
        &&& self.slot_state(wall.slot()) == on
        &&& forall|slot: Slot| before.has_slot(slot) && slot != wall.slot()
            ==> #[trigger] self.slot_state(slot) == before.slot_state(slot)
    }

    /// Whether a wall stands on every slot, the perimeter included.
    pub open spec fn is_walled(&self) -> bool {
        forall|slot: Slot| self.has_slot(slot) ==> #[trigger] self.slot_state(slot)
    }

    /// Whether a wall stands on every slot of the perimeter.
    pub open spec fn has_edges(&self) -> bool {
        forall|slot: Slot| self.has_slot(slot) && self.is_perimeter(slot) ==> #[trigger] self.slot_state(slot)
    }

    /// Setting a wall between two cells touches no slot of the perimeter: a
    /// maze with edges keeps them.
    pub proof fn lemma_interior_edit_keeps_edges(&self, before: &Maze, wall: Wall, on: bool)
        requires
            self.is_edit_of(before, wall, on),
            !before.is_perimeter(wall.slot()),
            before.has_edges(),
        ensures
            self.has_edges(),
    {
    }

    /// The dimensions of a well-formed maze.
    pub proof fn lemma_dimensions(&self)
        requires
            self.wf(),
        ensures
            1 < self.spec_width() < usize::MAX,
            1 < self.spec_height() < usize::MAX,
    {
    }

    /// Every address relative to a cell of the maze names a stored slot.
    pub proof fn lemma_cell_walls_have_slots(&self, wall: Wall)
        requires
            self.has_cell(wall.x as int, wall.y as int),
        ensures
            self.has_slot(wall.slot()),
    {
    }

    /// A maze of `width` by `height` cells with every slot set to `walls_on`.
    pub fn new(width: usize, height: usize, walls_on: bool) -> (maze: Maze)
        requires
            1 < width < usize::MAX,
            1 < height < usize::MAX,
        ensures
            maze.wf(),
            maze.spec_width() == width,
            maze.spec_height() == height,
            forall|slot: Slot| maze.has_slot(slot) ==> maze.slot_state(slot) == walls_on,
    {
        let vertical_walls = filled_grid(width + 1, height, walls_on);
        let horizontal_walls = filled_grid(width, height + 1, walls_on);
        Maze { width, height, vertical_walls, horizontal_walls }
    }

    /// As `new`, but with a wall on every slot of the perimeter, whatever
    /// `walls_on` says.
    pub fn new_with_edges(width: usize, height: usize, walls_on: bool) -> (maze: Maze)
        requires
            1 < width < usize::MAX,
            1 < height < usize::MAX,
        ensures
            maze.wf(),
            maze.spec_width() == width,
            maze.spec_height() == height,
            forall|slot: Slot| maze.has_slot(slot)
                ==> maze.slot_state(slot) == (walls_on || maze.is_perimeter(slot)),
            maze.has_edges(),
    {
        let mut maze = Maze::new(width, height, walls_on);
        proof {
            assert forall|i: int, j: int| 0 <= i < width && 0 <= j <= height implies (
            #[trigger] maze.horizontal_walls@[i]@[j]) == walls_on by {
                let slot = Slot { vertical: false, col: i, row: j };
                assert(maze.has_slot(slot) && maze.slot_state(slot) == walls_on);
            }
            assert forall|i: int, j: int| 0 <= i <= width && 0 <= j < height implies (
            #[trigger] maze.vertical_walls@[i]@[j]) == walls_on by {
                let slot = Slot { vertical: true, col: i, row: j };
                assert(maze.has_slot(slot) && maze.slot_state(slot) == walls_on);
            }
        }
        let mut y: usize = 0;
        while y < height
            invariant
                y <= height,
                maze.wf(),
                maze.width == width,
                maze.height == height,
                forall|i: int, j: int| 0 <= i < width && 0 <= j <= height
                    ==> (#[trigger] maze.horizontal_walls@[i]@[j]) == walls_on,
                forall|i: int, j: int| 0 < i < width && 0 <= j < height
                    ==> (#[trigger] maze.vertical_walls@[i]@[j]) == walls_on,
                forall|i: int, j: int| (i == 0 || i == width) && 0 <= j < height
                    ==> (#[trigger] maze.vertical_walls@[i]@[j]) == (walls_on || j < y),
            decreases height - y,
        {
            maze.vertical_walls[0][y] = true;
            maze.vertical_walls[width][y] = true;
            y += 1;
        }
        let mut x: usize = 0;
        while x < width
            invariant
                x <= width,
                maze.wf(),
                maze.width == width,
                maze.height == height,
                forall|i: int, j: int| 0 <= i < width && 0 < j < height
                    ==> (#[trigger] maze.horizontal_walls@[i]@[j]) == walls_on,
                forall|i: int, j: int| 0 <= i < width && (j == 0 || j == height)
                    ==> (#[trigger] maze.horizontal_walls@[i]@[j]) == (walls_on || i < x),
                forall|i: int, j: int| 0 < i < width && 0 <= j < height
                    ==> (#[trigger] maze.vertical_walls@[i]@[j]) == walls_on,
                forall|i: int, j: int| (i == 0 || i == width) && 0 <= j < height
                    ==> (#[trigger] maze.vertical_walls@[i]@[j]),
            decreases width - x,
        {
            maze.horizontal_walls[x][0] = true;
            maze.horizontal_walls[x][height] = true;
            x += 1;
        }
        maze
    }

    /// Starts an enumeration of every wall of the maze, each slot once.
    pub fn wall_iter(&self) -> (iter: WallIterator)
        requires
            self.wf(),
        ensures
            iter.wf(),
            iter.spec_width() == self.spec_width(),
            iter.spec_height() == self.spec_height(),
            iter.position() == 0,
    {
        WallIterator::new(self)
    }

    pub fn width(&self) -> (width: usize)
        ensures
            width == self.spec_width(),
    {
        self.width
    }

    pub fn height(&self) -> (height: usize)
        ensures
            height == self.spec_height(),
    {
        self.height
    }

    /// Sets the state of the slot that `wall` names, and of no other.
    pub fn set_wall(&mut self, wall: &Wall, on: bool)
        requires
            old(self).wf(),
            old(self).has_cell(wall.x as int, wall.y as int),
        ensures
            final(self).wf(),
            final(self).spec_width() == old(self).spec_width(),
            final(self).spec_height() == old(self).spec_height(),
            final(self).slot_state(wall.slot()) == on,
            forall|slot: Slot| old(self).has_slot(slot) && slot != wall.slot()
                ==> final(self).slot_state(slot) == old(self).slot_state(slot),
            final(self).is_edit_of(old(self), *wall, on),
    {
        match wall.dir {
            Direction::Up => { self.horizontal_walls[wall.x][wall.y] = on; },
            Direction::Down => { self.horizontal_walls[wall.x][wall.y + 1] = on; },
            Direction::Left => { self.vertical_walls[wall.x][wall.y] = on; },
            Direction::Right => { self.vertical_walls[wall.x + 1][wall.y] = on; },
        }
    }

    /// The state of the slot that `wall` names.
    pub fn get_wall(&self, wall: &Wall) -> (on: bool)
        requires
            self.wf(),
            self.has_cell(wall.x as int, wall.y as int),
        ensures
            on == self.has_wall(*wall),
    {
        match wall.dir {
            Direction::Up => self.horizontal_walls[wall.x][wall.y],
            Direction::Down => self.horizontal_walls[wall.x][wall.y + 1],
            Direction::Left => self.vertical_walls[wall.x][wall.y],
            Direction::Right => self.vertical_walls[wall.x + 1][wall.y],
        }
    }
}

} // verus!
