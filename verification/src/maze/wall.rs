use vstd::prelude::*;

verus! {

/// The side of a cell on which a wall lies.
#[derive(Copy, Clone, Debug, PartialEq, Eq, Structural)]
pub enum Direction {
    Up,
    Down,
    Left,
    Right,
}

/// The address of a wall: the cell `(x, y)` and the side of it.
///
/// An edge between two cells has two addresses, one from each side.
#[derive(Copy, Clone, Debug, PartialEq, Eq, Structural)]
pub struct Wall {
    pub x: usize,
    pub y: usize,
    pub dir: Direction,
}

/// The place where the state of a wall is kept. The two addresses of one edge
/// name the same slot.
///
/// Vertical slots separate cells horizontally: slot `(col, row)` lies on the
/// left of cell `(col, row)`. Horizontal slots lie on top of cell `(col, row)`.
pub ghost struct Slot {
    pub vertical: bool,
    pub col: int,
    pub row: int,
}

impl Wall {
    /// The canonical slot of this address.
    pub open spec fn slot(self) -> Slot {
        match self.dir {
            Direction::Up => Slot { vertical: false, col: self.x as int, row: self.y as int },
            Direction::Down => Slot { vertical: false, col: self.x as int, row: self.y + 1 },
            Direction::Left => Slot { vertical: true, col: self.x as int, row: self.y as int },
            Direction::Right => Slot { vertical: true, col: self.x + 1, row: self.y as int },
        }
    }

    /// Whether this is the address of a wall between two cells of a `width` by
    /// `height` grid as seen from the left or the upper one of the two: the
    /// one address under which the generators name such a wall.
    pub open spec fn is_interior(self, width: int, height: int) -> bool {
        match self.dir {
            Direction::Right => self.x + 1 < width && self.y < height,
            Direction::Down => self.x < width && self.y + 1 < height,
            _ => false,
        }
    }

    /// The cell from which this wall is addressed.
    pub open spec fn near_cell(self) -> (usize, usize) {
        (self.x, self.y)
    }

    /// The cell on the other side of this wall, as mathematical coordinates
    /// (which may lie outside the grid).
    pub open spec fn far_cell(self) -> (int, int) {
        match self.dir {
            Direction::Up => (self.x as int, self.y - 1),
            Direction::Down => (self.x as int, self.y + 1),
            Direction::Left => (self.x - 1, self.y as int),
            Direction::Right => (self.x + 1, self.y as int),
        }
    }
}

} // verus!
