//! The maze data structure: wall addresses, wall storage and wall enumeration.

pub mod wall;
pub mod maze;
pub mod bridges;
pub mod cells;
pub mod iterator;
pub mod paths;
pub mod spanning;

pub use crate::maze::wall::Direction;
pub use crate::maze::wall::Wall;
pub use crate::maze::wall::Slot;
pub use crate::maze::maze::Maze;
pub use crate::maze::iterator::WallIterator;
