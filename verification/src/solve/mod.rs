//! Finding the path between two cells of a completed maze.

pub mod solver;

pub use crate::solve::solver::get_reachable_cells;
pub use crate::solve::solver::solve;
pub use crate::solve::solver::try_solve;
