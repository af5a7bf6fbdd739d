//! Rectangular grid mazes: the wall model, generators that produce a perfect
//! maze as a stream of single wall edits, and a path solver.

pub mod animate;
pub mod maze;
pub mod generate;
pub mod solve;
