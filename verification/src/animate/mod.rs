//! The part of the animation that needs no drawing: waiting between scenes,
//! and how far the showing of a generation and of a solution has come.

pub mod progress;
pub mod waiting_animator;

pub use crate::animate::progress::GenerationProgress;
pub use crate::animate::progress::SolutionProgress;
pub use crate::animate::waiting_animator::WaitingAnimator;
