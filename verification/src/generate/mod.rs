//! Maze generators. Each produces a finite sequence of single wall edits that
//! turn its initial maze into a perfect maze; applying an edit is left to the
//! caller.

use vstd::prelude::*;
use crate::maze::maze::Maze;
use crate::maze::wall::Slot;
use crate::maze::wall::Wall;

pub mod binary_tree;
pub mod dividing;
pub mod kruskal;
pub mod random;
pub mod recursive_backtracking;
pub mod recursive_division;
pub mod simple;

pub use crate::generate::binary_tree::BinaryTreeGenerator;
pub use crate::generate::kruskal::create_sets;
pub use crate::generate::kruskal::create_walls;
pub use crate::generate::kruskal::CellSets;
pub use crate::generate::kruskal::KruskalsGenerator;
pub use crate::generate::recursive_backtracking::RecursiveBacktrackingGenerator;
pub use crate::generate::recursive_division::Field;
pub use crate::generate::recursive_division::RecursiveDivisionGenerator;
pub use crate::generate::simple::SimpleGenerator;

verus! {

/// What every generation algorithm offers.
pub trait MazeGenerator {
    /// The generator's state is consistent.
    spec fn wf(&self) -> bool;

    spec fn spec_width(&self) -> int;

    spec fn spec_height(&self) -> int;

    /// Whether the algorithm starts from a fully walled maze and removes
    /// walls; otherwise it starts from an open maze inside a closed perimeter
    /// and adds walls.
    spec fn carves(&self) -> bool;

    /// Whether the generator has no edit left to hand out.
    spec fn exhausted(&self) -> bool;

    /// Whether this state is `before` after it handed out `edit`, or, for
    /// `None`, after it found that it has no edit left.
    spec fn handed_out(&self, before: &Self, edit: Option<(Wall, bool)>) -> bool;

    fn width(&self) -> (width: usize)
        ensures
            width == self.spec_width(),
    ;

    fn height(&self) -> (height: usize)
        ensures
            height == self.spec_height(),
    ;

    /// The maze to which the edits are to be applied, in order.
    fn initial_maze(&self) -> (maze: Maze)
        requires
            self.wf(),
        ensures
            maze.wf(),
            maze.spec_width() == self.spec_width(),
            maze.spec_height() == self.spec_height(),
            forall|slot: Slot|
                maze.has_slot(slot) && !maze.is_perimeter(slot) ==> #[trigger] maze.slot_state(slot) == self.carves(),
    ;

    /// A label for the algorithm.
    fn name(&self) -> String;

    /// The next edit, a wall and its new state, or `None` when the maze is
    /// complete. The wall is addressed from a cell of the maze.
    fn next(&mut self) -> (edit: Option<(Wall, bool)>)
        requires
            old(self).wf(),
        ensures
            final(self).wf(),
            final(self).spec_width() == old(self).spec_width(),
            final(self).spec_height() == old(self).spec_height(),
            edit.is_some() ==> edit.unwrap().0.x < old(self).spec_width() && edit.unwrap().0.y < old(self).spec_height(),
            final(self).handed_out(old(self), edit),
            edit.is_none() <==> old(self).exhausted(),
    ;
}

} // verus!
