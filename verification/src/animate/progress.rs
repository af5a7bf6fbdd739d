use vstd::prelude::*;
use crate::generate::MazeGenerator;
use crate::maze::maze::Maze;
use crate::maze::wall::Wall;

verus! {

/// How far the showing of a solution has come: first the path is drawn, one
/// line more with each frame, then it is taken away from its start, one line
/// with each frame.
pub struct SolutionProgress {
    lines_to_draw: usize,
    lines_to_skip: usize,
    done: bool,
}

impl SolutionProgress {
    pub closed spec fn spec_lines_to_draw(&self) -> int {
        self.lines_to_draw as int
    }

    pub closed spec fn spec_lines_to_skip(&self) -> int {
        self.lines_to_skip as int
    }

    pub closed spec fn spec_done(&self) -> bool {
        self.done
    }

    /// The progress before the first frame.
    pub fn new() -> (progress: Self)
        ensures
            progress.spec_lines_to_draw() == 0,
            progress.spec_lines_to_skip() == 0,
            !progress.spec_done(),
    {
        SolutionProgress { lines_to_draw: 0, lines_to_skip: 0, done: false }
    }

    /// How many lines of the path are to be drawn.
    pub fn lines_to_draw(&self) -> (lines: usize)
        ensures
            lines == self.spec_lines_to_draw(),
    {
        self.lines_to_draw
    }

    /// How many lines of the path are to be left out at its start.
    pub fn lines_to_skip(&self) -> (lines: usize)
        ensures
            lines == self.spec_lines_to_skip(),
    {
        self.lines_to_skip
    }

    /// Whether the showing is over.
    pub fn done(&self) -> (done: bool)
        ensures
            done == self.spec_done(),
    {
        self.done
    }

    /// One frame of the showing of a solution of `solution_len` cells. Once
    /// more lines are left out than the solution has cells, the showing is
    /// over; until then one line more is drawn while no more are drawn than
    /// the solution has cells, and after that one line more is left out.
    pub fn update(&mut self, solution_len: usize)
        requires
            solution_len < usize::MAX,
        ensures
            old(self).spec_done() ==> *final(self) == *old(self),
            !old(self).spec_done() && old(self).spec_lines_to_skip() > solution_len ==> {
                &&& final(self).spec_done()
                &&& final(self).spec_lines_to_draw() == old(self).spec_lines_to_draw()
                &&& final(self).spec_lines_to_skip() == old(self).spec_lines_to_skip()
            },
            !old(self).spec_done() && old(self).spec_lines_to_skip() <= solution_len ==> {
                &&& !final(self).spec_done()
                &&& final(self).spec_lines_to_draw() == old(self).spec_lines_to_draw() + (if old(self).spec_lines_to_draw()
                    <= solution_len {
                    1int
                } else {
                    0int
                })
                &&& final(self).spec_lines_to_skip() == old(self).spec_lines_to_skip() + (if old(self).spec_lines_to_draw()
                    <= solution_len {
                    0int
                } else {
                    1int
                })
            },
    {
        if self.done {
            return;
        }
        if self.lines_to_skip > solution_len {
            self.done = true;
            return;
        }
        if self.lines_to_draw <= solution_len {
            self.lines_to_draw += 1;
        } else if self.lines_to_skip <= solution_len {
            self.lines_to_skip += 1;
        }
    }
}

/// How far the showing of a generation has come: the first frame shows the
/// initial maze, each later frame applies one edit of the generator, until
/// the generator has none left.
pub struct GenerationProgress {
    first_frame: bool,
    maze_completed: bool,
}

impl GenerationProgress {
    pub closed spec fn spec_first_frame(&self) -> bool {
        self.first_frame
    }

    pub closed spec fn spec_maze_completed(&self) -> bool {
        self.maze_completed
    }

    /// The progress before the first frame.
    pub fn new() -> (progress: Self)
        ensures
            progress.spec_first_frame(),
            !progress.spec_maze_completed(),
    {
        GenerationProgress { first_frame: true, maze_completed: false }
    }

    /// Whether the generator has handed out its last edit.
    pub fn maze_completed(&self) -> (completed: bool)
        ensures
            completed == self.spec_maze_completed(),
    {
        self.maze_completed
    }

    /// One frame of the showing: nothing but the end of the first frame, or
    /// else the edit that `generator` hands out, applied to `maze`; when it
    /// hands out none, the maze is complete and stays as it is.
    pub fn update<G: MazeGenerator>(&mut self, generator: &mut G, maze: &mut Maze)
        requires
            old(generator).wf(),
            old(maze).wf(),
            old(maze).spec_width() == old(generator).spec_width(),
            old(maze).spec_height() == old(generator).spec_height(),
        ensures
            final(generator).wf(),
            final(maze).wf(),
            final(generator).spec_width() == old(generator).spec_width(),
            final(generator).spec_height() == old(generator).spec_height(),
            final(maze).spec_width() == old(maze).spec_width(),
            final(maze).spec_height() == old(maze).spec_height(),
            !final(self).spec_first_frame(),
            old(self).spec_first_frame() ==> {
                &&& *final(generator) == *old(generator)
                &&& *final(maze) == *old(maze)
                &&& final(self).spec_maze_completed() == old(self).spec_maze_completed()
            },
            old(self).spec_maze_completed() ==> final(self).spec_maze_completed(),
            !old(self).spec_first_frame() ==> final(self).spec_maze_completed() == (old(self).spec_maze_completed()
                || old(generator).exhausted()),
            !old(self).spec_first_frame() ==> exists|edit: Option<(Wall, bool)>|
                {
                    &&& #[trigger] final(generator).handed_out(old(generator), edit)
                    &&& match edit {
                        Some((wall, on)) => {
                            &&& final(maze).is_edit_of(old(maze), wall, on)
                            &&& final(self).spec_maze_completed() == old(self).spec_maze_completed()
                        },
                        None => *final(maze) == *old(maze) && final(self).spec_maze_completed(),
                    }
                },
    {
        if !self.first_frame {
            match generator.next() {
                Some((wall, state)) => {
                    maze.set_wall(&wall, state);
                },
                None => {
                    self.maze_completed = true;
                },
            }
        } else {
            self.first_frame = false;
        }
    }
}

} // verus!
