use vstd::arithmetic::div_mod::lemma_fundamental_div_mod;
use vstd::arithmetic::div_mod::lemma_fundamental_div_mod_converse;
use vstd::prelude::*;
use crate::maze::maze::Maze;
use crate::maze::wall::Direction;
use crate::maze::wall::Slot;
use crate::maze::wall::Wall;

verus! {

/// The number of walls of a `width` by `height` maze.
pub open spec fn wall_count(width: int, height: int) -> int {
    height + width + 2 * (width * height)
}

/// The wall at place `i` of the enumeration: first the left boundary from top
/// to bottom, then the top boundary from left to right, then the right wall of
/// every cell, column by column, then the bottom wall of every cell, column by
/// column.
pub open spec fn nth_wall(width: int, height: int, i: int) -> Wall {
    if i < height {
        Wall { x: 0, y: i as usize, dir: Direction::Left }
    } else if i < height + width {
        Wall { x: (i - height) as usize, y: 0, dir: Direction::Up }
    } else if i < height + width + width * height {
        let j = i - height - width;
        Wall { x: (j / height) as usize, y: (j % height) as usize, dir: Direction::Right }
    } else {
        let j = i - height - width - width * height;
        Wall { x: (j / height) as usize, y: (j % height) as usize, dir: Direction::Down }
    }
}

/// The place at which the enumeration names the slot `slot` of a `width` by
/// `height` maze.
pub open spec fn place_of(width: int, height: int, slot: Slot) -> int {
    if slot.vertical {
        if slot.col == 0 {
            slot.row
        } else {
            height + width + (slot.col - 1) * height + slot.row
        }
    } else {
        if slot.row == 0 {
            height + slot.col
        } else {
            height + width + width * height + slot.col * height + (slot.row - 1)
        }
    }
}

/// The enumeration names every slot of the maze, each at one place: the
/// wall at the place of a slot has that slot, and the slot of the wall at a
/// place has that place.
pub proof fn lemma_enumeration_is_one_to_one(maze: &Maze, slot: Slot, i: int)
    requires
        maze.wf(),
    ensures
        maze.has_slot(slot) ==> {
            let at = place_of(maze.spec_width(), maze.spec_height(), slot);
            &&& 0 <= at < wall_count(maze.spec_width(), maze.spec_height())
            &&& nth_wall(maze.spec_width(), maze.spec_height(), at).slot() == slot
        },
        0 <= i < wall_count(maze.spec_width(), maze.spec_height()) ==> {
            let wall = nth_wall(maze.spec_width(), maze.spec_height(), i);
            &&& maze.has_cell(wall.x as int, wall.y as int)
            &&& maze.has_slot(wall.slot())
            &&& place_of(maze.spec_width(), maze.spec_height(), wall.slot()) == i
        },
{
    maze.lemma_dimensions();
    let w = maze.spec_width();
    let h = maze.spec_height();
    assert(w * h >= 0) by (nonlinear_arith)
        requires
            w > 0,
            h > 0,
    ;
    if maze.has_slot(slot) {
        if slot.vertical && slot.col > 0 {
            let j = (slot.col - 1) * h + slot.row;
            assert(0 <= j < w * h) by (nonlinear_arith)
                requires
                    j == (slot.col - 1) * h + slot.row,
                    0 <= slot.col - 1 < w,
                    0 <= slot.row < h,
            ;
            lemma_fundamental_div_mod_converse(j, h, slot.col - 1, slot.row);
        } else if !slot.vertical && slot.row > 0 {
            let j = slot.col * h + (slot.row - 1);
            assert(0 <= j < w * h) by (nonlinear_arith)
                requires
                    j == slot.col * h + (slot.row - 1),
                    0 <= slot.col < w,
                    0 <= slot.row - 1 < h,
            ;
            lemma_fundamental_div_mod_converse(j, h, slot.col, slot.row - 1);
        }
    }
    if 0 <= i < wall_count(w, h) {
        if i >= h + w {
            let j = if i < h + w + w * h {
                i - h - w
            } else {
                i - h - w - w * h
            };
            lemma_fundamental_div_mod(j, h);
            assert(0 <= j / h < w) by (nonlinear_arith)
                requires
                    j == h * (j / h) + j % h,
                    0 <= j % h < h,
                    0 <= j < w * h,
            ;
            assert((j / h) * h == h * (j / h)) by (nonlinear_arith);
        }
    }
}

/// A finite enumeration of the walls of a maze, each slot under one address.
/// A fresh enumeration starts over at the first wall.
pub struct WallIterator {
    width: usize,
    height: usize,
    stage: u8,
    x: usize,
    y: usize,
}

impl WallIterator {
    pub closed spec fn spec_width(&self) -> int {
        self.width as int
    }

    pub closed spec fn spec_height(&self) -> int {
        self.height as int
    }

    pub closed spec fn wf(&self) -> bool {
        &&& 1 < self.width < usize::MAX
        &&& 1 < self.height < usize::MAX
        &&& self.stage <= 4
        &&& self.x < self.width
        &&& self.y < self.height
        &&& self.stage == 0 ==> self.x == 0
        &&& self.stage == 1 ==> self.y == 0
    }

    /// How many walls have been handed out.
    pub closed spec fn position(&self) -> int {
        let w = self.width as int;
        let h = self.height as int;
        if self.stage == 0 {
            self.y as int
        } else if self.stage == 1 {
            h + self.x
        } else if self.stage == 2 {
            h + w + self.x * h + self.y
        } else if self.stage == 3 {
            h + w + w * h + self.x * h + self.y
        } else {
            wall_count(w, h)
        }
    }

    /// An enumeration of the walls of `maze`, at its start.
    pub fn new(maze: &Maze) -> (iter: WallIterator)
        requires
            maze.wf(),
        ensures
            iter.wf(),
            iter.spec_width() == maze.spec_width(),
            iter.spec_height() == maze.spec_height(),
            iter.position() == 0,
    {
        proof {
            maze.lemma_dimensions();
        }
        WallIterator { width: maze.width(), height: maze.height(), stage: 0, x: 0, y: 0 }
    }

    /// Steps to the next cell of a column-by-column walk; `true` when the walk
    /// has passed the last cell.
    fn advance_cell(&mut self) -> (done: bool)
        requires
            old(self).x < old(self).width,
            old(self).y < old(self).height,
        ensures
            final(self).width == old(self).width,
            final(self).height == old(self).height,
            final(self).stage == old(self).stage,
            done ==> final(self).x == 0 && final(self).y == 0
                && old(self).x * old(self).height + old(self).y + 1 == old(self).width * old(self).height,
            !done ==> final(self).x < final(self).width && final(self).y < final(self).height
                && final(self).x * final(self).height + final(self).y
                    == old(self).x * old(self).height + old(self).y + 1,
    {
        assert((self.x + 1) * self.height == self.x * self.height + self.height) by (nonlinear_arith);
        self.y += 1;
        if self.y == self.height {
            self.y = 0;
            self.x += 1;
            if self.x == self.width {
                self.x = 0;
                return true;
            }
        }
        false
    }

    /// The next wall, or `None` once every wall has been handed out.
    pub fn next(&mut self) -> (wall: Option<Wall>)
        requires
            old(self).wf(),
        ensures
            final(self).wf(),
            final(self).spec_width() == old(self).spec_width(),
            final(self).spec_height() == old(self).spec_height(),
            old(self).position() < wall_count(old(self).spec_width(), old(self).spec_height()) ==> {
                &&& wall == Some(nth_wall(old(self).spec_width(), old(self).spec_height(), old(self).position()))
                &&& final(self).position() == old(self).position() + 1
            },
            old(self).position() >= wall_count(old(self).spec_width(), old(self).spec_height()) ==> {
                &&& wall.is_none()
                &&& final(self).position() == old(self).position()
            },
    {
        let ghost w = self.width as int;
        let ghost h = self.height as int;
        proof {
            assert(0 <= self.x * h <= (w - 1) * h && w * h == (w - 1) * h + h && w <= w * h) by (nonlinear_arith)
                requires 0 <= self.x < w, h > 1, w > 1;
        }
        if self.stage == 0 {
            let wall = Wall { x: 0, y: self.y, dir: Direction::Left };
            self.y += 1;
            if self.y == self.height {
                self.y = 0;
                self.stage = 1;
            }
            Some(wall)
        } else if self.stage == 1 {
            let wall = Wall { x: self.x, y: 0, dir: Direction::Up };
            self.x += 1;
            if self.x == self.width {
                self.x = 0;
                self.stage = 2;
            }
            Some(wall)
        } else if self.stage == 2 {
            let wall = Wall { x: self.x, y: self.y, dir: Direction::Right };
            proof {
                lemma_fundamental_div_mod_converse(self.x * h + self.y, h, self.x as int, self.y as int);
            }
            if self.advance_cell() {
                self.stage = 3;
            }
            Some(wall)
        } else if self.stage == 3 {
            let wall = Wall { x: self.x, y: self.y, dir: Direction::Down };
            proof {
                lemma_fundamental_div_mod_converse(self.x * h + self.y, h, self.x as int, self.y as int);
            }
            if self.advance_cell() {
                self.stage = 4;
            }
            Some(wall)
        } else {
            None
        }
    }
}

} // verus!
