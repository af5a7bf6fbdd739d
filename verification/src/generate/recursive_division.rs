use vstd::prelude::*;
use crate::generate::dividing::are_apart;
use crate::generate::dividing::are_open_and_apart;
use crate::generate::dividing::excess;
use crate::generate::dividing::field_has;
use crate::generate::dividing::is_within;
use crate::generate::dividing::lemma_line_closures_from_start;
use crate::generate::dividing::lemma_line_closures_len;
use crate::generate::dividing::lemma_open_field_connected;
use crate::generate::dividing::lemma_parts_are_open_and_apart;
use crate::generate::dividing::lemma_total_excess_parts;
use crate::generate::dividing::lemma_total_excess_push;
use crate::generate::dividing::open_inside;
use crate::generate::dividing::total_excess;
use crate::generate::MazeGenerator;
use crate::generate::random::random_range;
use crate::maze::bridges::is_closing;
use crate::maze::bridges::lemma_closing_keeps_connected;
use crate::maze::cells::interior_slots;
use crate::maze::cells::lemma_interior_slots_count;
use crate::maze::maze::Maze;
use crate::maze::paths::connected;
use crate::maze::paths::fully_connected;
use crate::maze::paths::is_perfect;
use crate::maze::paths::lemma_connected_transitive;
use crate::maze::paths::lemma_opening_keeps_connected;
use crate::maze::paths::lemma_passage_connects;
use crate::maze::paths::open_walls;
use crate::maze::paths::passage;
use crate::maze::spanning::lemma_tree_is_perfect;
use crate::maze::wall::Direction;
use crate::maze::wall::Slot;
use crate::maze::wall::Wall;

verus! {

/// A rectangle of cells that may still be divided: its top left cell and its
/// size.
#[derive(Debug, Clone, Copy, PartialEq, Eq, Structural)]
pub struct Field {
    pub x: usize,
    pub y: usize,
    pub width: usize,
    pub height: usize,
}

impl Field {
    /// The field has at least one cell and lies within a grid of `width` by
    /// `height` cells.
    pub open spec fn fits(self, width: int, height: int) -> bool {
        &&& 1 <= self.width
        &&& 1 <= self.height
        &&& self.x + self.width <= width
        &&& self.y + self.height <= height
    }

    /// The left part, `left_width` columns wide, and the rest.
    pub open spec fn vertical_halves(self, left_width: usize) -> (Field, Field) {
        (
            Field { x: self.x, y: self.y, width: left_width, height: self.height },
            Field {
                x: (self.x + left_width) as usize,
                y: self.y,
                width: (self.width - left_width) as usize,
                height: self.height,
            },
        )
    }

    /// The top part, `top_height` rows high, and the rest.
    pub open spec fn horizontal_halves(self, top_height: usize) -> (Field, Field) {
        (
            Field { x: self.x, y: self.y, width: self.width, height: top_height },
            Field {
                x: self.x,
                y: (self.y + top_height) as usize,
                width: self.width,
                height: (self.height - top_height) as usize,
            },
        )
    }

    /// What the field weighs in the count of splits that are still to come:
    /// twice its area, less one.
    pub open spec fn weight(self) -> int {
        2 * (self.width * self.height) - 1
    }

    /// Splits the field into a left part of `left_width` columns and the rest.
    pub fn split_vertically_at(self, left_width: usize) -> (halves: (Field, Field))
        requires
            0 < left_width < self.width,
            self.x + self.width <= usize::MAX,
        ensures
            halves == self.vertical_halves(left_width),
    {
        let left = Field { x: self.x, y: self.y, width: left_width, height: self.height };
        let right = Field {
            x: self.x + left_width,
            y: self.y,
            width: self.width - left_width,
            height: self.height,
        };
        (left, right)
    }

    /// Splits the field into a top part of `top_height` rows and the rest.
    pub fn split_horizontally_at(self, top_height: usize) -> (halves: (Field, Field))
        requires
            0 < top_height < self.height,
            self.y + self.height <= usize::MAX,
        ensures
            halves == self.horizontal_halves(top_height),
    {
        let top = Field { x: self.x, y: self.y, width: self.width, height: top_height };
        let bottom = Field {
            x: self.x,
            y: self.y + top_height,
            width: self.width,
            height: self.height - top_height,
        };
        (top, bottom)
    }

    /// Splits the field into a left and a right part at a random column.
    pub fn split_vertically(self) -> (halves: (Field, Field))
        requires
            1 < self.width,
            self.x + self.width <= usize::MAX,
        ensures
            0 < halves.0.width < self.width,
            halves == self.vertical_halves(halves.0.width),
    {
        let left_width = random_range(1, self.width);
        self.split_vertically_at(left_width)
    }

    /// Splits the field into a top and a bottom part at a random row.
    pub fn split_horizontally(self) -> (halves: (Field, Field))
        requires
            1 < self.height,
            self.y + self.height <= usize::MAX,
        ensures
            0 < halves.0.height < self.height,
            halves == self.horizontal_halves(halves.0.height),
    {
        let top_height = random_range(1, self.height);
        self.split_horizontally_at(top_height)
    }

    /// Whether the field has more than one cell.
    pub fn is_splittable(&self) -> (splittable: bool)
        ensures
            splittable == (self.width > 1 || self.height > 1),
    {
        self.width > 1 || self.height > 1
    }

    /// The two parts of a split weigh less than the whole.
    pub proof fn lemma_halves_weigh_less(self, cut: usize)
        requires
            1 <= self.width,
            1 <= self.height,
        ensures
            0 < cut < self.width ==> 0 < self.vertical_halves(cut).0.weight() && 0 < self.vertical_halves(cut).1.weight()
                && self.vertical_halves(cut).0.weight() + self.vertical_halves(cut).1.weight() < self.weight(),
            0 < cut < self.height ==> 0 < self.horizontal_halves(cut).0.weight() && 0
                < self.horizontal_halves(cut).1.weight() && self.horizontal_halves(cut).0.weight()
                + self.horizontal_halves(cut).1.weight() < self.weight(),
    {
        let w = self.width as int;
        let h = self.height as int;
        let c = cut as int;
        if 0 < cut < self.width {
            assert(c * h + (w - c) * h == w * h && c * h >= 1 && (w - c) * h >= 1) by (nonlinear_arith)
                requires
                    0 < c < w,
                    1 <= h,
            ;
        }
        if 0 < cut < self.height {
            assert(w * c + w * (h - c) == w * h && w * c >= 1 && w * (h - c) >= 1) by (nonlinear_arith)
                requires
                    0 < c < h,
                    1 <= w,
            ;
        }
    }
}


/// The wall at place `at` of a split line: on the right of column `fixed` for
/// a vertical line, below row `fixed` for a horizontal one.
pub open spec fn line_wall(vertical: bool, fixed: usize, at: usize) -> Wall {
    if vertical {
        Wall { x: fixed, y: at, dir: Direction::Right }
    } else {
        Wall { x: at, y: fixed, dir: Direction::Down }
    }
}

/// The closing edits for the places from `start` on, `len` of them, but for
/// the place `gap`; the farthest place first, so that a stack hands them out
/// from `start` on.
pub open spec fn line_closures(vertical: bool, fixed: usize, start: usize, len: nat, gap: usize) -> Seq<(Wall, bool)>
    decreases len,
{
    if len == 0 {
        Seq::empty()
    } else {
        let at = (start + len - 1) as usize;
        let head = if at != gap {
            seq![(line_wall(vertical, fixed, at), true)]
        } else {
            Seq::empty()
        };
        head + line_closures(vertical, fixed, start, (len - 1) as nat, gap)
    }
}

/// The edits that one split line puts on the stack: the gap, left open, at the
/// bottom, and above it the closing edits for every other place.
pub open spec fn line_edits(vertical: bool, fixed: usize, start: usize, len: nat, gap: usize) -> Seq<(Wall, bool)> {
    seq![(line_wall(vertical, fixed, gap), false)] + line_closures(vertical, fixed, start, len, gap)
}

/// The field if it can be split further, else nothing.
pub open spec fn splittable_part(field: Field) -> Seq<Field> {
    if field.width > 1 || field.height > 1 {
        seq![field]
    } else {
        Seq::empty()
    }
}

/// The weights of the fields, added up.
pub open spec fn total_weight(fields: Seq<Field>) -> int
    decreases fields.len(),
{
    if fields.len() == 0 {
        0
    } else {
        total_weight(fields.drop_last()) + fields.last().weight()
    }
}

/// Whether `edit` sets a wall between two cells of a `width` by `height`
/// grid, addressed from the left or the upper one.
pub open spec fn is_interior_edit(width: int, height: int, edit: (Wall, bool)) -> bool {
    match edit.0.dir {
        Direction::Right => edit.0.x + 1 < width && edit.0.y < height,
        Direction::Down => edit.0.x < width && edit.0.y + 1 < height,
        _ => false,
    }
}

/// Whether every edit of `edits` is an interior edit of the grid.
pub open spec fn are_interior_edits(width: int, height: int, edits: Seq<(Wall, bool)>) -> bool {
    forall|i: int| 0 <= i < edits.len() ==> is_interior_edit(width, height, #[trigger] edits[i])
}

/// Whether every field of `fields` lies in the grid and has more than one
/// cell.
pub open spec fn are_splittable_fields(width: int, height: int, fields: Seq<Field>) -> bool {
    forall|i: int| 0 <= i < fields.len() ==> {
        &&& (#[trigger] fields[i]).fits(width, height)
        &&& fields[i].width > 1 || fields[i].height > 1
    }
}

proof fn lemma_weight_positive(field: Field)
    requires
        1 <= field.width,
        1 <= field.height,
    ensures
        1 <= field.weight(),
{
    assert(field.width * field.height >= 1) by (nonlinear_arith)
        requires
            1 <= field.width,
            1 <= field.height,
    ;
}

proof fn lemma_total_weight_push(fields: Seq<Field>, field: Field)
    ensures
        total_weight(fields.push(field)) == total_weight(fields) + field.weight(),
{
    assert(fields.push(field).drop_last() =~= fields);
}

proof fn lemma_total_weight_bounded(fields: Seq<Field>)
    requires
        forall|i: int| 0 <= i < fields.len() ==> 1 <= (#[trigger] fields[i]).width && 1 <= fields[i].height,
    ensures
        0 <= total_weight(fields),
    decreases fields.len(),
{
    if fields.len() > 0 {
        lemma_total_weight_bounded(fields.drop_last());
        lemma_weight_positive(fields.last());
    }
}

/// Whether splitting the last field of `fields` along its longer side, a
/// square one across its height, after `cut` columns or rows and with the gap
/// at the place `gap`, leaves the edits `edits` and the fields `next`: the
/// fields below the last one and, on top, the parts of it that can still be
/// split.
pub open spec fn is_split(fields: Seq<Field>, edits: Seq<(Wall, bool)>, next: Seq<Field>, cut: usize, gap: usize) -> bool {
    let field = fields.last();
    let rest = fields.drop_last();
    &&& fields.len() > 0
    &&& if field.width > field.height {
        &&& 0 < cut < field.width
        &&& field.y <= gap < field.y + field.height
        &&& edits == (if field.height > 1 {
            line_edits(true, (field.x + cut - 1) as usize, field.y, field.height as nat, gap)
        } else {
            Seq::empty()
        })
        &&& next == rest + splittable_part(field.vertical_halves(cut).0) + splittable_part(field.vertical_halves(cut).1)
    } else {
        &&& 0 < cut < field.height
        &&& field.x <= gap < field.x + field.width
        &&& edits == (if field.width > 1 {
            line_edits(false, (field.y + cut - 1) as usize, field.x, field.width as nat, gap)
        } else {
            Seq::empty()
        })
        &&& next == rest + splittable_part(field.horizontal_halves(cut).0) + splittable_part(
            field.horizontal_halves(cut).1,
        )
    }
}

/// Every closing edit of a line puts a wall at a place of the line other
/// than the gap.
pub proof fn lemma_line_closures_lie_on_line(vertical: bool, fixed: usize, start: usize, len: nat, gap: usize, i: int)
    requires
        start + len <= usize::MAX,
        0 <= i < line_closures(vertical, fixed, start, len, gap).len(),
    ensures
        ({
            let edit = line_closures(vertical, fixed, start, len, gap)[i];
            let at = if vertical {
                edit.0.y
            } else {
                edit.0.x
            };
            &&& edit == (line_wall(vertical, fixed, at), true)
            &&& start <= at < start + len
            &&& at != gap
        }),
    decreases len,
{
    let at = (start + len - 1) as usize;
    let head = if at != gap {
        seq![(line_wall(vertical, fixed, at), true)]
    } else {
        Seq::<(Wall, bool)>::empty()
    };
    if i >= head.len() {
        lemma_line_closures_lie_on_line(vertical, fixed, start, (len - 1) as nat, gap, i - head.len());
    }
}

/// The edits that a split leaves lie on its line: on the right of the last
/// column of the left part where the field is wider than high, else below
/// the last row of the top part. The first of them leaves the gap open, the
/// others put up walls at the other places.
pub proof fn lemma_split_edits_lie_on_line(
    fields: Seq<Field>,
    edits: Seq<(Wall, bool)>,
    next: Seq<Field>,
    cut: usize,
    gap: usize,
    i: int,
)
    requires
        is_split(fields, edits, next, cut, gap),
        fields.last().x + fields.last().width <= usize::MAX,
        fields.last().y + fields.last().height <= usize::MAX,
        0 <= i < edits.len(),
    ensures
        ({
            let field = fields.last();
            let vertical = field.width > field.height;
            let wall = edits[i].0;
            &&& wall.dir == (if vertical {
                Direction::Right
            } else {
                Direction::Down
            })
            &&& vertical ==> wall.x == field.x + cut - 1 && field.y <= wall.y < field.y + field.height
            &&& !vertical ==> wall.y == field.y + cut - 1 && field.x <= wall.x < field.x + field.width
            &&& edits[i].1 == (i > 0)
            &&& (if vertical {
                wall.y == gap
            } else {
                wall.x == gap
            }) == (i == 0)
        }),
{
    let field = fields.last();
    if i > 0 {
        if field.width > field.height {
            lemma_line_closures_lie_on_line(true, (field.x + cut - 1) as usize, field.y, field.height as nat, gap, i - 1);
        } else {
            lemma_line_closures_lie_on_line(false, (field.y + cut - 1) as usize, field.x, field.width as nat, gap, i - 1);
        }
    }
}

/// Whether the split of `field` leaves edits: the line between the two parts
/// has more than one place.
pub open spec fn leaves_edits(field: Field) -> bool {
    if field.width > field.height {
        field.height > 1
    } else {
        field.width > 1
    }
}

/// Whether `wall` lies on a line that splits `field` along its longer side,
/// a square one across its height: on the right of a cell of the field but
/// for its last column, or below a cell of the field but for its last row.
pub open spec fn is_on_line_of(field: Field, wall: Wall) -> bool {
    if field.width > field.height {
        &&& wall.dir == Direction::Right
        &&& field.x <= wall.x < field.x + field.width - 1
        &&& field.y <= wall.y < field.y + field.height
    } else {
        &&& wall.dir == Direction::Down
        &&& field.x <= wall.x < field.x + field.width
        &&& field.y <= wall.y < field.y + field.height - 1
    }
}

/// Whether no split of a field of `fields` leaves an edit.
pub open spec fn are_silent(fields: Seq<Field>) -> bool {
    forall|i: int| 0 <= i < fields.len() ==> !leaves_edits(#[trigger] fields[i])
}

/// A split leaves edits if and only if the split of the field on top does;
/// it leaves the fields below as they are, and the parts of a field whose
/// split leaves no edit are such fields too.
pub proof fn lemma_split_and_silence(fields: Seq<Field>, edits: Seq<(Wall, bool)>, next: Seq<Field>, cut: usize, gap: usize)
    requires
        is_split(fields, edits, next, cut, gap),
        1 <= fields.last().width,
        1 <= fields.last().height,
    ensures
        edits.len() > 0 <==> leaves_edits(fields.last()),
        next.len() >= fields.len() - 1,
        forall|j: int| 0 <= j < fields.len() - 1 ==> #[trigger] next[j] == fields[j],
        are_silent(fields) ==> are_silent(next),
{
    let field = fields.last();
    let rest = fields.drop_last();
    let (first, second) = if field.width > field.height {
        field.vertical_halves(cut)
    } else {
        field.horizontal_halves(cut)
    };
    assert(next =~= rest + splittable_part(first) + splittable_part(second));
    assert forall|j: int| 0 <= j < fields.len() - 1 implies #[trigger] next[j] == fields[j] by {
        assert(rest[j] == fields[j]);
    }
    if are_silent(fields) {
        assert(!leaves_edits(fields[fields.len() - 1]));
        assert(!leaves_edits(first) && !leaves_edits(second));
        assert forall|i: int| 0 <= i < next.len() implies !leaves_edits(#[trigger] next[i]) by {
            if i < rest.len() {
                assert(next[i] == fields[i]);
            } else {
                assert(next[i] == first || next[i] == second);
            }
        }
    }
}

/// Whether `next` arises from `fields` by one split that leaves no edit.
pub open spec fn is_silent_split(fields: Seq<Field>, next: Seq<Field>) -> bool {
    exists|cut: usize, gap: usize| #[trigger] is_split(fields, Seq::empty(), next, cut, gap)
}

/// Whether each stack of fields of `chain` arises from the one before by one
/// split that leaves no edit.
pub open spec fn is_silent_chain(chain: Seq<Seq<Field>>) -> bool {
    forall|i: int| 0 <= i < chain.len() - 1 ==> is_silent_split(#[trigger] chain[i], chain[i + 1])
}

/// Recursive division: starts from an open maze inside a closed perimeter and
/// divides it, field by field, by a wall with one gap.
pub struct RecursiveDivisionGenerator {
    width: usize,
    height: usize,
    pending_stack: Vec<(Wall, bool)>,
    field_stack: Vec<Field>,
}

impl RecursiveDivisionGenerator {
    /// The edits of the current split that wait to be handed out, the next one
    /// last.
    pub closed spec fn pending(&self) -> Seq<(Wall, bool)> {
        self.pending_stack@
    }

    /// The fields that wait to be split, the next one last.
    pub closed spec fn fields(&self) -> Seq<Field> {
        self.field_stack@
    }

    pub closed spec fn grid_width(&self) -> int {
        self.width as int
    }

    pub closed spec fn grid_height(&self) -> int {
        self.height as int
    }

    /// Every waiting field lies in the grid and can be split, and every
    /// waiting edit sets a wall between two cells of the grid.
    pub open spec fn inv(&self) -> bool {
        &&& 1 < self.grid_width() < usize::MAX
        &&& 1 < self.grid_height() < usize::MAX
        &&& are_splittable_fields(self.grid_width(), self.grid_height(), self.fields())
        &&& are_interior_edits(self.grid_width(), self.grid_height(), self.pending())
    }

    /// Whether the waiting edits are the rest of one split line between the
    /// two fields on top of the stack, which `maze` leaves open at its gap:
    /// the gap itself, and above it the closing edits for the `len` places from
    /// `start` on, at which no wall stands yet.
    pub open spec fn is_line(&self, maze: &Maze, vertical: bool, fixed: usize, start: usize, len: nat, gap: usize) -> bool {
        let n = self.fields().len() as int;
        &&& n >= 2
        &&& self.pending() == seq![(line_wall(vertical, fixed, gap), false)] + line_closures(vertical, fixed, start, len, gap)
        &&& !maze.has_wall(line_wall(vertical, fixed, gap))
        &&& forall|at: usize| start <= at < start + len ==> !maze.has_wall(#[trigger] line_wall(vertical, fixed, at))
        &&& {
            let left = self.fields()[n - 2];
            let right = self.fields()[n - 1];
            let low = if vertical {
                left.y as int
            } else {
                left.x as int
            };
            let high = if vertical {
                left.y + left.height
            } else {
                left.x + left.width
            };
            &&& if vertical {
                right.x == left.x + left.width && right.y == left.y && right.height == left.height
            } else {
                right.y == left.y + left.height && right.x == left.x && right.width == left.width
            }
            &&& fixed == (if vertical {
                left.x + left.width - 1
            } else {
                left.y + left.height - 1
            })
            &&& low <= gap < high
            &&& low <= start
            &&& start + len <= high
        }
    }

    /// Whether `maze` is a maze that the generator is dividing: it is fully
    /// connected, every waiting field is open inside and apart from the
    /// others, and the waiting edits, if any, are the rest of a line between
    /// the two fields on top. It has one open wall less than it has cells, and
    /// beyond these one for each wall that is still to be put up: each waiting
    /// closing edit, and the excess of each waiting field.
    pub open spec fn divides(&self, maze: &Maze) -> bool {
        &&& self.inv()
        &&& maze.wf()
        &&& maze.spec_width() == self.grid_width()
        &&& maze.spec_height() == self.grid_height()
        &&& fully_connected(maze)
        &&& are_open_and_apart(maze, self.fields())
        &&& self.pending().len() > 0 ==> exists|vertical: bool, fixed: usize, start: usize, len: nat, gap: usize| #[trigger]
            self.is_line(maze, vertical, fixed, start, len, gap)
        &&& open_walls(maze).finite()
        &&& open_walls(maze).len() + 1 == self.grid_width() * self.grid_height() + total_excess(self.fields()) + (if self.pending().len()
            > 0 {
            self.pending().len() - 1
        } else {
            0
        })
    }

    /// As `divides`, between two lines, with `field` taken off the stack to be
    /// split.
    pub open spec fn divides_but_for(&self, maze: &Maze, field: Field) -> bool {
        &&& self.inv()
        &&& maze.wf()
        &&& maze.spec_width() == self.grid_width()
        &&& maze.spec_height() == self.grid_height()
        &&& fully_connected(maze)
        &&& self.pending().len() == 0
        &&& field.fits(self.grid_width(), self.grid_height())
        &&& are_open_and_apart(maze, self.fields().push(field))
        &&& open_walls(maze).finite()
        &&& open_walls(maze).len() + 1 == self.grid_width() * self.grid_height() + total_excess(self.fields()) + excess(field)
    }

    /// The generator divides its initial maze: the whole grid is one field,
    /// open inside.
    pub proof fn lemma_start_divides(&self, maze: &Maze)
        requires
            self.inv(),
            self.pending().len() == 0,
            self.fields() == seq![(Field { x: 0, y: 0, width: self.grid_width() as usize, height: self.grid_height() as usize })],
            maze.wf(),
            maze.spec_width() == self.grid_width(),
            maze.spec_height() == self.grid_height(),
            forall|slot: Slot| maze.has_slot(slot) && !maze.is_perimeter(slot) ==> !#[trigger] maze.slot_state(slot),
        ensures
            self.divides(maze),
    {
        let whole = Field { x: 0, y: 0, width: self.grid_width() as usize, height: self.grid_height() as usize };
        let w = self.grid_width();
        let h = self.grid_height();
        assert(self.fields()[0] == whole);
        lemma_interior_slots_count(w, h);
        assert(open_walls(maze) =~= interior_slots(w, h));
        assert(self.fields().drop_last() =~= Seq::<Field>::empty());
        assert(self.fields() =~= Seq::<Field>::empty().push(whole));
        lemma_total_excess_push(Seq::<Field>::empty(), whole);
        assert(total_excess(self.fields()) == excess(whole));
        assert((w - 1) * h + w * (h - 1) + 1 == w * h + (w - 1) * (h - 1)) by (nonlinear_arith);
        assert forall|wall: Wall|
            field_has(whole, wall.x as int, wall.y as int) && field_has(whole, wall.far_cell().0, wall.far_cell().1) implies !#[trigger] maze.has_wall(
            wall,
        ) by {
            assert(maze.has_slot(wall.slot()) && !maze.is_perimeter(wall.slot()));
        }
        assert forall|a: (usize, usize), b: (usize, usize)|
            maze.has_cell(a.0 as int, a.1 as int) && maze.has_cell(b.0 as int, b.1 as int) implies #[trigger] connected(
            maze,
            a,
            b,
        ) by {
            lemma_open_field_connected(maze, whole, a, b);
        }
    }

    /// After a field was split into `left` and `right` and the line between
    /// them was put on the waiting edits, the generator divides the maze as
    /// before.
    proof fn lemma_line_placed(&self, before: &Self, maze: &Maze, field: Field, left: Field, right: Field, vertical: bool, gap: usize)
        requires
            before.divides_but_for(maze, field),
            self.inv(),
            self.grid_width() == before.grid_width(),
            self.grid_height() == before.grid_height(),
            left.fits(self.grid_width(), self.grid_height()),
            right.fits(self.grid_width(), self.grid_height()),
            is_within(left, field),
            is_within(right, field),
            field.width == (if vertical {
                left.width + right.width
            } else {
                left.width as int
            }),
            field.height == (if vertical {
                left.height as int
            } else {
                left.height + right.height
            }),
            if vertical {
                right.x == left.x + left.width && right.y == left.y && right.height == left.height && left.y <= gap < left.y
                    + left.height
            } else {
                right.y == left.y + left.height && right.x == left.x && right.width == left.width && left.x <= gap < left.x
                    + left.width
            },
            self.pending() == before.pending() + (if vertical {
                if left.height > 1 {
                    line_edits(true, (left.x + left.width - 1) as usize, left.y, left.height as nat, gap)
                } else {
                    Seq::empty()
                }
            } else {
                if left.width > 1 {
                    line_edits(false, (left.y + left.height - 1) as usize, left.x, left.width as nat, gap)
                } else {
                    Seq::empty()
                }
            }),
            self.fields() == before.fields() + splittable_part(left) + splittable_part(right),
        ensures
            self.divides(maze),
    {
        let parts = splittable_part(left) + splittable_part(right);
        assert(self.fields() =~= before.fields() + parts);
        assert(are_apart(left, right));
        lemma_parts_are_open_and_apart(maze, before.fields(), field, parts);
        lemma_total_excess_parts(before.fields(), left, right);
        let lw = left.width as int;
        let lh = left.height as int;
        let rw = right.width as int;
        let rh = right.height as int;
        if vertical {
            lemma_line_closures_len(true, (left.x + left.width - 1) as usize, left.y, left.height as nat, gap);
            assert((lw + rw - 1) * (lh - 1) == (lw - 1) * (lh - 1) + (rw - 1) * (lh - 1) + (lh - 1)) by (nonlinear_arith);
        } else {
            lemma_line_closures_len(false, (left.y + left.height - 1) as usize, left.x, left.width as nat, gap);
            assert((lw - 1) * (lh + rh - 1) == (lw - 1) * (lh - 1) + (lw - 1) * (rh - 1) + (lw - 1)) by (nonlinear_arith);
        }
        if self.pending().len() > 0 {
            let n = self.fields().len() as int;
            assert(parts =~= seq![left, right]);
            assert(self.fields()[n - 2] == left && self.fields()[n - 1] == right);
            assert(before.fields().push(field)[before.fields().len() as int] == field);
            assert(open_inside(maze, field));
            if vertical {
                let fixed = (left.x + left.width - 1) as usize;
                let wall = line_wall(true, fixed, gap);
                assert(field_has(field, wall.x as int, wall.y as int));
                assert(field_has(field, wall.far_cell().0, wall.far_cell().1));
                assert(!maze.has_wall(wall));
                assert(self.pending() =~= seq![(wall, false)] + line_closures(true, fixed, left.y, left.height as nat, gap));
                assert forall|at: usize| left.y <= at < left.y + left.height implies !maze.has_wall(
                    #[trigger] line_wall(true, fixed, at),
                ) by {
                    let other = line_wall(true, fixed, at);
                    assert(field_has(field, other.x as int, other.y as int));
                    assert(field_has(field, other.far_cell().0, other.far_cell().1));
                }
                assert(self.is_line(maze, true, fixed, left.y, left.height as nat, gap));
            } else {
                let fixed = (left.y + left.height - 1) as usize;
                let wall = line_wall(false, fixed, gap);
                assert(field_has(field, wall.x as int, wall.y as int));
                assert(field_has(field, wall.far_cell().0, wall.far_cell().1));
                assert(!maze.has_wall(wall));
                assert(self.pending() =~= seq![(wall, false)] + line_closures(false, fixed, left.x, left.width as nat, gap));
                assert forall|at: usize| left.x <= at < left.x + left.width implies !maze.has_wall(
                    #[trigger] line_wall(false, fixed, at),
                ) by {
                    let other = line_wall(false, fixed, at);
                    assert(field_has(field, other.x as int, other.y as int));
                    assert(field_has(field, other.far_cell().0, other.far_cell().1));
                }
                assert(self.is_line(maze, false, fixed, left.x, left.width as nat, gap));
            }
        }
    }

    /// Applying the edit that was handed out to a maze that the generator
    /// divided gives a maze that it divides.
    proof fn lemma_edit_applied(
        &self,
        before: &Self,
        maze: &Maze,
        after: &Maze,
        vertical: bool,
        fixed: usize,
        start: usize,
        len: nat,
        gap: usize,
    )
        requires
            before.inv(),
            self.inv(),
            self.grid_width() == before.grid_width(),
            self.grid_height() == before.grid_height(),
            maze.wf(),
            maze.spec_width() == before.grid_width(),
            maze.spec_height() == before.grid_height(),
            fully_connected(maze),
            are_open_and_apart(maze, before.fields()),
            open_walls(maze).finite(),
            open_walls(maze).len() + 1 == before.grid_width() * before.grid_height() + total_excess(before.fields())
                + before.pending().len() - 1,
            before.pending().len() > 0,
            before.is_line(maze, vertical, fixed, start, len, gap),
            self.fields() == before.fields(),
            self.pending() == before.pending().drop_last(),
            after.is_edit_of(maze, before.pending().last().0, before.pending().last().1),
        ensures
            self.divides(after),
        decreases len,
    {
        let n = before.fields().len() as int;
        let left = before.fields()[n - 2];
        let right = before.fields()[n - 1];
        let gap_wall = line_wall(vertical, fixed, gap);
        let bottom = seq![(gap_wall, false)];
        let edit = before.pending().last();
        assert(left.fits(before.grid_width(), before.grid_height()));
        assert(right.fits(before.grid_width(), before.grid_height()));
        if len == 0 {
            assert(before.pending() =~= bottom);
            assert(edit == (gap_wall, false));
            assert(self.pending() =~= Seq::<(Wall, bool)>::empty());
            assert(open_walls(after) =~= open_walls(maze)) by {
                maze.lemma_cell_walls_have_slots(gap_wall);
            }
            assert forall|a: (usize, usize), b: (usize, usize)|
                after.has_cell(a.0 as int, a.1 as int) && after.has_cell(b.0 as int, b.1 as int) implies #[trigger] connected(
                after,
                a,
                b,
            ) by {
                assert(connected(maze, a, b));
                lemma_opening_keeps_connected(maze, after, gap_wall, a, b);
            }
            assert forall|i: int| 0 <= i < self.fields().len() implies open_inside(after, #[trigger] self.fields()[i]) by {
                let field = self.fields()[i];
                assert(open_inside(maze, field));
                assert(field.fits(before.grid_width(), before.grid_height()));
                assert forall|wall: Wall|
                    field_has(field, wall.x as int, wall.y as int) && field_has(
                        field,
                        wall.far_cell().0,
                        wall.far_cell().1,
                    ) implies !#[trigger] after.has_wall(wall) by {
                    assert(!maze.has_wall(wall));
                    maze.lemma_cell_walls_have_slots(wall);
                }
            }
        } else {
            lemma_line_closures_from_start(vertical, fixed, start, len, gap);
            let rest = line_closures(vertical, fixed, (start + 1) as usize, (len - 1) as nat, gap);
            if start == gap {
                assert(before.pending() =~= bottom + rest);
                assert(before.is_line(maze, vertical, fixed, (start + 1) as usize, (len - 1) as nat, gap));
                self.lemma_edit_applied(before, maze, after, vertical, fixed, (start + 1) as usize, (len - 1) as nat, gap);
            } else {
                let wall = line_wall(vertical, fixed, start);
                assert(before.pending() =~= (bottom + rest).push((wall, true)));
                assert(edit == (wall, true));
                assert(self.pending() =~= bottom + rest);
                let near = wall.near_cell();
                let far = (wall.far_cell().0 as usize, wall.far_cell().1 as usize);
                let gap_near = gap_wall.near_cell();
                let gap_far = (gap_wall.far_cell().0 as usize, gap_wall.far_cell().1 as usize);
                assert(field_has(left, near.0 as int, near.1 as int) && field_has(right, far.0 as int, far.1 as int));
                assert(field_has(left, gap_near.0 as int, gap_near.1 as int) && field_has(
                    right,
                    gap_far.0 as int,
                    gap_far.1 as int,
                ));
                assert(are_apart(left, right));
                assert forall|i: int| 0 <= i < self.fields().len() implies open_inside(after, #[trigger] self.fields()[i]) by {
                    let field = self.fields()[i];
                    assert(open_inside(maze, field));
                    assert(field.fits(before.grid_width(), before.grid_height()));
                    if i < n - 2 {
                        assert(are_apart(before.fields()[i], before.fields()[n - 2]));
                    }
                    assert forall|other: Wall|
                        field_has(field, other.x as int, other.y as int) && field_has(
                            field,
                            other.far_cell().0,
                            other.far_cell().1,
                        ) implies !#[trigger] after.has_wall(other) by {
                        assert(!maze.has_wall(other));
                        maze.lemma_cell_walls_have_slots(other);
                        assert(other.slot() != wall.slot());
                    }
                }
                assert(!after.has_wall(gap_wall)) by {
                    maze.lemma_cell_walls_have_slots(gap_wall);
                    assert(gap_wall.slot() != wall.slot());
                }
                assert(open_inside(after, self.fields()[n - 2]) && open_inside(after, self.fields()[n - 1]));
                lemma_open_field_connected(after, left, near, gap_near);
                assert(passage(after, gap_near, gap_far));
                lemma_passage_connects(after, gap_near, gap_far);
                lemma_open_field_connected(after, right, gap_far, far);
                lemma_connected_transitive(after, near, gap_near, gap_far);
                lemma_connected_transitive(after, near, gap_far, far);
                assert(is_closing(maze, after, wall, far));
                assert(open_walls(after) =~= open_walls(maze).remove(wall.slot())) by {
                    maze.lemma_cell_walls_have_slots(wall);
                }
                assert(open_walls(maze).contains(wall.slot())) by {
                    maze.lemma_cell_walls_have_slots(wall);
                    assert(!maze.has_wall(line_wall(vertical, fixed, start)));
                }
                assert forall|at: usize| start + 1 <= at < start + len implies !after.has_wall(
                    #[trigger] line_wall(vertical, fixed, at),
                ) by {
                    let other = line_wall(vertical, fixed, at);
                    assert(!maze.has_wall(other));
                    maze.lemma_cell_walls_have_slots(other);
                    assert(other.slot() != wall.slot());
                }
                assert forall|a: (usize, usize), b: (usize, usize)|
                    after.has_cell(a.0 as int, a.1 as int) && after.has_cell(b.0 as int, b.1 as int) implies #[trigger] connected(
                    after,
                    a,
                    b,
                ) by {
                    assert(connected(maze, a, b));
                    lemma_closing_keeps_connected(maze, after, wall, far, a, b);
                }
                assert(self.is_line(after, vertical, fixed, (start + 1) as usize, (len - 1) as nat, gap));
            }
        }
    }

    /// A generator for a grid of `width` by `height` cells: the whole grid
    /// waits to be split.
    pub fn new(width: usize, height: usize) -> (generator: Self)
        requires
            1 < width < usize::MAX,
            1 < height < usize::MAX,
        ensures
            generator.inv(),
            generator.grid_width() == width,
            generator.grid_height() == height,
            generator.pending() == Seq::<(Wall, bool)>::empty(),
            generator.fields() == seq![(Field { x: 0, y: 0, width, height })],
    {
        let mut field_stack: Vec<Field> = Vec::new();
        field_stack.push(Field { x: 0, y: 0, width, height });
        let generator = Self { width, height, pending_stack: Vec::new(), field_stack };
        assert(generator.fields() =~= seq![(Field { x: 0, y: 0, width, height })]);
        assert(generator.pending() =~= Seq::<(Wall, bool)>::empty());
        generator
    }

    /// Runs the algorithm to its end on an open maze of `width` by `height`
    /// cells inside a closed perimeter and returns the maze: it is perfect,
    /// with one open wall less than it has cells.
    pub fn generate(width: usize, height: usize) -> (maze: Maze)
        requires
            1 < width < usize::MAX,
            1 < height < usize::MAX,
        ensures
            maze.wf(),
            maze.spec_width() == width,
            maze.spec_height() == height,
            maze.has_edges(),
            is_perfect(&maze),
            open_walls(&maze).len() == width * height - 1,
    {
        let mut generator = Self::new(width, height);
        let mut maze = generator.initial_maze();
        proof {
            generator.lemma_start_divides(&maze);
        }
        loop
            invariant
                generator.divides(&maze),
                generator.grid_width() == width,
                generator.grid_height() == height,
                maze.has_edges(),
            decreases total_weight(generator.fields()), generator.pending().len(),
        {
            let ghost maze_before = maze;
            proof {
                lemma_total_weight_bounded(generator.fields());
            }
            match generator.next() {
                Some((wall, on)) => {
                    maze.set_wall(&wall, on);
                    proof {
                        maze.lemma_interior_edit_keeps_edges(&maze_before, wall, on);
                        lemma_total_weight_bounded(generator.fields());
                    }
                },
                None => {
                    proof {
                        lemma_tree_is_perfect(&maze);
                    }
                    return maze;
                },
            }
        }
    }

    /// Puts the edits of one split line on the stack of waiting edits.
    fn push_line(&mut self, vertical: bool, fixed: usize, start: usize, len: usize, gap: usize)
        requires
            old(self).inv(),
            start <= gap < start + len,
            vertical ==> fixed + 1 < old(self).grid_width() && start + len <= old(self).grid_height(),
            !vertical ==> fixed + 1 < old(self).grid_height() && start + len <= old(self).grid_width(),
        ensures
            final(self).inv(),
            final(self).grid_width() == old(self).grid_width(),
            final(self).grid_height() == old(self).grid_height(),
            final(self).fields() == old(self).fields(),
            final(self).pending() == old(self).pending() + line_edits(vertical, fixed, start, len as nat, gap),
    {
        let ghost before = self.pending_stack@;
        let gap_wall = if vertical {
            Wall { x: fixed, y: gap, dir: Direction::Right }
        } else {
            Wall { x: gap, y: fixed, dir: Direction::Down }
        };
        // The gap goes to the bottom of the stack: it comes out last.
        self.pending_stack.push((gap_wall, false));
        let mut left: usize = len;
        while left > 0
            invariant
                self.inv(),
                self.width == old(self).width,
                self.height == old(self).height,
                self.field_stack == old(self).field_stack,
                left <= len,
                vertical ==> fixed + 1 < self.grid_width() && start + len <= self.grid_height(),
                !vertical ==> fixed + 1 < self.grid_height() && start + len <= self.grid_width(),
                self.pending_stack@ + line_closures(vertical, fixed, start, left as nat, gap) =~= before
                    + line_edits(vertical, fixed, start, len as nat, gap),
            decreases left,
        {
            let at = start + left - 1;
            let ghost stack = self.pending_stack@;
            if at != gap {
                let wall = if vertical {
                    Wall { x: fixed, y: at, dir: Direction::Right }
                } else {
                    Wall { x: at, y: fixed, dir: Direction::Down }
                };
                self.pending_stack.push((wall, true));
            }
            proof {
                let rest = line_closures(vertical, fixed, start, (left - 1) as nat, gap);
                let head = if at != gap {
                    seq![(line_wall(vertical, fixed, at), true)]
                } else {
                    Seq::empty()
                };
                assert(line_closures(vertical, fixed, start, left as nat, gap) == head + rest);
                assert(self.pending_stack@ =~= stack + head);
                assert((stack + head) + rest =~= stack + (head + rest));
            }
            left -= 1;
        }
        assert(self.pending_stack@ + line_closures(vertical, fixed, start, 0, gap) =~= self.pending_stack@);
    }

    /// Puts one waiting field on its stack, if it can still be split.
    fn push_field(&mut self, field: Field)
        requires
            old(self).inv(),
            field.fits(old(self).grid_width(), old(self).grid_height()),
        ensures
            final(self).inv(),
            final(self).grid_width() == old(self).grid_width(),
            final(self).grid_height() == old(self).grid_height(),
            final(self).pending() == old(self).pending(),
            final(self).fields() == old(self).fields() + splittable_part(field),
            total_weight(final(self).fields()) <= total_weight(old(self).fields()) + field.weight(),
    {
        proof {
            lemma_weight_positive(field);
            lemma_total_weight_push(self.field_stack@, field);
        }
        if field.is_splittable() {
            self.field_stack.push(field);
            assert(self.field_stack@ =~= old(self).field_stack@ + splittable_part(field));
        } else {
            assert(self.field_stack@ =~= old(self).field_stack@ + splittable_part(field));
        }
    }

    /// Records the split of a field into `left` and `right`: the wall between
    /// them, open at row `gap_y`, goes to the waiting edits, unless the line is
    /// a single place long; then the two parts go to the waiting fields, as
    /// far as they can still be split.
    pub fn place_vertical_split(&mut self, left: Field, right: Field, gap_y: usize)
        requires
            old(self).inv(),
            left.fits(old(self).grid_width(), old(self).grid_height()),
            right.fits(old(self).grid_width(), old(self).grid_height()),
            right.x == left.x + left.width,
            left.y <= gap_y < left.y + left.height,
        ensures
            final(self).inv(),
            final(self).grid_width() == old(self).grid_width(),
            final(self).grid_height() == old(self).grid_height(),
            final(self).pending() == old(self).pending() + (if left.height > 1 {
                line_edits(true, (left.x + left.width - 1) as usize, left.y, left.height as nat, gap_y)
            } else {
                Seq::empty()
            }),
            final(self).fields() == old(self).fields() + splittable_part(left) + splittable_part(right),
            total_weight(final(self).fields()) <= total_weight(old(self).fields()) + left.weight() + right.weight(),
    {
        let split_x = left.x + left.width - 1;
        if left.height > 1 {
            self.push_line(true, split_x, left.y, left.height, gap_y);
        } else {
            assert(self.pending() + Seq::<(Wall, bool)>::empty() =~= self.pending());
        }
        self.push_field(left);
        self.push_field(right);
    }

    /// As `place_vertical_split`, for a field split into `top` and `bottom`
    /// with the gap in column `gap_x`.
    pub fn place_horizontal_split(&mut self, top: Field, bottom: Field, gap_x: usize)
        requires
            old(self).inv(),
            top.fits(old(self).grid_width(), old(self).grid_height()),
            bottom.fits(old(self).grid_width(), old(self).grid_height()),
            bottom.y == top.y + top.height,
            top.x <= gap_x < top.x + top.width,
        ensures
            final(self).inv(),
            final(self).grid_width() == old(self).grid_width(),
            final(self).grid_height() == old(self).grid_height(),
            final(self).pending() == old(self).pending() + (if top.width > 1 {
                line_edits(false, (top.y + top.height - 1) as usize, top.x, top.width as nat, gap_x)
            } else {
                Seq::empty()
            }),
            final(self).fields() == old(self).fields() + splittable_part(top) + splittable_part(bottom),
            total_weight(final(self).fields()) <= total_weight(old(self).fields()) + top.weight() + bottom.weight(),
    {
        let split_y = top.y + top.height - 1;
        if top.width > 1 {
            self.push_line(false, split_y, top.x, top.width, gap_x);
        } else {
            assert(self.pending() + Seq::<(Wall, bool)>::empty() =~= self.pending());
        }
        self.push_field(top);
        self.push_field(bottom);
    }

    /// This state is `before` after `field` was split into a left part of `cut`
    /// columns and the rest, with the gap of the wall at row `gap`.
    pub open spec fn split_vertically_from(&self, before: &Self, field: Field, cut: usize, gap: usize) -> bool {
        &&& 0 < cut < field.width
        &&& field.y <= gap < field.y + field.height
        &&& self.pending() == before.pending() + (if field.height > 1 {
            line_edits(true, (field.x + cut - 1) as usize, field.y, field.height as nat, gap)
        } else {
            Seq::empty()
        })
        &&& self.fields() == before.fields() + splittable_part(field.vertical_halves(cut).0) + splittable_part(
            field.vertical_halves(cut).1,
        )
    }

    /// This state is `before` after `field` was split into a top part of `cut`
    /// rows and the rest, with the gap of the wall at column `gap`.
    pub open spec fn split_horizontally_from(&self, before: &Self, field: Field, cut: usize, gap: usize) -> bool {
        &&& 0 < cut < field.height
        &&& field.x <= gap < field.x + field.width
        &&& self.pending() == before.pending() + (if field.width > 1 {
            line_edits(false, (field.y + cut - 1) as usize, field.x, field.width as nat, gap)
        } else {
            Seq::empty()
        })
        &&& self.fields() == before.fields() + splittable_part(field.horizontal_halves(cut).0) + splittable_part(
            field.horizontal_halves(cut).1,
        )
    }

    /// Whether the generator has no edit left: none waits, and no split of a
    /// waiting field leaves one.
    pub open spec fn has_no_edit_left(&self) -> bool {
        self.pending().len() == 0 && are_silent(self.fields())
    }

    /// This state is what `before`, with no edit waiting, comes to when the
    /// field on top is split, again and again through the stacks of `chain`
    /// while the splits leave no edit, and then either no field is left and
    /// nothing is handed out, or one more split leaves edits, of which the top
    /// one is handed out as `edit`.
    pub open spec fn reached_through(&self, before: &Self, chain: Seq<Seq<Field>>, edit: Option<(Wall, bool)>) -> bool {
        &&& chain.len() >= 1
        &&& chain[0] == before.fields()
        &&& is_silent_chain(chain)
        &&& match edit {
            Some(edit) => exists|cut: usize, gap: usize| #[trigger]
                is_split(chain.last(), self.pending().push(edit), self.fields(), cut, gap),
            None => chain.last().len() == 0 && self.fields().len() == 0 && self.pending().len() == 0,
        }
    }

    /// Takes the field on top of the stack and splits it once, at a random
    /// place with a random gap: along its longer side, a square one across its
    /// height.
    pub fn split_next_field(&mut self)
        requires
            old(self).inv(),
            old(self).pending().len() == 0,
            old(self).fields().len() > 0,
        ensures
            final(self).inv(),
            final(self).grid_width() == old(self).grid_width(),
            final(self).grid_height() == old(self).grid_height(),
            exists|cut: usize, gap: usize| #[trigger]
                is_split(old(self).fields(), final(self).pending(), final(self).fields(), cut, gap),
            total_weight(final(self).fields()) < total_weight(old(self).fields()),
            0 <= total_weight(final(self).fields()),
            forall|maze: Maze| #[trigger] old(self).divides(&maze) ==> final(self).divides(&maze),
    {
        let ghost stack = self.field_stack@;
        let field = self.field_stack.pop().unwrap();
        assert(stack[stack.len() - 1] == field);
        assert(field.fits(self.grid_width(), self.grid_height()));
        assert(self.field_stack@ =~= stack.drop_last());
        assert(total_weight(stack) == total_weight(stack.drop_last()) + field.weight());
        let ghost popped = *self;
        proof {
            assert(popped.fields().push(field) =~= stack);
            assert forall|maze: Maze| #[trigger] old(self).divides(&maze) implies popped.divides_but_for(&maze, field) by {}
        }
        if field.width > field.height {
            self.split_vertically(field);
            proof {
                let (cut, gap) = choose|cut: usize, gap: usize| #[trigger] self.split_vertically_from(&popped, field, cut, gap);
                assert(self.pending() =~= (if field.height > 1 {
                    line_edits(true, (field.x + cut - 1) as usize, field.y, field.height as nat, gap)
                } else {
                    Seq::empty()
                }));
                assert(is_split(stack, self.pending(), self.fields(), cut, gap));
            }
        } else {
            self.split_horizontally(field);
            proof {
                let (cut, gap) = choose|cut: usize, gap: usize| #[trigger] self.split_horizontally_from(&popped, field, cut, gap);
                assert(self.pending() =~= (if field.width > 1 {
                    line_edits(false, (field.y + cut - 1) as usize, field.x, field.width as nat, gap)
                } else {
                    Seq::empty()
                }));
                assert(is_split(stack, self.pending(), self.fields(), cut, gap));
            }
        }
        proof {
            lemma_total_weight_bounded(self.field_stack@);
        }
    }

    /// Splits `field` at a random column, with the gap at a random row of the
    /// wall.
    fn split_vertically(&mut self, field: Field)
        requires
            old(self).inv(),
            field.fits(old(self).grid_width(), old(self).grid_height()),
            field.width > 1,
        ensures
            final(self).inv(),
            final(self).grid_width() == old(self).grid_width(),
            final(self).grid_height() == old(self).grid_height(),
            total_weight(final(self).fields()) < total_weight(old(self).fields()) + field.weight(),
            exists|cut: usize, gap: usize| #[trigger] final(self).split_vertically_from(old(self), field, cut, gap),
            forall|maze: Maze| #[trigger] old(self).divides_but_for(&maze, field) ==> final(self).divides(&maze),
    {
        let (left, right) = field.split_vertically();
        let gap_y = if left.height > 1 {
            random_range(left.y, left.y + left.height)
        } else {
            left.y
        };
        proof {
            field.lemma_halves_weigh_less(left.width);
        }
        self.place_vertical_split(left, right, gap_y);
        assert(self.split_vertically_from(old(self), field, left.width, gap_y));
        proof {
            assert forall|maze: Maze| #[trigger] old(self).divides_but_for(&maze, field) implies self.divides(&maze) by {
                self.lemma_line_placed(old(self), &maze, field, left, right, true, gap_y);
            }
        }
    }

    /// Splits `field` at a random row, with the gap at a random column of the
    /// wall.
    fn split_horizontally(&mut self, field: Field)
        requires
            old(self).inv(),
            field.fits(old(self).grid_width(), old(self).grid_height()),
            field.height > 1,
        ensures
            final(self).inv(),
            final(self).grid_width() == old(self).grid_width(),
            final(self).grid_height() == old(self).grid_height(),
            total_weight(final(self).fields()) < total_weight(old(self).fields()) + field.weight(),
            exists|cut: usize, gap: usize| #[trigger] final(self).split_horizontally_from(old(self), field, cut, gap),
            forall|maze: Maze| #[trigger] old(self).divides_but_for(&maze, field) ==> final(self).divides(&maze),
    {
        let (top, bottom) = field.split_horizontally();
        let gap_x = if top.width > 1 {
            random_range(top.x, top.x + top.width)
        } else {
            top.x
        };
        proof {
            field.lemma_halves_weigh_less(top.height);
        }
        self.place_horizontal_split(top, bottom, gap_x);
        assert(self.split_horizontally_from(old(self), field, top.height, gap_x));
        proof {
            assert forall|maze: Maze| #[trigger] old(self).divides_but_for(&maze, field) implies self.divides(&maze) by {
                self.lemma_line_placed(old(self), &maze, field, top, bottom, false, gap_x);
            }
        }
    }
}

impl MazeGenerator for RecursiveDivisionGenerator {
    open spec fn wf(&self) -> bool {
        self.inv()
    }

    open spec fn spec_width(&self) -> int {
        self.grid_width()
    }

    open spec fn spec_height(&self) -> int {
        self.grid_height()
    }

    open spec fn handed_out(&self, before: &Self, edit: Option<(Wall, bool)>) -> bool {
        if before.pending().len() > 0 {
            &&& edit == Some(before.pending().last())
            &&& self.pending() == before.pending().drop_last()
            &&& self.fields() == before.fields()
        } else {
            exists|chain: Seq<Seq<Field>>| #[trigger] self.reached_through(before, chain, edit)
        }
    }

    open spec fn exhausted(&self) -> bool {
        self.has_no_edit_left()
    }

    open spec fn carves(&self) -> bool {
        false
    }

    fn width(&self) -> (width: usize) {
        self.width
    }

    fn height(&self) -> (height: usize) {
        self.height
    }

    fn initial_maze(&self) -> (maze: Maze)
        ensures
            maze.has_edges(),
    {
        Maze::new_with_edges(self.width, self.height, false)
    }

    fn name(&self) -> (name: String)
        ensures
            name@ == "Recursive Division Algorithm"@,
    {
        "Recursive Division Algorithm".to_string()
    }

    /// Hands out the next waiting edit. When none waits, fields are split, one
    /// after the other along their longer side (a square one across its
    /// height), until a split leaves edits or no field is left; the splits
    /// that leave no edit are those of `reached_through`.
    fn next(&mut self) -> (edit: Option<(Wall, bool)>)
        ensures
            old(self).pending().len() > 0 ==> {
                &&& edit == Some(old(self).pending().last())
                &&& final(self).pending() == old(self).pending().drop_last()
                &&& final(self).fields() == old(self).fields()
            },
            old(self).pending().len() == 0 ==> exists|chain: Seq<Seq<Field>>| #[trigger]
                final(self).reached_through(old(self), chain, edit),
            old(self).pending().len() == 0 && old(self).fields().len() > 0 && leaves_edits(old(self).fields().last()) ==> {
                let field = old(self).fields().last();
                &&& edit.is_some()
                &&& exists|cut: usize, gap: usize| #[trigger]
                    is_split(old(self).fields(), final(self).pending().push(edit.unwrap()), final(self).fields(), cut, gap)
                &&& edit.unwrap().1
                &&& is_on_line_of(field, edit.unwrap().0)
                &&& final(self).pending().len() + 1 == (if field.width > field.height {
                    field.height
                } else {
                    field.width
                })
                &&& forall|i: int| 0 <= i < final(self).pending().len() ==> is_on_line_of(field, (#[trigger] final(self).pending()[i]).0)
            },
            edit.is_none() <==> old(self).has_no_edit_left(),
            edit.is_some() ==> is_interior_edit(old(self).grid_width(), old(self).grid_height(), edit.unwrap()),
            edit.is_none() ==> final(self).pending().len() == 0 && final(self).fields().len() == 0,
            old(self).pending().len() == 0 && old(self).fields().len() == 0 ==> edit.is_none(),
            old(self).pending().len() == 0 && edit.is_some() ==> total_weight(final(self).fields()) < total_weight(
                old(self).fields(),
            ),
            forall|maze: Maze| #[trigger]
                old(self).divides(&maze) ==> match edit {
                    Some(edit) => forall|after: Maze| #[trigger]
                        after.is_edit_of(&maze, edit.0, edit.1) ==> final(self).divides(&after),
                    None => final(self).divides(&maze),
                },
    {
        let ghost mut chain: Seq<Seq<Field>> = seq![self.field_stack@];
        let ghost mut split_from: Seq<Field> = self.field_stack@;
        proof {
            lemma_total_weight_bounded(self.field_stack@);
        }
        while self.pending_stack.len() == 0
            invariant
                self.inv(),
                self.width == old(self).width,
                self.height == old(self).height,
                old(self).pending().len() > 0 || old(self).fields().len() == 0 ==> *self == *old(self),
                *self == *old(self) || total_weight(self.field_stack@) < total_weight(old(self).field_stack@),
                0 <= total_weight(self.field_stack@),
                forall|maze: Maze| #[trigger] old(self).divides(&maze) ==> self.divides(&maze),
                chain.len() >= 1,
                chain[0] == old(self).fields(),
                is_silent_chain(chain),
                self.pending_stack@.len() == 0 ==> chain.last() == self.field_stack@,
                old(self).has_no_edit_left() ==> self.pending_stack@.len() == 0 && are_silent(self.field_stack@),
                !old(self).has_no_edit_left() && old(self).pending().len() == 0 ==> self.pending_stack@.len() > 0 || exists|j: int|
                    0 <= j < self.field_stack@.len() && leaves_edits(#[trigger] self.field_stack@[j]),
                old(self).pending().len() == 0 && old(self).fields().len() > 0 && leaves_edits(old(self).fields().last()) ==> *self
                    == *old(self) || (self.pending_stack@.len() > 0 && split_from == old(self).fields()),
                self.pending_stack@.len() > 0 && old(self).pending().len() == 0 ==> chain.last() == split_from && exists|
                    cut: usize,
                    gap: usize,
                | #[trigger] is_split(split_from, self.pending(), self.fields(), cut, gap),
            decreases total_weight(self.field_stack@),
        {
            if self.field_stack.len() == 0 {
                assert(self.reached_through(old(self), chain, None));
                return None;
            }
            proof {
                split_from = self.field_stack@;
            }
            self.split_next_field();
            proof {
                let (cut, gap) = choose|cut: usize, gap: usize| #[trigger]
                    is_split(split_from, self.pending(), self.fields(), cut, gap);
                assert(split_from[split_from.len() - 1].fits(self.grid_width(), self.grid_height()));
                lemma_split_and_silence(split_from, self.pending(), self.fields(), cut, gap);
                if !old(self).has_no_edit_left() && old(self).pending().len() == 0 && self.pending_stack@.len() == 0 {
                    let j = choose|j: int| 0 <= j < split_from.len() && leaves_edits(#[trigger] split_from[j]);
                    assert(j < split_from.len() - 1);
                    assert(self.field_stack@[j] == split_from[j]);
                }
                if self.pending_stack@.len() == 0 {
                    let longer = chain.push(self.field_stack@);
                    assert(is_silent_split(split_from, self.field_stack@));
                    assert forall|i: int| 0 <= i < longer.len() - 1 implies is_silent_split(#[trigger] longer[i], longer[i + 1]) by {
                        if i < chain.len() - 1 {
                            assert(longer[i] == chain[i] && longer[i + 1] == chain[i + 1]);
                        }
                    }
                    chain = longer;
                }
            }
        }
        let ghost stack = self.pending_stack@;
        let ghost before = *self;
        let edit = self.pending_stack.pop();
        assert(stack[stack.len() - 1] == edit.unwrap());
        proof {
            assert(self.pending() =~= before.pending().drop_last());
            assert(self.pending().push(edit.unwrap()) =~= before.pending());
            if old(self).pending().len() == 0 {
                let (cut, gap) = choose|cut: usize, gap: usize| #[trigger]
                    is_split(split_from, before.pending(), before.fields(), cut, gap);
                assert(self.fields() == before.fields());
                assert(is_split(chain.last(), self.pending().push(edit.unwrap()), self.fields(), cut, gap));
                assert(self.reached_through(old(self), chain, edit));
                if old(self).fields().len() > 0 && leaves_edits(old(self).fields().last()) {
                    let field = old(self).fields().last();
                    assert(split_from == old(self).fields());
                    assert(field.fits(self.grid_width(), self.grid_height()));
                    assert(before.pending().len() >= 2 && before.pending().len() == (if field.width > field.height {
                        field.height
                    } else {
                        field.width
                    })) by {
                        if field.width > field.height {
                            lemma_line_closures_len(true, (field.x + cut - 1) as usize, field.y, field.height as nat, gap);
                        } else {
                            lemma_line_closures_len(false, (field.y + cut - 1) as usize, field.x, field.width as nat, gap);
                        }
                    }
                    lemma_split_edits_lie_on_line(
                        split_from,
                        before.pending(),
                        before.fields(),
                        cut,
                        gap,
                        before.pending().len() - 1,
                    );
                    assert(is_split(old(self).fields(), self.pending().push(edit.unwrap()), self.fields(), cut, gap));
                    assert(before.pending().len() == (if field.width > field.height {
                        field.height
                    } else {
                        field.width
                    }));
                    assert forall|i: int| 0 <= i < self.pending().len() implies is_on_line_of(
                        field,
                        (#[trigger] self.pending()[i]).0,
                    ) by {
                        assert(self.pending()[i] == before.pending()[i]);
                        lemma_split_edits_lie_on_line(split_from, before.pending(), before.fields(), cut, gap, i);
                    }
                }
            }
            assert forall|maze: Maze| #[trigger] old(self).divides(&maze) implies (forall|after: Maze| #[trigger]
                after.is_edit_of(&maze, edit.unwrap().0, edit.unwrap().1) ==> self.divides(&after)) by {
                assert(before.divides(&maze));
                let (vertical, fixed, start, len, gap) = choose|vertical: bool, fixed: usize, start: usize, len: nat, gap: usize| #[trigger]
                    before.is_line(&maze, vertical, fixed, start, len, gap);
                assert forall|after: Maze| #[trigger] after.is_edit_of(&maze, edit.unwrap().0, edit.unwrap().1) implies self.divides(
                    &after,
                ) by {
                    self.lemma_edit_applied(&before, &maze, &after, vertical, fixed, start, len, gap);
                }
            }
        }
        edit
    }
}

} // verus!
