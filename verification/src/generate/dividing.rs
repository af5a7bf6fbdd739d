//! What a maze must look like for recursive division to keep it connected:
//! fields that are open inside, apart from each other, and split by lines
//! with a gap.

use vstd::prelude::*;
use crate::generate::recursive_division::Field;
use crate::generate::recursive_division::line_closures;
use crate::generate::recursive_division::line_wall;
use crate::generate::recursive_division::splittable_part;
use crate::maze::maze::Maze;
use crate::maze::paths::connected;
use crate::maze::paths::lemma_connected_reflexive;
use crate::maze::paths::lemma_connected_transitive;
use crate::maze::paths::lemma_passage_connects;
use crate::maze::paths::passage;
use crate::maze::wall::Direction;
use crate::maze::wall::Wall;

verus! {

/// Whether `(x, y)` is a cell of `field`.
pub open spec fn field_has(field: Field, x: int, y: int) -> bool {
    field.x <= x < field.x + field.width && field.y <= y < field.y + field.height
}

/// Whether the two fields share no cell.
pub open spec fn are_apart(a: Field, b: Field) -> bool {
    ||| a.x + a.width <= b.x
    ||| b.x + b.width <= a.x
    ||| a.y + a.height <= b.y
    ||| b.y + b.height <= a.y
}

/// Whether every cell of `part` is a cell of `whole`.
pub open spec fn is_within(part: Field, whole: Field) -> bool {
    &&& whole.x <= part.x
    &&& part.x + part.width <= whole.x + whole.width
    &&& whole.y <= part.y
    &&& part.y + part.height <= whole.y + whole.height
}

/// Whether no wall stands between two cells of `field`.
pub open spec fn open_inside(maze: &Maze, field: Field) -> bool {
    forall|wall: Wall|
        field_has(field, wall.x as int, wall.y as int) && field_has(field, wall.far_cell().0, wall.far_cell().1)
            ==> !#[trigger] maze.has_wall(wall)
}

/// Whether every field of `fields` is open inside and apart from the
/// others.
pub open spec fn are_open_and_apart(maze: &Maze, fields: Seq<Field>) -> bool {
    &&& forall|i: int| 0 <= i < fields.len() ==> open_inside(maze, #[trigger] fields[i])
    &&& forall|i: int, j: int| 0 <= i < j < fields.len() ==> are_apart(#[trigger] fields[i], #[trigger] fields[j])
}

/// Any two cells of a field that is open inside are connected.
pub proof fn lemma_open_field_connected(maze: &Maze, field: Field, a: (usize, usize), b: (usize, usize))
    requires
        maze.wf(),
        field.fits(maze.spec_width(), maze.spec_height()),
        open_inside(maze, field),
        field_has(field, a.0 as int, a.1 as int),
        field_has(field, b.0 as int, b.1 as int),
    ensures
        connected(maze, a, b),
    decreases
            (if a.0 < b.0 {
                b.0 - a.0
            } else {
                a.0 - b.0
            }) + (if a.1 < b.1 {
                b.1 - a.1
            } else {
                a.1 - b.1
            }),
{
    if a == b {
        lemma_connected_reflexive(maze, a);
    } else {
        let dir = if a.0 < b.0 {
            Direction::Right
        } else if a.0 > b.0 {
            Direction::Left
        } else if a.1 < b.1 {
            Direction::Down
        } else {
            Direction::Up
        };
        let wall = Wall { x: a.0, y: a.1, dir };
        let next = (wall.far_cell().0 as usize, wall.far_cell().1 as usize);
        assert(!maze.has_wall(wall));
        assert(passage(maze, a, next));
        lemma_passage_connects(maze, a, next);
        lemma_open_field_connected(maze, field, next, b);
        lemma_connected_transitive(maze, a, next, b);
    }
}

/// Fields that are open inside and apart stay so when one of them, the last,
/// gives way to parts of it that are apart from each other.
pub proof fn lemma_parts_are_open_and_apart(maze: &Maze, fields: Seq<Field>, whole: Field, parts: Seq<Field>)
    requires
        are_open_and_apart(maze, fields.push(whole)),
        forall|k: int| 0 <= k < parts.len() ==> is_within(#[trigger] parts[k], whole),
        forall|k: int, l: int| 0 <= k < l < parts.len() ==> are_apart(#[trigger] parts[k], #[trigger] parts[l]),
    ensures
        are_open_and_apart(maze, fields + parts),
{
    let all = fields.push(whole);
    let n = fields.len() as int;
    let next = fields + parts;
    assert(all[n] == whole);
    assert(open_inside(maze, all[n]));
    assert forall|i: int| 0 <= i < next.len() implies open_inside(maze, #[trigger] next[i]) by {
        if i < n {
            assert(next[i] == all[i]);
        } else {
            assert(next[i] == parts[i - n]);
            assert(is_within(parts[i - n], whole));
        }
    }
    assert forall|i: int, j: int| 0 <= i < j < next.len() implies are_apart(#[trigger] next[i], #[trigger] next[j]) by {
        if j < n {
            assert(next[i] == all[i] && next[j] == all[j]);
        } else if i < n {
            assert(next[i] == all[i]);
            assert(are_apart(all[i], all[n]));
            assert(is_within(parts[j - n], whole));
        } else {
            assert(next[i] == parts[i - n] && next[j] == parts[j - n]);
        }
    }
}

/// The closing edits of a line, from the other end: those of the places after
/// the first, and then, on top, that of the first place.
pub proof fn lemma_line_closures_from_start(vertical: bool, fixed: usize, start: usize, len: nat, gap: usize)
    requires
        len > 0,
        start + len <= usize::MAX,
    ensures
        line_closures(vertical, fixed, start, len, gap) == line_closures(
            vertical,
            fixed,
            (start + 1) as usize,
            (len - 1) as nat,
            gap,
        ) + (if start != gap {
            seq![(line_wall(vertical, fixed, start), true)]
        } else {
            Seq::empty()
        }),
    decreases len,
{
    let low = if start != gap {
        seq![(line_wall(vertical, fixed, start), true)]
    } else {
        Seq::<(Wall, bool)>::empty()
    };
    let next = (start + 1) as usize;
    if len == 1 {
        assert(line_closures(vertical, fixed, start, 0, gap) =~= Seq::<(Wall, bool)>::empty());
        assert(line_closures(vertical, fixed, next, 0, gap) =~= Seq::<(Wall, bool)>::empty());
        assert(line_closures(vertical, fixed, start, 1, gap) =~= low);
        assert(line_closures(vertical, fixed, next, 0, gap) + low =~= low);
    } else {
        let at = (start + len - 1) as usize;
        let head = if at != gap {
            seq![(line_wall(vertical, fixed, at), true)]
        } else {
            Seq::<(Wall, bool)>::empty()
        };
        lemma_line_closures_from_start(vertical, fixed, start, (len - 1) as nat, gap);
        let middle = line_closures(vertical, fixed, next, (len - 2) as nat, gap);
        assert(line_closures(vertical, fixed, start, len, gap) == head + line_closures(
            vertical,
            fixed,
            start,
            (len - 1) as nat,
            gap,
        ));
        assert(line_closures(vertical, fixed, next, (len - 1) as nat, gap) == head + middle);
        assert(head + (middle + low) =~= (head + middle) + low);
    }
}


/// How many walls more a field that is open inside has open than a perfect
/// maze of its size.
pub open spec fn excess(field: Field) -> int {
    (field.width - 1) * (field.height - 1)
}

/// The excess of the fields, added up.
pub open spec fn total_excess(fields: Seq<Field>) -> int
    decreases fields.len(),
{
    if fields.len() == 0 {
        0
    } else {
        total_excess(fields.drop_last()) + excess(fields.last())
    }
}

pub proof fn lemma_total_excess_push(fields: Seq<Field>, field: Field)
    ensures
        total_excess(fields.push(field)) == total_excess(fields) + excess(field),
{
    assert(fields.push(field).drop_last() =~= fields);
}

/// Adding the parts of a field that can still be split adds the excess of
/// the parts: a single cell has none.
pub proof fn lemma_total_excess_parts(fields: Seq<Field>, left: Field, right: Field)
    requires
        1 <= left.width,
        1 <= left.height,
        1 <= right.width,
        1 <= right.height,
    ensures
        total_excess(fields + splittable_part(left) + splittable_part(right)) == total_excess(fields) + excess(left)
            + excess(right),
{
    let with_left = fields + splittable_part(left);
    if left.width > 1 || left.height > 1 {
        assert(with_left =~= fields.push(left));
        lemma_total_excess_push(fields, left);
    } else {
        assert(with_left =~= fields);
    }
    if right.width > 1 || right.height > 1 {
        assert(with_left + splittable_part(right) =~= with_left.push(right));
        lemma_total_excess_push(with_left, right);
    } else {
        assert(with_left + splittable_part(right) =~= with_left);
    }
}

/// A line has one closing edit for each of its places, the gap not counted.
pub proof fn lemma_line_closures_len(vertical: bool, fixed: usize, start: usize, len: nat, gap: usize)
    requires
        start + len <= usize::MAX,
    ensures
        line_closures(vertical, fixed, start, len, gap).len() == len - (if start <= gap < start + len {
            1int
        } else {
            0int
        }),
    decreases len,
{
    if len > 0 {
        lemma_line_closures_len(vertical, fixed, start, (len - 1) as nat, gap);
    }
}

} // verus!
