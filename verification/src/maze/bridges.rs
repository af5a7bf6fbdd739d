//! What the removal of one wall does to the walks through a maze.

use vstd::prelude::*;
use crate::maze::maze::Maze;
use crate::maze::paths::connected;
use crate::maze::paths::is_path;
use crate::maze::paths::lemma_connected_reflexive;
use crate::maze::paths::lemma_connected_symmetric;
use crate::maze::paths::lemma_connected_transitive;
use crate::maze::paths::lemma_cut_loop;
use crate::maze::paths::lemma_passage_connects;
use crate::maze::paths::lemma_path_connects;
use crate::maze::paths::passage;
use crate::maze::paths::unique_simple_paths;
use crate::maze::wall::Direction;
use crate::maze::wall::Slot;
use crate::maze::wall::Wall;

verus! {

/// Whether `after` is `before` with the wall `wall`, between its cell and
/// the cell `far`, removed.
pub open spec fn is_opening(before: &Maze, after: &Maze, wall: Wall, far: (usize, usize)) -> bool {
    &&& after.is_edit_of(before, wall, false)
    &&& before.has_cell(far.0 as int, far.1 as int)
    &&& wall.far_cell() == (far.0 as int, far.1 as int)
}

/// Whether `a` and `b` are connected, or would be by a passage between `u`
/// and `v`.
pub open spec fn connected_through(maze: &Maze, a: (usize, usize), b: (usize, usize), u: (usize, usize), v: (usize, usize)) -> bool {
    ||| connected(maze, a, b)
    ||| connected(maze, a, u) && connected(maze, v, b)
    ||| connected(maze, a, v) && connected(maze, u, b)
}

/// A step that the removal of a wall has made possible goes through that
/// wall.
pub proof fn lemma_new_step_crosses_wall(
    before: &Maze,
    after: &Maze,
    wall: Wall,
    far: (usize, usize),
    p: (usize, usize),
    q: (usize, usize),
)
    requires
        is_opening(before, after, wall, far),
        passage(after, p, q),
        !passage(before, p, q),
    ensures
        (p == wall.near_cell() && q == far) || (p == far && q == wall.near_cell()),
{
    before.lemma_cell_walls_have_slots(Wall { x: p.0, y: p.1, dir: Direction::Right });
    before.lemma_cell_walls_have_slots(Wall { x: p.0, y: p.1, dir: Direction::Left });
    before.lemma_cell_walls_have_slots(Wall { x: p.0, y: p.1, dir: Direction::Down });
    before.lemma_cell_walls_have_slots(Wall { x: p.0, y: p.1, dir: Direction::Up });
}

/// Two cells that a walk joins after the removal of a wall were connected
/// before, or each with one of the two cells of that wall.
pub proof fn lemma_walk_after_opening(
    before: &Maze,
    after: &Maze,
    wall: Wall,
    far: (usize, usize),
    cells: Seq<(usize, usize)>,
    a: (usize, usize),
    b: (usize, usize),
    k: int,
)
    requires
        is_opening(before, after, wall, far),
        is_path(after, cells, a, b),
        0 <= k < cells.len(),
    ensures
        connected_through(before, a, cells[k], wall.near_cell(), far),
    decreases k,
{
    let near = wall.near_cell();
    assert(after.has_cell(cells[0].0 as int, cells[0].1 as int));
    lemma_connected_reflexive(before, a);
    lemma_connected_reflexive(before, near);
    lemma_connected_reflexive(before, far);
    if k > 0 {
        lemma_walk_after_opening(before, after, wall, far, cells, a, b, k - 1);
        let p = cells[k - 1];
        let q = cells[k];
        assert(passage(after, cells[k - 1], cells[k - 1 + 1]));
        if passage(before, p, q) {
            lemma_passage_connects(before, p, q);
            if connected(before, a, p) {
                lemma_connected_transitive(before, a, p, q);
            } else if connected(before, a, near) && connected(before, far, p) {
                lemma_connected_transitive(before, far, p, q);
            } else {
                lemma_connected_transitive(before, near, p, q);
            }
        } else {
            lemma_new_step_crosses_wall(before, after, wall, far, p, q);
            if connected(before, a, p) {
            } else if connected(before, a, near) && connected(before, far, p) {
                if p == near {
                } else {
                    lemma_connected_transitive(before, a, near, near);
                }
            } else {
                if p == far {
                } else {
                    lemma_connected_transitive(before, a, far, far);
                }
            }
        }
    }
}

/// Two cells that are connected after the removal of a wall were connected
/// before, or each with one of the two cells of that wall.
pub proof fn lemma_connected_after_opening(
    before: &Maze,
    after: &Maze,
    wall: Wall,
    far: (usize, usize),
    a: (usize, usize),
    b: (usize, usize),
)
    requires
        is_opening(before, after, wall, far),
        connected(after, a, b),
    ensures
        connected_through(before, a, b, wall.near_cell(), far),
{
    reveal(connected);
    let cells = choose|cells: Seq<(usize, usize)>| is_path(after, cells, a, b);
    lemma_walk_after_opening(before, after, wall, far, cells, a, b, cells.len() - 1);
}

/// A walk without a repeated cell that, after the removal of a wall, takes a
/// step that was not possible before consists of a walk in the maze before
/// up to that step, and one from there on.
pub proof fn lemma_split_at_new_step(
    before: &Maze,
    after: &Maze,
    wall: Wall,
    far: (usize, usize),
    cells: Seq<(usize, usize)>,
    a: (usize, usize),
    b: (usize, usize),
    i: int,
)
    requires
        is_opening(before, after, wall, far),
        is_path(after, cells, a, b),
        cells.no_duplicates(),
        0 <= i < cells.len() - 1,
        !passage(before, cells[i], cells[i + 1]),
    ensures
        is_path(before, cells.take(i + 1), a, cells[i]),
        cells.take(i + 1).no_duplicates(),
        is_path(before, cells.skip(i + 1), cells[i + 1], b),
        cells.skip(i + 1).no_duplicates(),
        cells == cells.take(i + 1) + cells.skip(i + 1),
{
    let head = cells.take(i + 1);
    let tail = cells.skip(i + 1);
    assert(passage(after, cells[i], cells[i + 1]));
    lemma_new_step_crosses_wall(before, after, wall, far, cells[i], cells[i + 1]);
    assert forall|j: int| 0 <= j < cells.len() - 1 && j != i implies passage(before, #[trigger] cells[j], cells[j + 1]) by {
        assert(passage(after, cells[j], cells[j + 1]));
        if !passage(before, cells[j], cells[j + 1]) {
            lemma_new_step_crosses_wall(before, after, wall, far, cells[j], cells[j + 1]);
            if cells[j] == cells[i] {
                assert(j == i);
            } else {
                assert(cells[j] == cells[i + 1]);
                assert(j == i + 1);
                assert(cells[j + 1] == cells[i]);
            }
        }
    }
    assert forall|j: int| 0 <= j < head.len() implies before.has_cell((#[trigger] head[j]).0 as int, head[j].1 as int) by {
        assert(after.has_cell(cells[j].0 as int, cells[j].1 as int));
    }
    assert forall|j: int| 0 <= j < head.len() - 1 implies passage(before, #[trigger] head[j], head[j + 1]) by {
        assert(passage(before, cells[j], cells[j + 1]));
    }
    assert forall|j: int| 0 <= j < tail.len() implies before.has_cell((#[trigger] tail[j]).0 as int, tail[j].1 as int) by {
        assert(after.has_cell(cells[j + i + 1].0 as int, cells[j + i + 1].1 as int));
    }
    assert forall|j: int| 0 <= j < tail.len() - 1 implies passage(before, #[trigger] tail[j], tail[j + 1]) by {
        assert(passage(before, cells[j + i + 1], cells[j + i + 1 + 1]));
    }
    assert(cells =~= head + tail);
}

/// A walk after the removal of a wall of which every step was possible
/// before is a walk in the maze before.
pub proof fn lemma_old_steps_make_old_path(before: &Maze, after: &Maze, cells: Seq<(usize, usize)>, a: (usize, usize), b: (usize, usize))
    requires
        before.spec_width() == after.spec_width(),
        before.spec_height() == after.spec_height(),
        is_path(after, cells, a, b),
        forall|i: int| 0 <= i < cells.len() - 1 ==> passage(before, #[trigger] cells[i], cells[i + 1]),
    ensures
        is_path(before, cells, a, b),
{
    assert forall|j: int| 0 <= j < cells.len() implies before.has_cell((#[trigger] cells[j]).0 as int, cells[j].1 as int) by {
        assert(after.has_cell(cells[j].0 as int, cells[j].1 as int));
    }
}

/// The first step of a walk that was not possible before the removal of a
/// wall, if there is one; else the length of the walk.
pub open spec fn new_step(before: &Maze, cells: Seq<(usize, usize)>) -> int {
    if exists|i: int| 0 <= i < cells.len() - 1 && !passage(before, #[trigger] cells[i], cells[i + 1]) {
        choose|i: int| 0 <= i < cells.len() - 1 && !passage(before, #[trigger] cells[i], cells[i + 1])
    } else {
        cells.len() as int
    }
}

/// Removing a wall between two cells that were not connected leaves simple
/// paths unique: no cycle arises.
pub proof fn lemma_bridge_keeps_simple_paths_unique(before: &Maze, after: &Maze, wall: Wall, far: (usize, usize))
    requires
        is_opening(before, after, wall, far),
        !connected(before, wall.near_cell(), far),
        unique_simple_paths(before),
    ensures
        unique_simple_paths(after),
{
    assert forall|p: Seq<(usize, usize)>, q: Seq<(usize, usize)>, a: (usize, usize), b: (usize, usize)|
        #![trigger is_path(after, p, a, b), is_path(after, q, a, b)]
        is_path(after, p, a, b) && p.no_duplicates() && is_path(after, q, a, b) && q.no_duplicates() implies p == q by {
        lemma_simple_paths_agree(before, after, wall, far, p, q, a, b);
    }
}

proof fn lemma_simple_paths_agree(
    before: &Maze,
    after: &Maze,
    wall: Wall,
    far: (usize, usize),
    p: Seq<(usize, usize)>,
    q: Seq<(usize, usize)>,
    a: (usize, usize),
    b: (usize, usize),
)
    requires
        is_opening(before, after, wall, far),
        !connected(before, wall.near_cell(), far),
        unique_simple_paths(before),
        is_path(after, p, a, b),
        p.no_duplicates(),
        is_path(after, q, a, b),
        q.no_duplicates(),
    ensures
        p == q,
{
    let near = wall.near_cell();
    let i = new_step(before, p);
    let j = new_step(before, q);
    if connected(before, far, near) {
        lemma_connected_symmetric(before, far, near);
    }
    if i == p.len() && j == q.len() {
        lemma_old_steps_make_old_path(before, after, p, a, b);
        lemma_old_steps_make_old_path(before, after, q, a, b);
        assert(is_path(before, p, a, b) && is_path(before, q, a, b));
    } else if i == p.len() {
        lemma_old_steps_make_old_path(before, after, p, a, b);
        lemma_path_connects(before, p, a, b);
        lemma_crossing_closes_cycle(before, after, wall, far, q, a, b, j);
    } else if j == q.len() {
        lemma_old_steps_make_old_path(before, after, q, a, b);
        lemma_path_connects(before, q, a, b);
        lemma_crossing_closes_cycle(before, after, wall, far, p, a, b, i);
    } else {
        lemma_split_at_new_step(before, after, wall, far, p, a, b, i);
        lemma_split_at_new_step(before, after, wall, far, q, a, b, j);
        assert(passage(after, p[i], p[i + 1]));
        assert(passage(after, q[j], q[j + 1]));
        lemma_new_step_crosses_wall(before, after, wall, far, p[i], p[i + 1]);
        lemma_new_step_crosses_wall(before, after, wall, far, q[j], q[j + 1]);
        if p[i] != q[j] {
            lemma_path_connects(before, p.take(i + 1), a, p[i]);
            lemma_path_connects(before, q.take(j + 1), a, q[j]);
            lemma_connected_symmetric(before, a, p[i]);
            lemma_connected_transitive(before, p[i], a, q[j]);
        } else {
            assert(is_path(before, p.take(i + 1), a, p[i]) && is_path(before, q.take(j + 1), a, p[i]));
            assert(p.take(i + 1) == q.take(j + 1));
            assert(p.take(i + 1).len() == q.take(j + 1).len());
            assert(is_path(before, p.skip(i + 1), p[i + 1], b) && is_path(before, q.skip(j + 1), p[i + 1], b));
            assert(p.skip(i + 1) == q.skip(j + 1));
        }
    }
}

/// Where a simple path between two cells that were connected goes through a
/// removed wall, the two cells of that wall were connected too.
proof fn lemma_crossing_closes_cycle(
    before: &Maze,
    after: &Maze,
    wall: Wall,
    far: (usize, usize),
    cells: Seq<(usize, usize)>,
    a: (usize, usize),
    b: (usize, usize),
    i: int,
)
    requires
        is_opening(before, after, wall, far),
        is_path(after, cells, a, b),
        cells.no_duplicates(),
        0 <= i < cells.len() - 1,
        !passage(before, cells[i], cells[i + 1]),
        connected(before, a, b),
    ensures
        connected(before, wall.near_cell(), far),
{
    lemma_split_at_new_step(before, after, wall, far, cells, a, b, i);
    assert(passage(after, cells[i], cells[i + 1]));
    lemma_new_step_crosses_wall(before, after, wall, far, cells[i], cells[i + 1]);
    lemma_path_connects(before, cells.take(i + 1), a, cells[i]);
    lemma_path_connects(before, cells.skip(i + 1), cells[i + 1], b);
    lemma_connected_symmetric(before, a, cells[i]);
    lemma_connected_symmetric(before, cells[i + 1], b);
    lemma_connected_transitive(before, cells[i], a, b);
    lemma_connected_transitive(before, cells[i], b, cells[i + 1]);
    if cells[i] == far {
        lemma_connected_symmetric(before, far, wall.near_cell());
    }
}


/// A cell into which no passage leads is connected with itself only.
pub proof fn lemma_enclosed_cell_is_isolated(maze: &Maze, cell: (usize, usize), other: (usize, usize))
    requires
        forall|from: (usize, usize)| !#[trigger] passage(maze, from, cell),
        connected(maze, other, cell),
    ensures
        other == cell,
{
    reveal(connected);
    let cells = choose|cells: Seq<(usize, usize)>| is_path(maze, cells, other, cell);
    if cells.len() > 1 {
        assert(passage(maze, cells[cells.len() - 2], cells[cells.len() - 2 + 1]));
    }
}

/// In a maze with a wall between any two cells no two cells are connected,
/// and the only walks are those that stay at one cell.
pub proof fn lemma_walled_maze_is_forest(maze: &Maze)
    requires
        maze.wf(),
        forall|slot: Slot| maze.has_slot(slot) && !maze.is_perimeter(slot) ==> #[trigger] maze.slot_state(slot),
    ensures
        unique_simple_paths(maze),
        forall|a: (usize, usize), b: (usize, usize)| #[trigger] connected(maze, a, b) ==> a == b,
{
    assert forall|p: (usize, usize), q: (usize, usize)| !#[trigger] passage(maze, p, q) by {
        if maze.has_cell(p.0 as int, p.1 as int) && maze.has_cell(q.0 as int, q.1 as int) {
            let right = Wall { x: p.0, y: p.1, dir: Direction::Right };
            let left = Wall { x: p.0, y: p.1, dir: Direction::Left };
            let down = Wall { x: p.0, y: p.1, dir: Direction::Down };
            let up = Wall { x: p.0, y: p.1, dir: Direction::Up };
            maze.lemma_cell_walls_have_slots(right);
            maze.lemma_cell_walls_have_slots(left);
            maze.lemma_cell_walls_have_slots(down);
            maze.lemma_cell_walls_have_slots(up);
            if q.0 == p.0 + 1 && q.1 == p.1 {
                assert(!maze.is_perimeter(right.slot()));
                assert(maze.slot_state(right.slot()));
            } else if q.0 + 1 == p.0 && q.1 == p.1 {
                assert(!maze.is_perimeter(left.slot()));
                assert(maze.slot_state(left.slot()));
            } else if q.0 == p.0 && q.1 == p.1 + 1 {
                assert(!maze.is_perimeter(down.slot()));
                assert(maze.slot_state(down.slot()));
            } else if q.0 == p.0 && q.1 + 1 == p.1 {
                assert(!maze.is_perimeter(up.slot()));
                assert(maze.slot_state(up.slot()));
            }
        }
    }
    assert forall|cells: Seq<(usize, usize)>, a: (usize, usize), b: (usize, usize)| #[trigger]
        is_path(maze, cells, a, b) implies cells =~= seq![a] && a == b by {
        if cells.len() > 1 {
            assert(passage(maze, cells[0], cells[1]));
        }
    }
    assert forall|a: (usize, usize), b: (usize, usize)| #[trigger] connected(maze, a, b) implies a == b by {
        reveal(connected);
        let cells = choose|cells: Seq<(usize, usize)>| is_path(maze, cells, a, b);
        assert(is_path(maze, cells, a, b));
    }
}


/// Whether `after` is `before` with a wall put between the cell of `wall`
/// and the cell `far`.
pub open spec fn is_closing(before: &Maze, after: &Maze, wall: Wall, far: (usize, usize)) -> bool {
    &&& after.is_edit_of(before, wall, true)
    &&& before.has_cell(far.0 as int, far.1 as int)
    &&& wall.far_cell() == (far.0 as int, far.1 as int)
}

/// A step that a new wall has made impossible went through that wall.
pub proof fn lemma_lost_step_crosses_wall(
    before: &Maze,
    after: &Maze,
    wall: Wall,
    far: (usize, usize),
    p: (usize, usize),
    q: (usize, usize),
)
    requires
        is_closing(before, after, wall, far),
        passage(before, p, q),
        !passage(after, p, q),
    ensures
        (p == wall.near_cell() && q == far) || (p == far && q == wall.near_cell()),
{
    before.lemma_cell_walls_have_slots(Wall { x: p.0, y: p.1, dir: Direction::Right });
    before.lemma_cell_walls_have_slots(Wall { x: p.0, y: p.1, dir: Direction::Left });
    before.lemma_cell_walls_have_slots(Wall { x: p.0, y: p.1, dir: Direction::Down });
    before.lemma_cell_walls_have_slots(Wall { x: p.0, y: p.1, dir: Direction::Up });
}

/// Where the two cells of a new wall stay connected by another way, the
/// cells along a walk of before stay connected.
pub proof fn lemma_walk_after_closing(
    before: &Maze,
    after: &Maze,
    wall: Wall,
    far: (usize, usize),
    cells: Seq<(usize, usize)>,
    a: (usize, usize),
    b: (usize, usize),
    k: int,
)
    requires
        is_closing(before, after, wall, far),
        connected(after, wall.near_cell(), far),
        is_path(before, cells, a, b),
        0 <= k < cells.len(),
    ensures
        connected(after, a, cells[k]),
    decreases k,
{
    assert(before.has_cell(cells[0].0 as int, cells[0].1 as int));
    if k == 0 {
        lemma_connected_reflexive(after, a);
    } else {
        lemma_walk_after_closing(before, after, wall, far, cells, a, b, k - 1);
        let p = cells[k - 1];
        let q = cells[k];
        assert(passage(before, cells[k - 1], cells[k - 1 + 1]));
        if passage(after, p, q) {
            lemma_passage_connects(after, p, q);
        } else {
            lemma_lost_step_crosses_wall(before, after, wall, far, p, q);
            if p == far {
                lemma_connected_symmetric(after, wall.near_cell(), far);
            }
        }
        lemma_connected_transitive(after, a, p, q);
    }
}

/// A new wall whose two cells stay connected by another way leaves
/// connected what was connected.
pub proof fn lemma_closing_keeps_connected(
    before: &Maze,
    after: &Maze,
    wall: Wall,
    far: (usize, usize),
    a: (usize, usize),
    b: (usize, usize),
)
    requires
        is_closing(before, after, wall, far),
        connected(after, wall.near_cell(), far),
        connected(before, a, b),
    ensures
        connected(after, a, b),
{
    reveal(connected);
    let cells = choose|cells: Seq<(usize, usize)>| is_path(before, cells, a, b);
    lemma_walk_after_closing(before, after, wall, far, cells, a, b, cells.len() - 1);
}


/// Where a walk leads from one cell to another, a walk that visits no cell
/// twice does so too.
pub proof fn lemma_simple_path_exists(maze: &Maze, walk: Seq<(usize, usize)>, a: (usize, usize), b: (usize, usize))
    requires
        is_path(maze, walk, a, b),
    ensures
        exists|cells: Seq<(usize, usize)>| #[trigger] is_path(maze, cells, a, b) && cells.no_duplicates(),
    decreases walk.len(),
{
    if !walk.no_duplicates() {
        let (i, j) = choose|i: int, j: int| 0 <= i < walk.len() && 0 <= j < walk.len() && i != j && walk[i] == walk[j];
        if i < j {
            lemma_cut_loop(maze, walk, a, b, i, j);
            lemma_simple_path_exists(maze, walk.take(i) + walk.skip(j), a, b);
        } else {
            lemma_cut_loop(maze, walk, a, b, j, i);
            lemma_simple_path_exists(maze, walk.take(j) + walk.skip(i), a, b);
        }
    }
}

/// Two connected cells are joined by a walk that visits no cell twice.
pub proof fn lemma_connected_by_simple_path(maze: &Maze, a: (usize, usize), b: (usize, usize))
    requires
        connected(maze, a, b),
    ensures
        exists|cells: Seq<(usize, usize)>| #[trigger] is_path(maze, cells, a, b) && cells.no_duplicates(),
{
    reveal(connected);
    let walk = choose|cells: Seq<(usize, usize)>| is_path(maze, cells, a, b);
    lemma_simple_path_exists(maze, walk, a, b);
}

/// A step that is possible after a wall was put up was possible before.
pub proof fn lemma_step_after_closing_is_old(
    before: &Maze,
    after: &Maze,
    wall: Wall,
    far: (usize, usize),
    p: (usize, usize),
    q: (usize, usize),
)
    requires
        is_closing(before, after, wall, far),
        passage(after, p, q),
    ensures
        passage(before, p, q),
        !(p == wall.near_cell() && q == far),
{
    before.lemma_cell_walls_have_slots(Wall { x: p.0, y: p.1, dir: Direction::Right });
    before.lemma_cell_walls_have_slots(Wall { x: p.0, y: p.1, dir: Direction::Left });
    before.lemma_cell_walls_have_slots(Wall { x: p.0, y: p.1, dir: Direction::Down });
    before.lemma_cell_walls_have_slots(Wall { x: p.0, y: p.1, dir: Direction::Up });
}

/// A walk after a wall was put up is a walk in the maze before, and does not
/// step through that wall from the cell it is addressed from.
pub proof fn lemma_walk_after_closing_is_old(
    before: &Maze,
    after: &Maze,
    wall: Wall,
    far: (usize, usize),
    cells: Seq<(usize, usize)>,
    a: (usize, usize),
    b: (usize, usize),
)
    requires
        is_closing(before, after, wall, far),
        is_path(after, cells, a, b),
    ensures
        is_path(before, cells, a, b),
        cells != seq![wall.near_cell(), far],
{
    assert forall|i: int| 0 <= i < cells.len() - 1 implies passage(before, #[trigger] cells[i], cells[i + 1]) by {
        assert(passage(after, cells[i], cells[i + 1]));
        lemma_step_after_closing_is_old(before, after, wall, far, cells[i], cells[i + 1]);
    }
    lemma_old_steps_make_old_path(before, after, cells, a, b);
    if cells == seq![wall.near_cell(), far] {
        assert(cells.len() == 2);
        assert(passage(after, cells[0], cells[1]));
        lemma_step_after_closing_is_old(before, after, wall, far, cells[0], cells[1]);
        assert(cells[0] == wall.near_cell() && cells[1] == far);
    }
}

/// An open wall between two cells makes a walk of one step.
pub proof fn lemma_open_wall_is_path(maze: &Maze, wall: Wall, far: (usize, usize))
    requires
        maze.has_cell(wall.x as int, wall.y as int),
        maze.has_cell(far.0 as int, far.1 as int),
        wall.far_cell() == (far.0 as int, far.1 as int),
        !maze.has_wall(wall),
    ensures
        is_path(maze, seq![wall.near_cell(), far], wall.near_cell(), far),
        seq![wall.near_cell(), far].no_duplicates(),
{
    let direct = seq![wall.near_cell(), far];
    assert(direct[0] == wall.near_cell() && direct[1] == far);
    assert(passage(maze, wall.near_cell(), far));
}

/// Where simple paths are unique, there is no cycle: a wall put on an open
/// passage parts the two cells of that passage.
pub proof fn lemma_closing_parts_cells(before: &Maze, after: &Maze, wall: Wall, far: (usize, usize))
    requires
        is_closing(before, after, wall, far),
        !before.has_wall(wall),
        unique_simple_paths(before),
    ensures
        !connected(after, wall.near_cell(), far),
{
    let near = wall.near_cell();
    if connected(after, near, far) {
        lemma_connected_by_simple_path(after, near, far);
        let detour = choose|cells: Seq<(usize, usize)>| #[trigger] is_path(after, cells, near, far) && cells.no_duplicates();
        let direct = seq![near, far];
        lemma_walk_after_closing_is_old(before, after, wall, far, detour, near, far);
        lemma_open_wall_is_path(before, wall, far);
        assert(is_path(before, detour, near, far) && is_path(before, direct, near, far));
    }
}

} // verus!
