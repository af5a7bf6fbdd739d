//! Why a fully connected maze has at least one open wall for each cell but
//! one, and why, with no more than that, it has no cycle.

use vstd::prelude::*;
use vstd::relations::injective_on;
use vstd::set_lib::lemma_len_subset;
use vstd::set_lib::lemma_map_size;
use vstd::set_lib::lemma_subset_equality;
use crate::maze::bridges::is_closing;
use crate::maze::bridges::lemma_closing_keeps_connected;
use crate::maze::cells::grid_cells;
use crate::maze::cells::interior_slots;
use crate::maze::cells::lemma_grid_cells_count;
use crate::maze::cells::lemma_interior_slots_count;
use crate::maze::maze::Maze;
use crate::maze::paths::connected;
use crate::maze::paths::fully_connected;
use crate::maze::paths::is_path;
use crate::maze::paths::is_perfect;
use crate::maze::paths::lemma_path_connects;
use crate::maze::paths::open_walls;
use crate::maze::paths::passage;
use crate::maze::wall::Direction;
use crate::maze::wall::Slot;
use crate::maze::wall::Wall;

verus! {

/// Whether a walk of at most `steps` steps leads from `a` to `b`.
pub open spec fn reach_within(maze: &Maze, a: (usize, usize), b: (usize, usize), steps: int) -> bool {
    exists|cells: Seq<(usize, usize)>| #[trigger] is_path(maze, cells, a, b) && cells.len() <= steps + 1
}

/// Whether `steps` is the least number of steps in which a walk leads from
/// `a` to `b`.
pub open spec fn is_distance(maze: &Maze, a: (usize, usize), b: (usize, usize), steps: int) -> bool {
    reach_within(maze, a, b, steps) && !reach_within(maze, a, b, steps - 1)
}

/// The least number of steps in which a walk leads from `a` to `b`, where
/// there is a walk.
pub open spec fn distance(maze: &Maze, a: (usize, usize), b: (usize, usize)) -> int {
    choose|steps: int| is_distance(maze, a, b, steps)
}

/// A shortest walk from `a` to `b`, where there is a walk.
pub open spec fn shortest_walk(maze: &Maze, a: (usize, usize), b: (usize, usize)) -> Seq<(usize, usize)> {
    choose|cells: Seq<(usize, usize)>| #[trigger] is_path(maze, cells, a, b) && cells.len() <= distance(maze, a, b) + 1
}

/// The cell before `cell` on a shortest walk from `root`.
pub open spec fn parent(maze: &Maze, root: (usize, usize), cell: (usize, usize)) -> (usize, usize) {
    let walk = shortest_walk(maze, root, cell);
    walk[walk.len() - 2]
}

/// The slot between two cells that share an edge.
pub open spec fn slot_between(a: (usize, usize), b: (usize, usize)) -> Slot {
    if b.0 == a.0 + 1 {
        Slot { vertical: true, col: b.0 as int, row: b.1 as int }
    } else if a.0 == b.0 + 1 {
        Slot { vertical: true, col: a.0 as int, row: a.1 as int }
    } else if b.1 == a.1 + 1 {
        Slot { vertical: false, col: b.0 as int, row: b.1 as int }
    } else {
        Slot { vertical: false, col: a.0 as int, row: a.1 as int }
    }
}

/// The slot through which a shortest walk from `root` enters `cell`.
pub open spec fn entry_slot(maze: &Maze, root: (usize, usize), cell: (usize, usize)) -> Slot {
    slot_between(parent(maze, root, cell), cell)
}

proof fn lemma_reach_longer(maze: &Maze, a: (usize, usize), b: (usize, usize), steps: int, more: int)
    requires
        reach_within(maze, a, b, steps),
        steps <= more,
    ensures
        reach_within(maze, a, b, more),
{
    let cells = choose|cells: Seq<(usize, usize)>| #[trigger] is_path(maze, cells, a, b) && cells.len() <= steps + 1;
    assert(is_path(maze, cells, a, b) && cells.len() <= more + 1);
}

proof fn lemma_least_exists(maze: &Maze, a: (usize, usize), b: (usize, usize), steps: int)
    requires
        reach_within(maze, a, b, steps),
    ensures
        exists|least: int| is_distance(maze, a, b, least) && least <= steps,
    decreases steps,
{
    let cells = choose|cells: Seq<(usize, usize)>| #[trigger] is_path(maze, cells, a, b) && cells.len() <= steps + 1;
    assert(steps >= 0);
    if reach_within(maze, a, b, steps - 1) {
        lemma_least_exists(maze, a, b, steps - 1);
        let least = choose|least: int| is_distance(maze, a, b, least) && least <= steps - 1;
        assert(is_distance(maze, a, b, least) && least <= steps);
    } else {
        assert(is_distance(maze, a, b, steps));
    }
}

/// Where a walk of `steps` steps leads from `a` to `b`, their distance is
/// the least number of steps of such a walk, and at most `steps`.
pub proof fn lemma_distance(maze: &Maze, a: (usize, usize), b: (usize, usize), steps: int)
    requires
        reach_within(maze, a, b, steps),
    ensures
        is_distance(maze, a, b, distance(maze, a, b)),
        distance(maze, a, b) <= steps,
{
    lemma_least_exists(maze, a, b, steps);
    let least = choose|least: int| is_distance(maze, a, b, least) && least <= steps;
    let d = distance(maze, a, b);
    assert(is_distance(maze, a, b, d));
    if d > steps {
        lemma_reach_longer(maze, a, b, steps, d - 1);
    }
}

/// The cell before a cell on a shortest walk from the root is next to it
/// through an open passage, and nearer to the root.
pub proof fn lemma_parent(maze: &Maze, root: (usize, usize), cell: (usize, usize))
    requires
        connected(maze, root, cell),
        cell != root,
    ensures
        passage(maze, parent(maze, root, cell), cell),
        reach_within(maze, root, cell, distance(maze, root, cell)),
        reach_within(maze, root, parent(maze, root, cell), distance(maze, root, cell) - 1),
        distance(maze, root, parent(maze, root, cell)) < distance(maze, root, cell),
{
    reveal(connected);
    let any = choose|cells: Seq<(usize, usize)>| is_path(maze, cells, root, cell);
    assert(is_path(maze, any, root, cell) && any.len() <= (any.len() - 1) + 1);
    lemma_distance(maze, root, cell, any.len() - 1);
    let d = distance(maze, root, cell);
    let walk = shortest_walk(maze, root, cell);
    assert(is_path(maze, walk, root, cell) && walk.len() <= d + 1);
    let n = walk.len() as int;
    assert(n >= 2);
    let before = parent(maze, root, cell);
    assert(passage(maze, walk[n - 2], walk[n - 2 + 1]));
    let head = walk.take(n - 1);
    assert forall|i: int| 0 <= i < head.len() implies maze.has_cell((#[trigger] head[i]).0 as int, head[i].1 as int) by {
        assert(maze.has_cell(walk[i].0 as int, walk[i].1 as int));
    }
    assert forall|i: int| 0 <= i < head.len() - 1 implies passage(maze, #[trigger] head[i], head[i + 1]) by {
        assert(passage(maze, walk[i], walk[i + 1]));
    }
    assert(is_path(maze, head, root, before) && head.len() <= (d - 1) + 1);
    lemma_distance(maze, root, before, d - 1);
}

/// The slot between the two cells of a passage is an open wall, and it is
/// the slot between two other cells of a passage only if these are the same
/// two.
pub proof fn lemma_slot_between(maze: &Maze, a: (usize, usize), b: (usize, usize), c: (usize, usize), d: (usize, usize))
    requires
        maze.wf(),
        passage(maze, a, b),
        passage(maze, c, d),
    ensures
        open_walls(maze).contains(slot_between(a, b)),
        slot_between(a, b) == slot_between(c, d) ==> (a == c && b == d) || (a == d && b == c),
{
    maze.lemma_dimensions();
    maze.lemma_cell_walls_have_slots(Wall { x: a.0, y: a.1, dir: Direction::Right });
    maze.lemma_cell_walls_have_slots(Wall { x: a.0, y: a.1, dir: Direction::Left });
    maze.lemma_cell_walls_have_slots(Wall { x: a.0, y: a.1, dir: Direction::Down });
    maze.lemma_cell_walls_have_slots(Wall { x: a.0, y: a.1, dir: Direction::Up });
}

/// The open walls of a maze are finitely many.
pub proof fn lemma_open_walls_finite(maze: &Maze)
    requires
        maze.wf(),
    ensures
        open_walls(maze).finite(),
{
    maze.lemma_dimensions();
    lemma_interior_slots_count(maze.spec_width(), maze.spec_height());
    assert(open_walls(maze).subset_of(interior_slots(maze.spec_width(), maze.spec_height())));
    lemma_len_subset(open_walls(maze), interior_slots(maze.spec_width(), maze.spec_height()));
}

/// The cells of the maze other than `root`.
pub open spec fn other_cells(maze: &Maze, root: (usize, usize)) -> Set<(usize, usize)> {
    grid_cells(maze.spec_width(), maze.spec_height()).remove(root)
}

/// The function that gives each cell the slot through which a shortest walk
/// from `root` enters it.
pub open spec fn entry_of(maze: &Maze, root: (usize, usize)) -> spec_fn((usize, usize)) -> Slot {
    |cell: (usize, usize)| entry_slot(maze, root, cell)
}

/// The slots through which shortest walks from `root` enter the other
/// cells.
pub open spec fn entry_slots(maze: &Maze, root: (usize, usize)) -> Set<Slot> {
    other_cells(maze, root).map(entry_of(maze, root))
}

/// In a fully connected maze the shortest walks from a cell enter the other
/// cells through open walls that differ from cell to cell: there are as many
/// of these walls as other cells.
pub proof fn lemma_entry_slots(maze: &Maze, root: (usize, usize))
    requires
        maze.wf(),
        fully_connected(maze),
        maze.has_cell(root.0 as int, root.1 as int),
    ensures
        open_walls(maze).finite(),
        entry_slots(maze, root).finite(),
        entry_slots(maze, root).subset_of(open_walls(maze)),
        entry_slots(maze, root).len() == maze.spec_width() * maze.spec_height() - 1,
{
    maze.lemma_dimensions();
    lemma_open_walls_finite(maze);
    let w = maze.spec_width();
    let h = maze.spec_height();
    lemma_grid_cells_count(w, h);
    let others = other_cells(maze, root);
    let entry = entry_of(maze, root);
    assert(grid_cells(w, h).contains(root));
    assert forall|a: (usize, usize), b: (usize, usize)|
        others.contains(a) && others.contains(b) && #[trigger] entry(a) == #[trigger] entry(b) implies a == b by {
        assert(connected(maze, root, a));
        assert(connected(maze, root, b));
        lemma_parent(maze, root, a);
        lemma_parent(maze, root, b);
        lemma_slot_between(maze, parent(maze, root, a), a, parent(maze, root, b), b);
    }
    assert(injective_on(entry, others));
    let entries = others.map(entry);
    lemma_map_size(others, entries, entry);
    assert forall|slot: Slot| entries.contains(slot) implies open_walls(maze).contains(slot) by {
        let cell = choose|cell: (usize, usize)| others.contains(cell) && slot == entry(cell);
        assert(connected(maze, root, cell));
        lemma_parent(maze, root, cell);
        lemma_slot_between(maze, parent(maze, root, cell), cell, parent(maze, root, cell), cell);
    }
}

/// A fully connected maze has an open wall for each cell but one.
pub proof fn lemma_connected_needs_walls(maze: &Maze)
    requires
        maze.wf(),
        fully_connected(maze),
    ensures
        open_walls(maze).finite(),
        open_walls(maze).len() >= maze.spec_width() * maze.spec_height() - 1,
{
    maze.lemma_dimensions();
    let root = (0usize, 0usize);
    lemma_entry_slots(maze, root);
    lemma_len_subset(entry_slots(maze, root), open_walls(maze));
}

/// In a fully connected maze with one open wall less than it has cells,
/// every passage is the last step of a shortest walk from `root` to one of
/// its two cells.
pub proof fn lemma_every_passage_enters(maze: &Maze, root: (usize, usize), x: (usize, usize), y: (usize, usize))
    requires
        maze.wf(),
        fully_connected(maze),
        open_walls(maze).len() == maze.spec_width() * maze.spec_height() - 1,
        maze.has_cell(root.0 as int, root.1 as int),
        passage(maze, x, y),
    ensures
        (y != root && x == parent(maze, root, y)) || (x != root && y == parent(maze, root, x)),
{
    lemma_entry_slots(maze, root);
    lemma_subset_equality(entry_slots(maze, root), open_walls(maze));
    lemma_slot_between(maze, x, y, x, y);
    let slot = slot_between(x, y);
    assert(entry_slots(maze, root).contains(slot));
    let others = other_cells(maze, root);
    let entry = entry_of(maze, root);
    let cell = choose|cell: (usize, usize)| others.contains(cell) && slot == entry(cell);
    assert(connected(maze, root, cell));
    lemma_parent(maze, root, cell);
    lemma_slot_between(maze, parent(maze, root, cell), cell, x, y);
}

/// In such a maze a walk from `root` that visits no cell twice goes, at each
/// step, on along a shortest walk: each cell of it is entered from the cell
/// before it on a shortest walk from `root`.
#[verifier::rlimit(50)]
pub proof fn lemma_simple_path_climbs(maze: &Maze, root: (usize, usize), cells: Seq<(usize, usize)>, to: (usize, usize), i: int)
    requires
        maze.wf(),
        fully_connected(maze),
        open_walls(maze).len() == maze.spec_width() * maze.spec_height() - 1,
        is_path(maze, cells, root, to),
        cells.no_duplicates(),
        1 <= i < cells.len(),
    ensures
        cells[i] != root,
        cells[i - 1] == parent(maze, root, cells[i]),
    decreases i,
{
    assert(maze.has_cell(cells[0].0 as int, cells[0].1 as int));
    assert(passage(maze, cells[i - 1], cells[i - 1 + 1]));
    lemma_every_passage_enters(maze, root, cells[i - 1], cells[i]);
    if !(cells[i] != root && cells[i - 1] == parent(maze, root, cells[i])) {
        assert(cells[i - 1] != root);
        assert(i - 1 != 0);
        lemma_simple_path_climbs(maze, root, cells, to, i - 1);
        assert(cells[i - 2] == cells[i]);
    }
}

proof fn lemma_ends_agree(
    maze: &Maze,
    p: Seq<(usize, usize)>,
    q: Seq<(usize, usize)>,
    a: (usize, usize),
    b: (usize, usize),
    k: int,
)
    requires
        maze.wf(),
        fully_connected(maze),
        open_walls(maze).len() == maze.spec_width() * maze.spec_height() - 1,
        is_path(maze, p, a, b),
        p.no_duplicates(),
        is_path(maze, q, a, b),
        q.no_duplicates(),
        0 <= k < p.len(),
        k < q.len(),
    ensures
        p[p.len() - 1 - k] == q[q.len() - 1 - k],
    decreases k,
{
    if k > 0 {
        lemma_ends_agree(maze, p, q, a, b, k - 1);
        lemma_simple_path_climbs(maze, a, p, b, p.len() - k);
        lemma_simple_path_climbs(maze, a, q, b, q.len() - k);
    }
}

proof fn lemma_simple_paths_equal(maze: &Maze, p: Seq<(usize, usize)>, q: Seq<(usize, usize)>, a: (usize, usize), b: (usize, usize))
    requires
        maze.wf(),
        fully_connected(maze),
        open_walls(maze).len() == maze.spec_width() * maze.spec_height() - 1,
        is_path(maze, p, a, b),
        p.no_duplicates(),
        is_path(maze, q, a, b),
        q.no_duplicates(),
    ensures
        p == q,
{
    let m = p.len() as int;
    let n = q.len() as int;
    if m < n {
        lemma_ends_agree(maze, p, q, a, b, m - 1);
        assert(q[n - m] == q[0]);
    } else if n < m {
        lemma_ends_agree(maze, p, q, a, b, n - 1);
        assert(p[m - n] == p[0]);
    } else {
        assert forall|i: int| 0 <= i < m implies p[i] == q[i] by {
            lemma_ends_agree(maze, p, q, a, b, m - 1 - i);
        }
        assert(p =~= q);
    }
}

/// A fully connected maze with one open wall less than it has cells is
/// perfect: any two cells are joined by exactly one walk that visits no cell
/// twice.
pub proof fn lemma_tree_is_perfect(maze: &Maze)
    requires
        maze.wf(),
        fully_connected(maze),
        open_walls(maze).len() == maze.spec_width() * maze.spec_height() - 1,
    ensures
        is_perfect(maze),
{
    assert forall|p: Seq<(usize, usize)>, q: Seq<(usize, usize)>, a: (usize, usize), b: (usize, usize)|
        #![trigger is_path(maze, p, a, b), is_path(maze, q, a, b)]
        is_path(maze, p, a, b) && p.no_duplicates() && is_path(maze, q, a, b) && q.no_duplicates() implies p == q by {
        lemma_simple_paths_equal(maze, p, q, a, b);
    }
}

/// A fully connected maze with one open wall less than it has cells has no
/// cycle: a wall put on any open passage parts the two cells of that
/// passage.
pub proof fn lemma_tree_has_no_cycle(before: &Maze, after: &Maze, wall: Wall, far: (usize, usize))
    requires
        is_closing(before, after, wall, far),
        !before.has_wall(wall),
        fully_connected(before),
        open_walls(before).len() == before.spec_width() * before.spec_height() - 1,
    ensures
        !connected(after, wall.near_cell(), far),
{
    if connected(after, wall.near_cell(), far) {
        lemma_open_walls_finite(before);
        assert forall|a: (usize, usize), b: (usize, usize)|
            after.has_cell(a.0 as int, a.1 as int) && after.has_cell(b.0 as int, b.1 as int) implies #[trigger] connected(
            after,
            a,
            b,
        ) by {
            assert(connected(before, a, b));
            lemma_closing_keeps_connected(before, after, wall, far, a, b);
        }
        before.lemma_cell_walls_have_slots(wall);
        assert(open_walls(before).contains(wall.slot()));
        assert(open_walls(after) =~= open_walls(before).remove(wall.slot()));
        lemma_connected_needs_walls(after);
    }
}

} // verus!
