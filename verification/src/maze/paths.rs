use vstd::prelude::*;
use crate::maze::maze::Maze;
use crate::maze::wall::Direction;
use crate::maze::wall::Slot;
use crate::maze::wall::Wall;

verus! {

/// Whether one can step from cell `a` to cell `b`: both are cells of the maze,
/// they share an edge, and no wall stands on it.
pub open spec fn passage(maze: &Maze, a: (usize, usize), b: (usize, usize)) -> bool {
    &&& maze.has_cell(a.0 as int, a.1 as int)
    &&& maze.has_cell(b.0 as int, b.1 as int)
    &&& {
        ||| b.0 == a.0 + 1 && b.1 == a.1 && !maze.has_wall(Wall { x: a.0, y: a.1, dir: Direction::Right })
        ||| b.0 + 1 == a.0 && b.1 == a.1 && !maze.has_wall(Wall { x: a.0, y: a.1, dir: Direction::Left })
        ||| b.0 == a.0 && b.1 == a.1 + 1 && !maze.has_wall(Wall { x: a.0, y: a.1, dir: Direction::Down })
        ||| b.0 == a.0 && b.1 + 1 == a.1 && !maze.has_wall(Wall { x: a.0, y: a.1, dir: Direction::Up })
    }
}

/// Whether `cells` is a walk through the maze from `from` to `to`: it starts
/// and ends there, and each step goes through an open passage.
pub open spec fn is_path(maze: &Maze, cells: Seq<(usize, usize)>, from: (usize, usize), to: (usize, usize)) -> bool {
    &&& cells.len() > 0
    &&& cells[0] == from
    &&& cells[cells.len() - 1] == to
    &&& forall|i: int| 0 <= i < cells.len() ==> maze.has_cell((#[trigger] cells[i]).0 as int, cells[i].1 as int)
    &&& forall|i: int| 0 <= i < cells.len() - 1 ==> passage(maze, #[trigger] cells[i], cells[i + 1])
}

/// Whether some walk leads from `from` to `to`.
#[verifier::opaque]
pub open spec fn connected(maze: &Maze, from: (usize, usize), to: (usize, usize)) -> bool {
    exists|cells: Seq<(usize, usize)>| is_path(maze, cells, from, to)
}

/// Whether every cell can be reached from every other.
pub open spec fn fully_connected(maze: &Maze) -> bool {
    forall|a: (usize, usize), b: (usize, usize)|
        maze.has_cell(a.0 as int, a.1 as int) && maze.has_cell(b.0 as int, b.1 as int)
            ==> #[trigger] connected(maze, a, b)
}

/// Whether any two cells are joined by at most one walk that visits no cell
/// twice.
pub open spec fn unique_simple_paths(maze: &Maze) -> bool {
    forall|p: Seq<(usize, usize)>, q: Seq<(usize, usize)>, a: (usize, usize), b: (usize, usize)|
        #![trigger is_path(maze, p, a, b), is_path(maze, q, a, b)]
        is_path(maze, p, a, b) && p.no_duplicates() && is_path(maze, q, a, b) && q.no_duplicates()
            ==> p == q
}

/// A perfect maze: every cell reachable, and exactly one simple path between
/// any two cells.
pub open spec fn is_perfect(maze: &Maze) -> bool {
    fully_connected(maze) && unique_simple_paths(maze)
}

/// The two addresses of one edge name one slot, so a passage can be walked
/// both ways.
pub proof fn lemma_passage_symmetric(maze: &Maze, a: (usize, usize), b: (usize, usize))
    requires
        passage(maze, a, b),
    ensures
        passage(maze, b, a),
{
    if b.0 == a.0 + 1 && b.1 == a.1 {
        assert(Wall { x: a.0, y: a.1, dir: Direction::Right }.slot()
            == Wall { x: b.0, y: b.1, dir: Direction::Left }.slot());
    } else if b.0 + 1 == a.0 && b.1 == a.1 {
        assert(Wall { x: a.0, y: a.1, dir: Direction::Left }.slot()
            == Wall { x: b.0, y: b.1, dir: Direction::Right }.slot());
    } else if b.0 == a.0 && b.1 == a.1 + 1 {
        assert(Wall { x: a.0, y: a.1, dir: Direction::Down }.slot()
            == Wall { x: b.0, y: b.1, dir: Direction::Up }.slot());
    } else {
        assert(Wall { x: a.0, y: a.1, dir: Direction::Up }.slot()
            == Wall { x: b.0, y: b.1, dir: Direction::Down }.slot());
    }
}

/// A walk read backwards is a walk from its end to its start, and visits a
/// cell twice only if the walk itself does.
pub proof fn lemma_path_reverse(maze: &Maze, cells: Seq<(usize, usize)>, from: (usize, usize), to: (usize, usize))
    requires
        is_path(maze, cells, from, to),
    ensures
        is_path(maze, cells.reverse(), to, from),
        cells.no_duplicates() ==> cells.reverse().no_duplicates(),
{
    let back = cells.reverse();
    let n = cells.len() as int;
    assert(back.len() == n);
    assert forall|i: int| 0 <= i < n implies #[trigger] back[i] == cells[n - 1 - i] by {}
    assert forall|i: int| 0 <= i < n - 1 implies passage(maze, #[trigger] back[i], back[i + 1]) by {
        assert(back[i + 1] == cells[n - 2 - i]);
        assert(passage(maze, cells[n - 2 - i], cells[n - 2 - i + 1]));
        lemma_passage_symmetric(maze, cells[n - 2 - i], cells[n - 1 - i]);
    }
    assert forall|i: int| 0 <= i < n implies maze.has_cell((#[trigger] back[i]).0 as int, back[i].1 as int) by {
        assert(maze.has_cell(cells[n - 1 - i].0 as int, cells[n - 1 - i].1 as int));
    }
    if cells.no_duplicates() {
        assert forall|i: int, j: int| 0 <= i < n && 0 <= j < n && i != j implies back[i] != back[j] by {
            assert(cells[n - 1 - i] != cells[n - 1 - j]);
        }
    }
}

/// Connection goes both ways.
pub proof fn lemma_connected_symmetric(maze: &Maze, a: (usize, usize), b: (usize, usize))
    requires
        connected(maze, a, b),
    ensures
        connected(maze, b, a),
{
    reveal(connected);
    let cells = choose|cells: Seq<(usize, usize)>| is_path(maze, cells, a, b);
    lemma_path_reverse(maze, cells, a, b);
}


/// Where simple paths are unique, the simple path back is the simple path
/// there, reversed.
pub proof fn lemma_simple_path_back_is_reverse(
    maze: &Maze,
    there: Seq<(usize, usize)>,
    back: Seq<(usize, usize)>,
    a: (usize, usize),
    b: (usize, usize),
)
    requires
        unique_simple_paths(maze),
        is_path(maze, there, a, b),
        there.no_duplicates(),
        is_path(maze, back, b, a),
        back.no_duplicates(),
    ensures
        there.reverse() == back,
{
    lemma_path_reverse(maze, there, a, b);
    assert(is_path(maze, there.reverse(), b, a) && is_path(maze, back, b, a));
}

/// A walk with a cell visited twice can be cut short: without the part
/// between the two visits at `i` and `j` it is still a walk from `from` to
/// `to`.
pub proof fn lemma_cut_loop(
    maze: &Maze,
    walk: Seq<(usize, usize)>,
    from: (usize, usize),
    to: (usize, usize),
    i: int,
    j: int,
)
    requires
        is_path(maze, walk, from, to),
        0 <= i < j < walk.len(),
        walk[i] == walk[j],
    ensures
        is_path(maze, walk.take(i) + walk.skip(j), from, to),
        (walk.take(i) + walk.skip(j)).len() < walk.len(),
{
    let cut = walk.take(i) + walk.skip(j);
    assert forall|k: int| 0 <= k < cut.len() implies #[trigger] cut[k] == (if k < i {
        walk[k]
    } else {
        walk[k - i + j]
    }) by {}
    assert forall|k: int| 0 <= k < cut.len() implies maze.has_cell((#[trigger] cut[k]).0 as int, cut[k].1 as int) by {
        if k < i {
            assert(maze.has_cell(walk[k].0 as int, walk[k].1 as int));
        } else {
            assert(maze.has_cell(walk[k - i + j].0 as int, walk[k - i + j].1 as int));
        }
    }
    assert forall|k: int| 0 <= k < cut.len() - 1 implies passage(maze, #[trigger] cut[k], cut[k + 1]) by {
        if k + 1 < i {
            assert(passage(maze, walk[k], walk[k + 1]));
        } else if k + 1 == i {
            assert(passage(maze, walk[k], walk[k + 1]));
            assert(cut[k + 1] == walk[j]);
        } else {
            assert(passage(maze, walk[k - i + j], walk[k - i + j + 1]));
        }
    }
}

/// Where simple paths are unique, no walk between two cells is shorter than
/// the simple path between them: its length is their distance.
pub proof fn lemma_simple_path_is_shortest(
    maze: &Maze,
    simple: Seq<(usize, usize)>,
    walk: Seq<(usize, usize)>,
    a: (usize, usize),
    b: (usize, usize),
)
    requires
        unique_simple_paths(maze),
        is_path(maze, simple, a, b),
        simple.no_duplicates(),
        is_path(maze, walk, a, b),
    ensures
        simple.len() <= walk.len(),
    decreases walk.len(),
{
    if walk.no_duplicates() {
        assert(is_path(maze, simple, a, b) && is_path(maze, walk, a, b));
    } else {
        let (i, j) = choose|i: int, j: int| 0 <= i < walk.len() && 0 <= j < walk.len() && i != j && walk[i] == walk[j];
        if i < j {
            lemma_cut_loop(maze, walk, a, b, i, j);
            lemma_simple_path_is_shortest(maze, simple, walk.take(i) + walk.skip(j), a, b);
        } else {
            lemma_cut_loop(maze, walk, a, b, j, i);
            lemma_simple_path_is_shortest(maze, simple, walk.take(j) + walk.skip(i), a, b);
        }
    }
}

/// The cells at the two ends of a walk are connected.
pub proof fn lemma_path_connects(maze: &Maze, cells: Seq<(usize, usize)>, a: (usize, usize), b: (usize, usize))
    requires
        is_path(maze, cells, a, b),
    ensures
        connected(maze, a, b),
{
    reveal(connected);
}

/// A walk from `a` to `b` and one from `b` to `c` make one from `a` to `c`.
pub proof fn lemma_connected_transitive(maze: &Maze, a: (usize, usize), b: (usize, usize), c: (usize, usize))
    requires
        connected(maze, a, b),
        connected(maze, b, c),
    ensures
        connected(maze, a, c),
{
    reveal(connected);
    let first = choose|cells: Seq<(usize, usize)>| is_path(maze, cells, a, b);
    let second = choose|cells: Seq<(usize, usize)>| is_path(maze, cells, b, c);
    let joined = first + second.skip(1);
    let n = first.len() as int;
    assert forall|k: int| 0 <= k < joined.len() implies #[trigger] joined[k] == (if k < n {
        first[k]
    } else {
        second[k - n + 1]
    }) by {}
    assert forall|k: int| 0 <= k < joined.len() implies maze.has_cell((#[trigger] joined[k]).0 as int, joined[k].1 as int) by {
        if k < n {
            assert(maze.has_cell(first[k].0 as int, first[k].1 as int));
        } else {
            assert(maze.has_cell(second[k - n + 1].0 as int, second[k - n + 1].1 as int));
        }
    }
    assert forall|k: int| 0 <= k < joined.len() - 1 implies passage(maze, #[trigger] joined[k], joined[k + 1]) by {
        if k + 1 < n {
            assert(passage(maze, first[k], first[k + 1]));
        } else if k + 1 == n {
            assert(first[k] == second[0]);
            assert(passage(maze, second[0], second[1]));
        } else {
            assert(passage(maze, second[k - n + 1], second[k - n + 1 + 1]));
        }
    }
    assert(is_path(maze, joined, a, c));
}

/// Every cell is connected with itself.
pub proof fn lemma_connected_reflexive(maze: &Maze, a: (usize, usize))
    requires
        maze.has_cell(a.0 as int, a.1 as int),
    ensures
        connected(maze, a, a),
{
    reveal(connected);
    assert(is_path(maze, seq![a], a, a));
}

/// A passage connects its two cells.
pub proof fn lemma_passage_connects(maze: &Maze, a: (usize, usize), b: (usize, usize))
    requires
        passage(maze, a, b),
    ensures
        connected(maze, a, b),
{
    reveal(connected);
    let cells = seq![a, b];
    assert(cells[0] == a && cells[1] == b);
    assert(is_path(maze, cells, a, b));
}


/// Removing a wall closes no passage.
pub proof fn lemma_opening_keeps_passage(before: &Maze, after: &Maze, wall: Wall, a: (usize, usize), b: (usize, usize))
    requires
        after.is_edit_of(before, wall, false),
        passage(before, a, b),
    ensures
        passage(after, a, b),
{
    before.lemma_cell_walls_have_slots(Wall { x: a.0, y: a.1, dir: Direction::Right });
    before.lemma_cell_walls_have_slots(Wall { x: a.0, y: a.1, dir: Direction::Left });
    before.lemma_cell_walls_have_slots(Wall { x: a.0, y: a.1, dir: Direction::Down });
    before.lemma_cell_walls_have_slots(Wall { x: a.0, y: a.1, dir: Direction::Up });
}

/// Removing a wall keeps connected what was connected.
pub proof fn lemma_opening_keeps_connected(before: &Maze, after: &Maze, wall: Wall, a: (usize, usize), b: (usize, usize))
    requires
        after.is_edit_of(before, wall, false),
        connected(before, a, b),
    ensures
        connected(after, a, b),
{
    reveal(connected);
    let cells = choose|cells: Seq<(usize, usize)>| is_path(before, cells, a, b);
    assert forall|i: int| 0 <= i < cells.len() - 1 implies passage(after, #[trigger] cells[i], cells[i + 1]) by {
        lemma_opening_keeps_passage(before, after, wall, cells[i], cells[i + 1]);
    }
    assert forall|i: int| 0 <= i < cells.len() implies after.has_cell((#[trigger] cells[i]).0 as int, cells[i].1 as int) by {
        assert(before.has_cell(cells[i].0 as int, cells[i].1 as int));
    }
    assert(is_path(after, cells, a, b));
}

/// A removed wall between two cells of the maze connects the two.
pub proof fn lemma_opened_wall_connects(before: &Maze, after: &Maze, wall: Wall, far: (usize, usize))
    requires
        after.is_edit_of(before, wall, false),
        after.has_cell(far.0 as int, far.1 as int),
        wall.far_cell() == (far.0 as int, far.1 as int),
    ensures
        passage(after, wall.near_cell(), far),
        connected(after, wall.near_cell(), far),
        connected(after, far, wall.near_cell()),
{
    assert(passage(after, wall.near_cell(), far));
    lemma_passage_connects(after, wall.near_cell(), far);
    lemma_connected_symmetric(after, wall.near_cell(), far);
}


/// The slots between two cells of the maze on which no wall stands.
pub open spec fn open_walls(maze: &Maze) -> Set<Slot> {
    Set::new(|slot: Slot| maze.has_slot(slot) && !maze.is_perimeter(slot) && !maze.slot_state(slot))
}

/// A maze with a wall between any two cells has no open wall.
pub proof fn lemma_walled_maze_has_no_open_walls(maze: &Maze)
    requires
        forall|slot: Slot| maze.has_slot(slot) && !maze.is_perimeter(slot) ==> #[trigger] maze.slot_state(slot),
    ensures
        open_walls(maze) == Set::<Slot>::empty(),
        open_walls(maze).finite(),
        open_walls(maze).len() == 0,
{
    assert(open_walls(maze) =~= Set::<Slot>::empty());
}

/// Removing a wall that stands between two cells adds its slot, and no
/// other, to the open walls: there is one more of them.
pub proof fn lemma_opening_adds_one_open_wall(before: &Maze, after: &Maze, wall: Wall)
    requires
        after.is_edit_of(before, wall, false),
        !before.is_perimeter(wall.slot()),
        before.has_wall(wall),
        open_walls(before).finite(),
    ensures
        open_walls(after) == open_walls(before).insert(wall.slot()),
        open_walls(after).finite(),
        open_walls(after).len() == open_walls(before).len() + 1,
{
    before.lemma_cell_walls_have_slots(wall);
    assert(open_walls(after) =~= open_walls(before).insert(wall.slot()));
}

} // verus!
