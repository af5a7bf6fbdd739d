use vstd::arithmetic::div_mod::lemma_fundamental_div_mod_converse;
use vstd::prelude::*;
use vstd::set_lib::lemma_int_range;
use vstd::set_lib::lemma_len_subset;
use vstd::set_lib::set_int_range;
use crate::maze::maze::Maze;
use crate::maze::paths::connected;
use crate::maze::paths::is_path;
use crate::maze::paths::lemma_connected_symmetric;
use crate::maze::paths::lemma_passage_symmetric;
use crate::maze::paths::lemma_path_connects;
use crate::maze::paths::lemma_simple_path_is_shortest;
use crate::maze::paths::passage;
use crate::maze::paths::unique_simple_paths;
use crate::maze::wall::Direction;
use crate::maze::wall::Wall;

verus! {

/// The neighbour of `cell` on the side `dir`, if it is a cell of the maze and
/// no wall stands between the two; as a sequence of at most one cell.
pub open spec fn open_toward(maze: &Maze, cell: (usize, usize), dir: Direction) -> Seq<(usize, usize)> {
    let wall = Wall { x: cell.0, y: cell.1, dir };
    let far = wall.far_cell();
    if maze.has_cell(far.0, far.1) && !maze.has_wall(wall) {
        seq![(far.0 as usize, far.1 as usize)]
    } else {
        Seq::empty()
    }
}

/// The cells one step away from `cell`, in the order right, left, down, up.
pub open spec fn open_neighbors(maze: &Maze, cell: (usize, usize)) -> Seq<(usize, usize)> {
    open_toward(maze, cell, Direction::Right) + open_toward(maze, cell, Direction::Left)
        + open_toward(maze, cell, Direction::Down) + open_toward(maze, cell, Direction::Up)
}

/// The open neighbours of a cell are the cells to which a passage leads.
pub proof fn lemma_open_neighbors_are_passages(maze: &Maze, cell: (usize, usize), other: (usize, usize))
    requires
        maze.wf(),
        maze.has_cell(cell.0 as int, cell.1 as int),
    ensures
        open_neighbors(maze, cell).contains(other) <==> passage(maze, cell, other),
{
    maze.lemma_dimensions();
    let right = open_toward(maze, cell, Direction::Right);
    let left = open_toward(maze, cell, Direction::Left);
    let down = open_toward(maze, cell, Direction::Down);
    let up = open_toward(maze, cell, Direction::Up);
    let all = open_neighbors(maze, cell);
    if all.contains(other) {
        let i = choose|i: int| 0 <= i < all.len() && all[i] == other;
        assert(right.contains(other) || left.contains(other) || down.contains(other) || up.contains(other));
    }
    if passage(maze, cell, other) {
        if other.0 == cell.0 + 1 {
            assert(right[0] == other);
            assert(all[0] == other);
        } else if other.0 + 1 == cell.0 {
            assert(left[0] == other);
            assert(all[right.len() as int] == other);
        } else if other.1 == cell.1 + 1 {
            assert(down[0] == other);
            assert(all[(right.len() + left.len()) as int] == other);
        } else {
            assert(up[0] == other);
            assert(all[(right.len() + left.len() + down.len()) as int] == other);
        }
    }
}

/// The cells that can be entered from `cell` in one step, in the order right,
/// left, down, up.
pub fn get_reachable_cells(maze: &Maze, cell: (usize, usize)) -> (cells: Vec<(usize, usize)>)
    requires
        maze.wf(),
        maze.has_cell(cell.0 as int, cell.1 as int),
    ensures
        cells@ == open_neighbors(maze, cell),
{
    proof {
        maze.lemma_dimensions();
    }
    let x = cell.0;
    let y = cell.1;
    let mut cells: Vec<(usize, usize)> = Vec::new();
    if x + 1 < maze.width() && !maze.get_wall(&Wall { x, y, dir: Direction::Right }) {
        cells.push((x + 1, y));
    }
    assert(cells@ =~= open_toward(maze, cell, Direction::Right));
    let ghost after_right = cells@;
    if x > 0 && !maze.get_wall(&Wall { x, y, dir: Direction::Left }) {
        cells.push((x - 1, y));
    }
    assert(cells@ =~= after_right + open_toward(maze, cell, Direction::Left));
    let ghost after_left = cells@;
    if y + 1 < maze.height() && !maze.get_wall(&Wall { x, y, dir: Direction::Down }) {
        cells.push((x, y + 1));
    }
    assert(cells@ =~= after_left + open_toward(maze, cell, Direction::Down));
    let ghost after_down = cells@;
    if y > 0 && !maze.get_wall(&Wall { x, y, dir: Direction::Up }) {
        cells.push((x, y - 1));
    }
    assert(cells@ =~= after_down + open_toward(maze, cell, Direction::Up));
    cells
}


/// Whether `cell` stands in `stack` at some place above `i`.
spec fn stacked_above(stack: Seq<(usize, usize)>, i: int, cell: (usize, usize)) -> bool {
    exists|j: int| i < j && 0 <= j < stack.len() && stack[j] == cell
}

proof fn lemma_stacked_push(stack: Seq<(usize, usize)>, i: int, cell: (usize, usize), pushed: (usize, usize))
    requires
        i < stack.len(),
    ensures
        stacked_above(stack, i, cell) ==> stacked_above(stack.push(pushed), i, cell),
        stacked_above(stack.push(pushed), i, pushed),
{
    if stacked_above(stack, i, cell) {
        let j = choose|j: int| i < j && 0 <= j < stack.len() && stack[j] == cell;
        assert(stack.push(pushed)[j] == cell);
    }
    assert(stack.push(pushed)[stack.len() as int] == pushed);
}

proof fn lemma_stacked_lower(stack: Seq<(usize, usize)>, i: int, k: int, cell: (usize, usize))
    requires
        i <= k,
        stacked_above(stack, k, cell),
    ensures
        stacked_above(stack, i, cell),
{
    let j = choose|j: int| k < j && 0 <= j < stack.len() && stack[j] == cell;
    assert(i < j && 0 <= j < stack.len() && stack[j] == cell);
}

/// The number under which a cell is counted.
spec fn code(maze: &Maze, cell: (usize, usize)) -> int {
    cell.0 * maze.spec_height() + cell.1
}

proof fn lemma_code_in_range(maze: &Maze, cell: (usize, usize))
    requires
        maze.has_cell(cell.0 as int, cell.1 as int),
    ensures
        0 <= code(maze, cell) < maze.spec_width() * maze.spec_height(),
{
    let x = cell.0 as int;
    let y = cell.1 as int;
    let w = maze.spec_width();
    let h = maze.spec_height();
    assert(0 <= x * h + y < w * h) by (nonlinear_arith)
        requires
            0 <= x < w,
            0 <= y < h,
    ;
}

/// The state of a depth-first search that starts at the end cell and records,
/// for each cell it finds, the cell from which it was found.
struct Search {
    came_from: Vec<Vec<Option<(usize, usize)>>>,
    checked: Vec<Vec<bool>>,
    cells_to_check: Vec<(usize, usize)>,
    /// The order in which the cells were checked.
    rank: Ghost<Map<(usize, usize), nat>>,
    /// The codes of cells that were checked, one for each time the search
    /// checked a new cell.
    codes: Ghost<Set<int>>,
}

impl Search {
    spec fn is_checked(&self, cell: (usize, usize)) -> bool {
        self.checked@[cell.0 as int]@[cell.1 as int]
    }

    spec fn parent(&self, cell: (usize, usize)) -> Option<(usize, usize)> {
        self.came_from@[cell.0 as int]@[cell.1 as int]
    }

    spec fn shaped(&self, maze: &Maze) -> bool {
        &&& self.came_from@.len() == maze.spec_width()
        &&& forall|x: int| 0 <= x < maze.spec_width() ==> (#[trigger] self.came_from@[x])@.len() == maze.spec_height()
        &&& self.checked@.len() == maze.spec_width()
        &&& forall|x: int| 0 <= x < maze.spec_width() ==> (#[trigger] self.checked@[x])@.len() == maze.spec_height()
        &&& forall|i: int| 0 <= i < self.cells_to_check@.len()
            ==> maze.has_cell((#[trigger] self.cells_to_check@[i]).0 as int, self.cells_to_check@[i].1 as int)
    }

    /// Each recorded parent is a checked cell next to its child, checked before
    /// the child was, and every checked cell but the end has one.
    spec fn leads_back(&self, maze: &Maze, end: (usize, usize)) -> bool {
        &&& forall|c: (usize, usize)| maze.has_cell(c.0 as int, c.1 as int) && (#[trigger] self.parent(c)).is_some() ==> {
            let p = self.parent(c).unwrap();
            &&& self.is_checked(p)
            &&& passage(maze, c, p)
            &&& c != end
            &&& self.is_checked(c) ==> self.rank@[p] < self.rank@[c]
        }
        &&& forall|c: (usize, usize)| maze.has_cell(c.0 as int, c.1 as int) && #[trigger] self.is_checked(c) && c != end
            ==> self.parent(c).is_some()
    }

    /// What holds of the recorded parents, of the order of checking and of
    /// the count of checked cells.
    spec fn recorded(&self, maze: &Maze, start: (usize, usize), end: (usize, usize)) -> bool {
        &&& self.shaped(maze)
        &&& !self.is_checked(start)
        &&& self.is_checked(end) || (self.cells_to_check@ =~= seq![end] && forall|c: (usize, usize)|
            maze.has_cell(c.0 as int, c.1 as int) ==> !#[trigger] self.is_checked(c))
        &&& self.leads_back(maze, end)
        &&& forall|c: (usize, usize)| maze.has_cell(c.0 as int, c.1 as int) && #[trigger] self.is_checked(c)
            ==> self.rank@[c] < self.codes@.len()
        &&& forall|i: int| 0 <= i < self.cells_to_check@.len()
            ==> (#[trigger] self.cells_to_check@[i]) == end || self.parent(self.cells_to_check@[i]).is_some()
        &&& self.codes@.finite()
        &&& self.codes@.subset_of(set_int_range(0, maze.spec_width() * maze.spec_height()))
        &&& forall|c: (usize, usize)| maze.has_cell(c.0 as int, c.1 as int) && self.codes@.contains(#[trigger] code(maze, c))
            ==> self.is_checked(c)
    }

    /// Every unchecked cell next to a checked one waits on the stack; `skip`
    /// names a checked cell of which this is not claimed.
    spec fn covered(&self, maze: &Maze, skip: Option<(usize, usize)>) -> bool {
        forall|c: (usize, usize), n: (usize, usize)|
            #[trigger] passage(maze, c, n) && self.is_checked(c) && Some(c) != skip && !self.is_checked(n)
                ==> stacked_above(self.cells_to_check@, -1, n)
    }

    /// Every unchecked cell next to a checked cell that is still on the stack
    /// waits above it.
    spec fn covered_above(&self, maze: &Maze, skip: Option<(usize, usize)>) -> bool {
        forall|i: int, n: (usize, usize)|
            0 <= i < self.cells_to_check@.len() && #[trigger] passage(maze, self.cells_to_check@[i], n)
                && self.is_checked(self.cells_to_check@[i]) && Some(self.cells_to_check@[i]) != skip
                && !self.is_checked(n)
                ==> stacked_above(self.cells_to_check@, i, n)
    }

    #[verifier::opaque]
    spec fn inv(&self, maze: &Maze, start: (usize, usize), end: (usize, usize)) -> bool {
        &&& self.recorded(maze, start, end)
        &&& self.covered(maze, None)
        &&& self.covered_above(maze, None)
    }

    /// What holds while the neighbours of the checked cell `cell` are looked
    /// at; the stack held the places up to `floor` when that began.
    #[verifier::opaque]
    spec fn expanding(&self, maze: &Maze, start: (usize, usize), end: (usize, usize), cell: (usize, usize), floor: int) -> bool {
        &&& self.recorded(maze, start, end)
        &&& self.covered(maze, Some(cell))
        &&& self.covered_above(maze, Some(cell))
        &&& self.is_checked(cell)
        &&& self.is_checked(end)
        &&& maze.has_cell(cell.0 as int, cell.1 as int)
        &&& -1 <= floor < self.cells_to_check@.len()
        &&& forall|j: int| floor < j < self.cells_to_check@.len() ==> !self.is_checked(#[trigger] self.cells_to_check@[j])
    }

    /// `after` is this search with the top cell `cell` taken off the stack and
    /// checked.
    spec fn checked_off(&self, after: &Search, maze: &Maze, cell: (usize, usize)) -> bool {
        let stack = self.cells_to_check@;
        &&& stack.len() > 0
        &&& stack[stack.len() - 1] == cell
        &&& after.cells_to_check@ == stack.take(stack.len() - 1)
        &&& after.came_from == self.came_from
        &&& after.checked@.len() == self.checked@.len()
        &&& forall|x: int| 0 <= x < self.checked@.len() ==> (#[trigger] after.checked@[x])@.len() == self.checked@[x]@.len()
        &&& forall|c: (usize, usize)| maze.has_cell(c.0 as int, c.1 as int) ==> #[trigger] after.is_checked(c) == (
        self.is_checked(c) || c == cell)
        &&& if self.is_checked(cell) {
            after.rank == self.rank && after.codes == self.codes
        } else {
            after.rank@ == self.rank@.insert(cell, self.codes@.len()) && after.codes@ == self.codes@.insert(code(maze, cell))
        }
    }

    /// `after` is this search with the cell `next` put on the stack, as found
    /// from `cell`.
    spec fn found(&self, after: &Search, maze: &Maze, cell: (usize, usize), next: (usize, usize)) -> bool {
        &&& after.cells_to_check@ == self.cells_to_check@.push(next)
        &&& after.checked == self.checked
        &&& after.rank == self.rank
        &&& after.codes == self.codes
        &&& after.came_from@.len() == self.came_from@.len()
        &&& forall|x: int| 0 <= x < self.came_from@.len() ==> (#[trigger] after.came_from@[x])@.len() == self.came_from@[x]@.len()
        &&& forall|c: (usize, usize)| maze.has_cell(c.0 as int, c.1 as int) ==> #[trigger] after.parent(c) == (if c == next {
            Some(cell)
        } else {
            self.parent(c)
        })
    }

    proof fn lemma_found_recorded(
        &self,
        after: &Search,
        maze: &Maze,
        start: (usize, usize),
        end: (usize, usize),
        cell: (usize, usize),
        next: (usize, usize),
    )
        requires
            self.recorded(maze, start, end),
            self.found(after, maze, cell, next),
            self.is_checked(cell),
            self.is_checked(end),
            passage(maze, cell, next),
            !self.is_checked(next),
        ensures
            after.recorded(maze, start, end),
    {
        lemma_passage_symmetric(maze, cell, next);
        assert forall|c: (usize, usize)| #[trigger] after.is_checked(c) == self.is_checked(c) by {}
        assert(after.shaped(maze));
        assert(after.leads_back(maze, end));
    }

    proof fn lemma_found_covered(
        &self,
        after: &Search,
        maze: &Maze,
        cell: (usize, usize),
        next: (usize, usize),
        floor: int,
    )
        requires
            self.covered(maze, Some(cell)),
            self.covered_above(maze, Some(cell)),
            self.found(after, maze, cell, next),
            !self.is_checked(next),
            -1 <= floor < self.cells_to_check@.len(),
            forall|j: int| floor < j < self.cells_to_check@.len() ==> !self.is_checked(#[trigger] self.cells_to_check@[j]),
        ensures
            after.covered(maze, Some(cell)),
            after.covered_above(maze, Some(cell)),
            forall|j: int| floor < j < after.cells_to_check@.len() ==> !after.is_checked(#[trigger] after.cells_to_check@[j]),
            forall|n: (usize, usize)| stacked_above(self.cells_to_check@, floor, n) ==> stacked_above(after.cells_to_check@, floor, n),
            stacked_above(after.cells_to_check@, floor, next),
    {
        let stack = self.cells_to_check@;
        assert forall|c: (usize, usize)| #[trigger] after.is_checked(c) == self.is_checked(c) by {}
        assert forall|c: (usize, usize), n: (usize, usize)|
            #[trigger] passage(maze, c, n) && after.is_checked(c) && Some(c) != Some(cell) && !after.is_checked(n)
            implies stacked_above(after.cells_to_check@, -1, n) by {
            lemma_stacked_push(stack, -1, n, next);
        }
        assert forall|i: int, n: (usize, usize)|
            0 <= i < after.cells_to_check@.len() && #[trigger] passage(maze, after.cells_to_check@[i], n)
                && after.is_checked(after.cells_to_check@[i]) && Some(after.cells_to_check@[i]) != Some(cell)
                && !after.is_checked(n)
            implies stacked_above(after.cells_to_check@, i, n) by {
            if i < stack.len() {
                assert(stack[i] == after.cells_to_check@[i]);
                lemma_stacked_push(stack, i, n, next);
            }
        }
        assert forall|n: (usize, usize)| stacked_above(stack, floor, n) implies stacked_above(after.cells_to_check@, floor, n) by {
            lemma_stacked_push(stack, floor, n, next);
        }
        lemma_stacked_push(stack, floor, next, next);
    }

    proof fn lemma_checked_off_recorded(
        &self,
        after: &Search,
        maze: &Maze,
        start: (usize, usize),
        end: (usize, usize),
        cell: (usize, usize),
    )
        requires
            maze.wf(),
            self.recorded(maze, start, end),
            self.checked_off(after, maze, cell),
            self.parent(start).is_none(),
            maze.has_cell(start.0 as int, start.1 as int),
            maze.has_cell(end.0 as int, end.1 as int),
            start != end,
        ensures
            after.recorded(maze, start, end),
            after.is_checked(end),
            after.is_checked(cell),
            maze.has_cell(cell.0 as int, cell.1 as int),
            after.codes@.len() <= maze.spec_width() * maze.spec_height(),
            after.codes@.len() == self.codes@.len() + if self.is_checked(cell) { 0int } else { 1int },
    {
        maze.lemma_dimensions();
        let stack = self.cells_to_check@;
        let last = stack.len() - 1;
        assert(stack[last] == cell);
        assert(maze.has_cell(cell.0 as int, cell.1 as int));
        assert(cell == end || self.parent(cell).is_some());
        lemma_code_in_range(maze, cell);
        assert forall|i: int| 0 <= i < after.cells_to_check@.len() implies #[trigger] after.cells_to_check@[i] == stack[i] by {}
        assert forall|c: (usize, usize)| #[trigger] after.parent(c) == self.parent(c) by {}
        assert forall|c: (usize, usize)| maze.has_cell(c.0 as int, c.1 as int) && after.codes@.contains(
            #[trigger] code(maze, c)) implies after.is_checked(c) by {
            if code(maze, c) == code(maze, cell) {
                lemma_code_injective(maze, c, cell);
            }
        }
        assert(after.shaped(maze));
        assert(after.is_checked(cell));
        assert(after.is_checked(end));
        assert(after.leads_back(maze, end)) by {
            assert forall|c: (usize, usize)| maze.has_cell(c.0 as int, c.1 as int) && (#[trigger] after.parent(c)).is_some() implies ({
                let p = after.parent(c).unwrap();
                &&& after.is_checked(p)
                &&& passage(maze, c, p)
                &&& c != end
                &&& after.is_checked(c) ==> after.rank@[p] < after.rank@[c]
            }) by {
                let p = self.parent(c).unwrap();
                assert(self.is_checked(p));
                assert(after.is_checked(p));
            }
        }
        lemma_int_range(0, maze.spec_width() * maze.spec_height());
        lemma_len_subset(after.codes@, set_int_range(0, maze.spec_width() * maze.spec_height()));
    }

    proof fn lemma_checked_off_covered(&self, after: &Search, maze: &Maze, cell: (usize, usize))
        requires
            self.covered(maze, None),
            self.covered_above(maze, None),
            self.checked_off(after, maze, cell),
        ensures
            after.covered(maze, Some(cell)),
            after.covered_above(maze, Some(cell)),
            self.is_checked(cell) ==> forall|n: (usize, usize)| #[trigger] passage(maze, cell, n) ==> after.is_checked(n),
    {
        let stack = self.cells_to_check@;
        let base = stack.len() - 1;
        assert forall|c: (usize, usize), n: (usize, usize)|
            #[trigger] passage(maze, c, n) && after.is_checked(c) && Some(c) != Some(cell) && !after.is_checked(n)
            implies stacked_above(after.cells_to_check@, -1, n) by {
            assert(self.is_checked(c) && !self.is_checked(n));
            assert(stacked_above(stack, -1, n));
            let j = choose|j: int| -1 < j && 0 <= j < stack.len() && stack[j] == n;
            assert(after.cells_to_check@[j] == n);
        }
        assert forall|i: int, n: (usize, usize)|
            0 <= i < after.cells_to_check@.len() && #[trigger] passage(maze, after.cells_to_check@[i], n)
                && after.is_checked(after.cells_to_check@[i]) && Some(after.cells_to_check@[i]) != Some(cell)
                && !after.is_checked(n)
            implies stacked_above(after.cells_to_check@, i, n) by {
            assert(stack[i] == after.cells_to_check@[i]);
            assert(self.is_checked(stack[i]) && !self.is_checked(n));
            assert(stacked_above(stack, i, n));
            let j = choose|j: int| i < j && 0 <= j < stack.len() && stack[j] == n;
            assert(after.cells_to_check@[j] == n);
        }
        if self.is_checked(cell) {
            assert forall|n: (usize, usize)| #[trigger] passage(maze, cell, n) implies after.is_checked(n) by {
                if !self.is_checked(n) {
                    assert(passage(maze, stack[base], n));
                    assert(stacked_above(stack, base, n));
                }
            }
        }
    }

    /// Once every open neighbour of `cell` is checked or waits above `floor`,
    /// nothing is left to say of `cell` alone.
    proof fn lemma_expanded(&self, maze: &Maze, start: (usize, usize), end: (usize, usize), cell: (usize, usize), floor: int)
        requires
            self.expanding(maze, start, end, cell, floor),
            forall|n: (usize, usize)| #[trigger] passage(maze, cell, n) && !self.is_checked(n)
                ==> stacked_above(self.cells_to_check@, floor, n),
        ensures
            self.inv(maze, start, end),
    {
        reveal(Search::expanding);
        reveal(Search::inv);
        let stack = self.cells_to_check@;
        assert forall|c: (usize, usize), n: (usize, usize)|
            #[trigger] passage(maze, c, n) && self.is_checked(c) && !self.is_checked(n)
            implies stacked_above(stack, -1, n) by {
            if c == cell {
                lemma_stacked_lower(stack, -1, floor, n);
            } else {
                assert(Some(c) != Some(cell));
            }
        }
        assert forall|i: int, n: (usize, usize)|
            0 <= i < stack.len() && #[trigger] passage(maze, stack[i], n) && self.is_checked(stack[i])
                && !self.is_checked(n)
            implies stacked_above(stack, i, n) by {
            if stack[i] == cell {
                lemma_stacked_lower(stack, i, floor, n);
            } else {
                assert(Some(stack[i]) != Some(cell));
            }
        }
    }

    /// The search before its first step.
    fn new(maze: &Maze, start: (usize, usize), end: (usize, usize)) -> (search: Search)
        requires
            maze.wf(),
            maze.has_cell(start.0 as int, start.1 as int),
            maze.has_cell(end.0 as int, end.1 as int),
            start != end,
        ensures
            search.inv(maze, start, end),
            search.parent(start).is_none(),
            search.codes@.len() == 0,
    {
        let width = maze.width();
        let height = maze.height();
        let mut came_from: Vec<Vec<Option<(usize, usize)>>> = Vec::new();
        let mut checked: Vec<Vec<bool>> = Vec::new();
        let mut x: usize = 0;
        while x < width
            invariant
                x <= width,
                came_from@.len() == x,
                checked@.len() == x,
                forall|i: int| 0 <= i < x ==> (#[trigger] came_from@[i])@.len() == height,
                forall|i: int| 0 <= i < x ==> (#[trigger] checked@[i])@.len() == height,
                forall|i: int, j: int| 0 <= i < x && 0 <= j < height ==> (#[trigger] came_from@[i]@[j]).is_none(),
                forall|i: int, j: int| 0 <= i < x && 0 <= j < height ==> !(#[trigger] checked@[i]@[j]),
            decreases width - x,
        {
            let mut parents: Vec<Option<(usize, usize)>> = Vec::new();
            let mut marks: Vec<bool> = Vec::new();
            let mut y: usize = 0;
            while y < height
                invariant
                    y <= height,
                    parents@.len() == y,
                    marks@.len() == y,
                    forall|j: int| 0 <= j < y ==> (#[trigger] parents@[j]).is_none(),
                    forall|j: int| 0 <= j < y ==> !(#[trigger] marks@[j]),
                decreases height - y,
            {
                parents.push(None);
                marks.push(false);
                y += 1;
            }
            came_from.push(parents);
            checked.push(marks);
            x += 1;
        }
        let mut cells_to_check: Vec<(usize, usize)> = Vec::new();
        cells_to_check.push(end);
        let search = Search {
            came_from,
            checked,
            cells_to_check,
            rank: Ghost(Map::empty()),
            codes: Ghost(Set::empty()),
        };
        proof {
            reveal(Search::inv);
            maze.lemma_dimensions();
            assert(0 <= maze.spec_width() * maze.spec_height()) by (nonlinear_arith)
                requires
                    0 <= maze.spec_width(),
                    0 <= maze.spec_height(),
            ;
            assert(search.cells_to_check@ =~= seq![end]);
            assert forall|c: (usize, usize)| maze.has_cell(c.0 as int, c.1 as int) implies !#[trigger] search.is_checked(c)
                && search.parent(c).is_none() by {
                assert(!search.checked@[c.0 as int]@[c.1 as int]);
                assert(search.came_from@[c.0 as int]@[c.1 as int].is_none());
            }
        }
        search
    }

    /// Puts the unchecked cell `next`, found from `cell`, on the stack and
    /// records where it was found.
    fn discover(
        &mut self,
        maze: &Maze,
        Ghost(start): Ghost<(usize, usize)>,
        Ghost(end): Ghost<(usize, usize)>,
        cell: (usize, usize),
        next: (usize, usize),
        Ghost(floor): Ghost<int>,
    )
        requires
            maze.wf(),
            old(self).expanding(maze, start, end, cell, floor),
            passage(maze, cell, next),
            !old(self).is_checked(next),
        ensures
            final(self).expanding(maze, start, end, cell, floor),
            final(self).checked == old(self).checked,
            final(self).codes == old(self).codes,
            forall|n: (usize, usize)| stacked_above(old(self).cells_to_check@, floor, n)
                ==> stacked_above(final(self).cells_to_check@, floor, n),
            stacked_above(final(self).cells_to_check@, floor, next),
    {
        let ghost before = *self;
        proof {
            reveal(Search::expanding);
        }
        self.cells_to_check.push(next);
        self.came_from[next.0][next.1] = Some(cell);
        proof {
            assert(before.found(self, maze, cell, next));
            before.lemma_found_recorded(self, maze, start, end, cell, next);
            before.lemma_found_covered(self, maze, cell, next, floor);
        }
    }

    /// One step of the search: takes the top cell off the stack, checks it,
    /// and discovers its unchecked open neighbours.
    fn step(&mut self, maze: &Maze, Ghost(start): Ghost<(usize, usize)>, Ghost(end): Ghost<(usize, usize)>)
        requires
            maze.wf(),
            old(self).inv(maze, start, end),
            old(self).parent(start).is_none(),
            maze.has_cell(start.0 as int, start.1 as int),
            maze.has_cell(end.0 as int, end.1 as int),
            start != end,
            old(self).cells_to_check@.len() > 0,
        ensures
            final(self).inv(maze, start, end),
            final(self).codes@.len() <= maze.spec_width() * maze.spec_height(),
            final(self).codes@.len() > old(self).codes@.len() || (final(self).codes@.len() == old(self).codes@.len()
                && final(self).cells_to_check@.len() < old(self).cells_to_check@.len()),
    {
        let ghost before = *self;
        proof {
            before.lemma_shaped(maze, start, end);
        }
        let cell = self.cells_to_check.pop().unwrap();
        let ghost base = self.cells_to_check@.len() as int;
        let ghost floor = base - 1;
        let ghost was_checked = before.is_checked(cell);
        self.checked[cell.0][cell.1] = true;
        proof {
            if !was_checked {
                self.rank = Ghost(before.rank@.insert(cell, before.codes@.len()));
                self.codes = Ghost(before.codes@.insert(code(maze, cell)));
            }
            assert(self.cells_to_check@ =~= before.cells_to_check@.take(base));
            assert(before.checked_off(self, maze, cell));
            reveal(Search::inv);
            before.lemma_checked_off_recorded(self, maze, start, end, cell);
            before.lemma_checked_off_covered(self, maze, cell);
            reveal(Search::expanding);
            assert(self.expanding(maze, start, end, cell, floor));
        }
        let neighbors = get_reachable_cells(maze, cell);
        proof {
            assert forall|n: (usize, usize)| neighbors@.contains(n) <==> #[trigger] passage(maze, cell, n) by {
                lemma_open_neighbors_are_passages(maze, cell, n);
            }
        }
        let mut k: usize = 0;
        while k < neighbors.len()
            invariant
                maze.wf(),
                maze.has_cell(cell.0 as int, cell.1 as int),
                k <= neighbors@.len(),
                forall|n: (usize, usize)| neighbors@.contains(n) <==> #[trigger] passage(maze, cell, n),
                self.expanding(maze, start, end, cell, floor),
                self.shaped(maze),
                forall|i: int| 0 <= i < k && !self.is_checked(#[trigger] neighbors@[i])
                    ==> stacked_above(self.cells_to_check@, floor, neighbors@[i]),
                was_checked ==> forall|n: (usize, usize)| #[trigger] passage(maze, cell, n) ==> self.is_checked(n),
                was_checked ==> self.cells_to_check@.len() == base,
                self.codes@.len() <= maze.spec_width() * maze.spec_height(),
                self.codes@.len() == before.codes@.len() + if was_checked { 0int } else { 1int },
            decreases neighbors@.len() - k,
        {
            let next = neighbors[k];
            assert(neighbors@.contains(next));
            assert(passage(maze, cell, next));
            if !self.checked[next.0][next.1] {
                self.discover(maze, Ghost(start), Ghost(end), cell, next, Ghost(floor));
                proof {
                    self.lemma_expanding_shaped(maze, start, end, cell, floor);
                }
            }
            k += 1;
        }
        proof {
            assert forall|n: (usize, usize)| #[trigger] passage(maze, cell, n) && !self.is_checked(n)
                implies stacked_above(self.cells_to_check@, floor, n) by {
                let i = choose|i: int| 0 <= i < neighbors@.len() && neighbors@[i] == n;
                assert(!self.is_checked(neighbors@[i]));
            }
            self.lemma_expanded(maze, start, end, cell, floor);
        }
    }

    proof fn lemma_shaped(&self, maze: &Maze, start: (usize, usize), end: (usize, usize))
        requires
            self.inv(maze, start, end),
        ensures
            self.shaped(maze),
            self.recorded(maze, start, end),
    {
        reveal(Search::inv);
    }

    proof fn lemma_expanding_shaped(&self, maze: &Maze, start: (usize, usize), end: (usize, usize), cell: (usize, usize), floor: int)
        requires
            self.expanding(maze, start, end, cell, floor),
        ensures
            self.shaped(maze),
    {
        reveal(Search::expanding);
    }

    /// Walks the recorded parents from `start` until `end` is reached.
    fn trace(&self, maze: &Maze, start: (usize, usize), end: (usize, usize)) -> (travel_path: Vec<(usize, usize)>)
        requires
            maze.wf(),
            maze.has_cell(start.0 as int, start.1 as int),
            self.recorded(maze, start, end),
            self.parent(start).is_some(),
        ensures
            is_path(maze, travel_path@, start, end),
            travel_path@.no_duplicates(),
    {
        let mut travel_path: Vec<(usize, usize)> = Vec::new();
        travel_path.push(start);
        let mut current = self.came_from[start.0][start.1].unwrap();
        travel_path.push(current);
        while current.0 != end.0 || current.1 != end.1
            invariant
                maze.wf(),
                maze.has_cell(start.0 as int, start.1 as int),
                self.shaped(maze),
                self.leads_back(maze, end),
                !self.is_checked(start),
                travel_path@.len() >= 2,
                travel_path@[0] == start,
                travel_path@[travel_path@.len() - 1] == current,
                forall|i: int| 0 <= i < travel_path@.len() ==> maze.has_cell((#[trigger] travel_path@[i]).0 as int, travel_path@[i].1 as int),
                forall|i: int| 0 <= i < travel_path@.len() - 1 ==> passage(maze, #[trigger] travel_path@[i], travel_path@[i + 1]),
                forall|i: int| 1 <= i < travel_path@.len() ==> self.is_checked(#[trigger] travel_path@[i]),
                forall|i: int| 1 <= i < travel_path@.len() ==> self.rank@[#[trigger] travel_path@[i]] >= self.rank@[current],
                forall|i: int, j: int| 1 <= i < j < travel_path@.len() ==> travel_path@[i] != travel_path@[j],
            decreases self.rank@[current],
        {
            let ghost walked = travel_path@;
            proof {
                assert(self.is_checked(walked[walked.len() - 1]));
                assert(self.parent(current).is_some());
            }
            let next = self.came_from[current.0][current.1].unwrap();
            travel_path.push(next);
            proof {
                assert forall|i: int| 0 <= i < travel_path@.len() - 1 implies passage(maze, #[trigger] travel_path@[i], travel_path@[i + 1]) by {
                    if i < walked.len() - 1 {
                        assert(passage(maze, walked[i], walked[i + 1]));
                    }
                }
                assert forall|i: int, j: int| 1 <= i < j < travel_path@.len() implies travel_path@[i] != travel_path@[j] by {
                    if j == walked.len() {
                        assert(self.rank@[walked[i]] >= self.rank@[current]);
                    }
                }
            }
            current = next;
        }
        proof {
            assert forall|i: int, j: int| 0 <= i < travel_path@.len() && 0 <= j < travel_path@.len() && i != j implies travel_path@[i]
                != travel_path@[j] by {
                if i == 0 {
                    assert(self.is_checked(travel_path@[j]));
                } else if j == 0 {
                    assert(self.is_checked(travel_path@[i]));
                }
            }
        }
        travel_path
    }

    /// While the start cell has not been found, cells wait on the stack.
    proof fn lemma_stack_not_empty(&self, maze: &Maze, start: (usize, usize), end: (usize, usize))
        requires
            self.inv(maze, start, end),
            connected(maze, end, start),
            start != end,
        ensures
            self.cells_to_check@.len() > 0,
    {
        reveal(Search::inv);
        reveal(connected);
        if self.cells_to_check@.len() == 0 {
            let cells = choose|cells: Seq<(usize, usize)>| is_path(maze, cells, end, start);
            self.lemma_checked_along(maze, cells, cells.len() - 1);
        }
    }

    /// With an empty stack, every cell to which a walk leads from a checked
    /// cell is checked.
    proof fn lemma_checked_along(&self, maze: &Maze, cells: Seq<(usize, usize)>, k: int)
        requires
            self.covered(maze, None),
            self.cells_to_check@.len() == 0,
            0 <= k < cells.len(),
            self.is_checked(cells[0]),
            forall|i: int| 0 <= i < cells.len() - 1 ==> passage(maze, #[trigger] cells[i], cells[i + 1]),
        ensures
            self.is_checked(cells[k]),
        decreases k,
    {
        if k > 0 {
            self.lemma_checked_along(maze, cells, k - 1);
            assert(passage(maze, cells[k - 1], cells[k - 1 + 1]));
            if !self.is_checked(cells[k]) {
                assert(stacked_above(self.cells_to_check@, -1, cells[k]));
            }
        }
    }
}

proof fn lemma_code_injective(maze: &Maze, a: (usize, usize), b: (usize, usize))
    requires
        maze.has_cell(a.0 as int, a.1 as int),
        maze.has_cell(b.0 as int, b.1 as int),
        code(maze, a) == code(maze, b),
    ensures
        a == b,
{
    let h = maze.spec_height();
    lemma_fundamental_div_mod_converse(code(maze, a), h, a.0 as int, a.1 as int);
    lemma_fundamental_div_mod_converse(code(maze, b), h, b.0 as int, b.1 as int);
}

/// The path from `start` to `end`, both included, if the maze connects the
/// two: each cell of it is entered from the one before through an open
/// passage, and none is visited twice. `None` if the two are not connected.
///
/// In a perfect maze this is the only such path, so it is the shortest.
pub fn try_solve(maze: &Maze, start: (usize, usize), end: (usize, usize)) -> (found: Option<Vec<(usize, usize)>>)
    requires
        maze.wf(),
        maze.has_cell(start.0 as int, start.1 as int),
        maze.has_cell(end.0 as int, end.1 as int),
    ensures
        found.is_some() <==> connected(maze, start, end),
        found.is_some() ==> {
            let path = found.unwrap();
            &&& is_path(maze, path@, start, end)
            &&& path@.no_duplicates()
            &&& start == end ==> path@ == seq![start]
            &&& unique_simple_paths(maze) ==> forall|walk: Seq<(usize, usize)>| #[trigger]
                is_path(maze, walk, start, end) ==> path@.len() <= walk.len()
        },
{
    if start.0 == end.0 && start.1 == end.1 {
        let mut travel_path: Vec<(usize, usize)> = Vec::new();
        travel_path.push(start);
        assert(travel_path@ =~= seq![start]);
        assert(forall|walk: Seq<(usize, usize)>| #[trigger] is_path(maze, walk, start, end) ==> 1 <= walk.len());
        proof {
            lemma_path_connects(maze, travel_path@, start, end);
        }
        return Some(travel_path);
    }
    proof {
        maze.lemma_dimensions();
    }
    // The search runs backwards, from the end, so that the recorded parents
    // lead from the start to the end.
    let mut search = Search::new(maze, start, end);
    proof {
        search.lemma_shaped(maze, start, end);
        assert(0 <= maze.spec_width() * maze.spec_height()) by (nonlinear_arith)
            requires
                0 <= maze.spec_width(),
                0 <= maze.spec_height(),
        ;
    }
    while search.came_from[start.0][start.1].is_none()
        invariant
            maze.wf(),
            maze.has_cell(start.0 as int, start.1 as int),
            maze.has_cell(end.0 as int, end.1 as int),
            start != end,
            search.inv(maze, start, end),
            search.shaped(maze),
            search.codes@.len() <= maze.spec_width() * maze.spec_height(),
        decreases maze.spec_width() * maze.spec_height() - search.codes@.len(), search.cells_to_check@.len(),
    {
        if search.cells_to_check.len() == 0 {
            proof {
                if connected(maze, start, end) {
                    lemma_connected_symmetric(maze, start, end);
                    search.lemma_stack_not_empty(maze, start, end);
                }
            }
            return None;
        }
        search.step(maze, Ghost(start), Ghost(end));
        proof {
            search.lemma_shaped(maze, start, end);
        }
    }
    proof {
        search.lemma_shaped(maze, start, end);
    }
    let travel_path = search.trace(maze, start, end);
    proof {
        lemma_path_connects(maze, travel_path@, start, end);
        if unique_simple_paths(maze) {
            assert forall|walk: Seq<(usize, usize)>| #[trigger] is_path(maze, walk, start, end) implies travel_path@.len()
                <= walk.len() by {
                lemma_simple_path_is_shortest(maze, travel_path@, walk, start, end);
            }
        }
    }
    Some(travel_path)
}

/// The path from `start` to `end`, both included: each cell of it is entered
/// from the one before through an open passage, and none is visited twice.
///
/// In a perfect maze this is the only such path, so it is the shortest.
pub fn solve(maze: &Maze, start: (usize, usize), end: (usize, usize)) -> (path: Vec<(usize, usize)>)
    requires
        maze.wf(),
        maze.has_cell(start.0 as int, start.1 as int),
        maze.has_cell(end.0 as int, end.1 as int),
        connected(maze, start, end),
    ensures
        is_path(maze, path@, start, end),
        path@.no_duplicates(),
        start == end ==> path@ == seq![start],
        unique_simple_paths(maze) ==> forall|walk: Seq<(usize, usize)>| #[trigger]
            is_path(maze, walk, start, end) ==> path@.len() <= walk.len(),
{
    try_solve(maze, start, end).unwrap()
}

} // verus!
