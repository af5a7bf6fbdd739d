use vstd::prelude::*;
use vstd::set_lib::lemma_int_range;
use vstd::set_lib::lemma_len_subset;
use vstd::set_lib::set_int_range;
use crate::generate::MazeGenerator;
use crate::generate::random::shuffle;
use crate::maze::bridges::is_opening;
use crate::maze::bridges::lemma_bridge_keeps_simple_paths_unique;
use crate::maze::bridges::lemma_connected_after_opening;
use crate::maze::bridges::lemma_walled_maze_is_forest;
use crate::maze::maze::Maze;
use crate::maze::paths::connected;
use crate::maze::paths::fully_connected;
use crate::maze::paths::is_perfect;
use crate::maze::paths::lemma_connected_reflexive;
use crate::maze::paths::lemma_connected_transitive;
use crate::maze::paths::lemma_opened_wall_connects;
use crate::maze::paths::lemma_opening_adds_one_open_wall;
use crate::maze::paths::lemma_opening_keeps_connected;
use crate::maze::paths::lemma_walled_maze_has_no_open_walls;
use crate::maze::paths::open_walls;
use crate::maze::paths::unique_simple_paths;
use crate::maze::wall::Direction;
use crate::maze::wall::Slot;
use crate::maze::wall::Wall;

verus! {

/// The cells of a grid, divided into sets. Each set has a number; each cell
/// holds the number of its set, and each set lists its cells.
pub struct CellSets {
    width: usize,
    height: usize,
    group_of: Vec<Vec<usize>>,
    members: Vec<Vec<(usize, usize)>>,
}

impl CellSets {
    pub closed spec fn spec_width(&self) -> int {
        self.width as int
    }

    pub closed spec fn spec_height(&self) -> int {
        self.height as int
    }

    pub open spec fn has_cell(&self, cell: (usize, usize)) -> bool {
        cell.0 < self.spec_width() && cell.1 < self.spec_height()
    }

    /// The number of the set that holds `cell`.
    pub closed spec fn group(&self, cell: (usize, usize)) -> int {
        self.group_of@[cell.0 as int]@[cell.1 as int] as int
    }

    /// Whether `a` and `b` are in one set.
    pub open spec fn joined(&self, a: (usize, usize), b: (usize, usize)) -> bool {
        self.group(a) == self.group(b)
    }

    /// The cells of the set with the number `group`, as listed.
    pub closed spec fn listed(&self, group: int) -> Seq<(usize, usize)> {
        self.members@[group]@
    }

    /// Every cell is listed in the set whose number it holds, once, and in no
    /// other.
    pub closed spec fn wf(&self) -> bool {
        &&& 1 < self.width < usize::MAX
        &&& 1 < self.height < usize::MAX
        &&& self.group_of@.len() == self.width
        &&& forall|x: int| 0 <= x < self.width ==> (#[trigger] self.group_of@[x])@.len() == self.height
        &&& forall|c: (usize, usize)| self.has_cell(c) ==> 0 <= #[trigger] self.group(c) < self.members@.len()
        &&& forall|c: (usize, usize)| self.has_cell(c) ==> self.listed(#[trigger] self.group(c)).contains(c)
        &&& forall|g: int, i: int| 0 <= g < self.members@.len() && 0 <= i < self.listed(g).len() ==> {
            &&& self.has_cell(#[trigger] self.listed(g)[i])
            &&& self.group(self.listed(g)[i]) == g
        }
        &&& forall|g: int| 0 <= g < self.members@.len() ==> (#[trigger] self.listed(g)).no_duplicates()
    }

    /// The numbers of the sets that hold a cell.
    pub closed spec fn nonempty_groups(&self) -> Set<int> {
        Set::new(|g: int| 0 <= g < self.members@.len() && self.listed(g).len() > 0)
    }

    /// How many sets there are.
    pub open spec fn set_count(&self) -> nat {
        self.nonempty_groups().len()
    }

    proof fn lemma_nonempty_groups_finite(&self)
        ensures
            self.nonempty_groups().finite(),
    {
        lemma_int_range(0, self.members@.len() as int);
        lemma_len_subset(self.nonempty_groups(), set_int_range(0, self.members@.len() as int));
    }

    /// Where all cells are joined, there is one set.
    pub proof fn lemma_all_joined_is_one_set(&self)
        requires
            self.wf(),
            forall|a: (usize, usize), b: (usize, usize)| self.has_cell(a) && self.has_cell(b) ==> #[trigger] self.joined(a, b),
        ensures
            self.set_count() == 1,
    {
        let corner = (0usize, 0usize);
        let g0 = self.group(corner);
        assert(self.has_cell(corner));
        assert(self.listed(g0).contains(corner));
        assert forall|g: int| self.nonempty_groups().contains(g) implies g == g0 by {
            let c = self.listed(g)[0];
            assert(self.has_cell(c) && self.group(c) == g);
            assert(self.joined(c, corner));
        }
        assert(self.nonempty_groups() =~= Set::<int>::empty().insert(g0));
    }

    /// The dimensions of a well-formed division.
    pub proof fn lemma_dimensions(&self)
        requires
            self.wf(),
        ensures
            1 < self.spec_width() < usize::MAX,
            1 < self.spec_height() < usize::MAX,
    {
    }

    /// The number of cells.
    pub fn len(&self) -> (cells: usize)
        requires
            self.wf(),
            self.spec_width() * self.spec_height() <= usize::MAX,
        ensures
            cells == self.spec_width() * self.spec_height(),
    {
        self.width * self.height
    }

    /// How many cells the set of `cell` holds.
    pub fn set_size(&self, cell: (usize, usize)) -> (size: usize)
        requires
            self.wf(),
            self.has_cell(cell),
        ensures
            size == self.listed(self.group(cell)).len(),
    {
        let group = self.group_of[cell.0][cell.1];
        assert(0 <= self.group(cell) < self.members@.len());
        self.members[group].len()
    }

    /// Whether `a` and `b` are in one set.
    pub fn same_set(&self, a: (usize, usize), b: (usize, usize)) -> (same: bool)
        requires
            self.wf(),
            self.has_cell(a),
            self.has_cell(b),
        ensures
            same == self.joined(a, b),
    {
        self.group_of[a.0][a.1] == self.group_of[b.0][b.1]
    }

    /// The cells of one set are the cells joined with any of them.
    pub proof fn lemma_listed_are_joined(&self, cell: (usize, usize), other: (usize, usize))
        requires
            self.wf(),
            self.has_cell(cell),
        ensures
            self.listed(self.group(cell)).contains(other) <==> self.has_cell(other) && self.joined(cell, other),
            self.listed(self.group(cell)).no_duplicates(),
    {
        let g = self.group(cell);
        assert(0 <= g < self.members@.len());
        if self.listed(g).contains(other) {
            let i = choose|i: int| 0 <= i < self.listed(g).len() && self.listed(g)[i] == other;
            assert(self.has_cell(self.listed(g)[i]));
        }
        if self.has_cell(other) && self.joined(cell, other) {
            assert(self.listed(self.group(other)).contains(other));
        }
    }

    /// Moves every cell of the set of `a` into the set of `b`.
    pub fn merge(&mut self, a: (usize, usize), b: (usize, usize))
        requires
            old(self).wf(),
            old(self).has_cell(a),
            old(self).has_cell(b),
            !old(self).joined(a, b),
        ensures
            final(self).wf(),
            final(self).spec_width() == old(self).spec_width(),
            final(self).spec_height() == old(self).spec_height(),
            forall|c: (usize, usize)| old(self).has_cell(c) ==> #[trigger] final(self).group(c) == (if old(self).joined(c, a) {
                old(self).group(b)
            } else {
                old(self).group(c)
            }),
            final(self).set_count() + 1 == old(self).set_count(),
    {
        let from = self.group_of[a.0][a.1];
        let to = self.group_of[b.0][b.1];
        assert(0 <= self.group(a) < self.members@.len());
        assert(0 <= self.group(b) < self.members@.len());
        while self.members[from].len() > 0
            invariant
                self.wf(),
                self.width == old(self).width,
                self.height == old(self).height,
                0 <= from < self.members@.len(),
                0 <= to < self.members@.len(),
                from != to,
                from == old(self).group(a),
                to == old(self).group(b),
                forall|c: (usize, usize)| self.has_cell(c) ==> #[trigger] self.group(c) == old(self).group(c) || (
                old(self).group(c) == from && self.group(c) == to),
                self.members@.len() == old(self).members@.len(),
                forall|g: int| 0 <= g < self.members@.len() && g != from && g != to ==> #[trigger] self.listed(g) == old(self).listed(g),
                self.listed(to as int).len() >= old(self).listed(to as int).len(),
            decreases self.members@[from as int]@.len(),
        {
            let ghost before = *self;
            proof {
                let last = before.listed(from as int).len() - 1;
                assert(before.has_cell(before.listed(from as int)[last]));
            }
            let cell = self.members[from].pop().unwrap();
            self.group_of[cell.0][cell.1] = to;
            self.members[to].push(cell);
            proof {
                assert(self.listed(from as int) =~= before.listed(from as int).drop_last());
                assert(self.listed(to as int) =~= before.listed(to as int).push(cell));
                assert(before.moved(self, from as int, to as int, cell));
                before.lemma_moved(self, from as int, to as int, cell);
            }
        }
        proof {
            assert forall|c: (usize, usize)| old(self).has_cell(c) implies #[trigger] self.group(c) == (if old(self).joined(c, a) {
                old(self).group(b)
            } else {
                old(self).group(c)
            }) by {
                if self.group(c) == from {
                    assert(self.listed(self.group(c)).contains(c));
                }
            }
            assert(old(self).listed(old(self).group(a)).contains(a));
            assert(old(self).listed(old(self).group(b)).contains(b));
            old(self).lemma_nonempty_groups_finite();
            assert(self.nonempty_groups() =~= old(self).nonempty_groups().remove(from as int));
        }
    }

    /// `after` is this division with `cell`, the last one listed in the set
    /// `from`, moved to the set `to`.
    spec fn moved(&self, after: &CellSets, from: int, to: int, cell: (usize, usize)) -> bool {
        &&& after.width == self.width
        &&& after.height == self.height
        &&& after.group_of@.len() == self.group_of@.len()
        &&& forall|x: int| 0 <= x < self.group_of@.len() ==> (#[trigger] after.group_of@[x])@.len() == self.group_of@[x]@.len()
        &&& after.members@.len() == self.members@.len()
        &&& self.listed(from).len() > 0
        &&& cell == self.listed(from).last()
        &&& forall|c: (usize, usize)| self.has_cell(c) ==> #[trigger] after.group(c) == (if c == cell {
            to
        } else {
            self.group(c)
        })
        &&& forall|g: int| 0 <= g < self.members@.len() ==> #[trigger] after.listed(g) == (if g == from {
            self.listed(from).drop_last()
        } else if g == to {
            self.listed(to).push(cell)
        } else {
            self.listed(g)
        })
    }

    proof fn lemma_moved(&self, after: &CellSets, from: int, to: int, cell: (usize, usize))
        requires
            self.wf(),
            0 <= from < self.members@.len(),
            0 <= to < self.members@.len(),
            from != to,
            self.moved(after, from, to, cell),
        ensures
            after.wf(),
    {
        let last = self.listed(from).len() - 1;
        assert(self.has_cell(self.listed(from)[last]) && self.group(self.listed(from)[last]) == from);
        assert forall|c: (usize, usize)| after.has_cell(c) implies after.listed(#[trigger] after.group(c)).contains(c) by {
            if c == cell {
                assert(after.listed(to)[self.listed(to).len() as int] == c);
            } else {
                let g = self.group(c);
                assert(self.listed(g).contains(c));
                let i = choose|i: int| 0 <= i < self.listed(g).len() && self.listed(g)[i] == c;
                assert(after.listed(g)[i] == c);
            }
        }
        assert forall|g: int, i: int| 0 <= g < after.members@.len() && 0 <= i < after.listed(g).len() implies ({
            &&& after.has_cell(#[trigger] after.listed(g)[i])
            &&& after.group(after.listed(g)[i]) == g
        }) by {
            if g == to && i == self.listed(to).len() {
            } else {
                assert(after.listed(g)[i] == self.listed(g)[i]);
                assert(self.has_cell(self.listed(g)[i]) && self.group(self.listed(g)[i]) == g);
                if g == from {
                    assert(self.listed(from)[i] != self.listed(from)[last]);
                }
            }
        }
        assert forall|g: int| 0 <= g < after.members@.len() implies (#[trigger] after.listed(g)).no_duplicates() by {
            assert(self.listed(g).no_duplicates());
            if g == to {
                assert forall|i: int| 0 <= i < self.listed(to).len() implies self.listed(to)[i] != cell by {
                    assert(self.group(self.listed(to)[i]) == to);
                }
            }
        }
    }
}


spec fn id_at(ids: Seq<Vec<usize>>, x: int, y: int) -> int {
    ids[x]@[y] as int
}

spec fn only_cell(lists: Seq<Vec<(usize, usize)>>, g: int) -> (usize, usize) {
    lists[g]@[0]
}

/// The division of a `width` by `height` grid in which every cell is a set of
/// its own.
pub fn create_sets(width: usize, height: usize) -> (sets: CellSets)
    requires
        1 < width < usize::MAX,
        1 < height < usize::MAX,
    ensures
        sets.wf(),
        sets.spec_width() == width,
        sets.spec_height() == height,
        forall|c: (usize, usize)| sets.has_cell(c) ==> sets.listed(#[trigger] sets.group(c)) == seq![c],
        forall|a: (usize, usize), b: (usize, usize)|
            sets.has_cell(a) && sets.has_cell(b) ==> (#[trigger] sets.joined(a, b) <==> a == b),
        sets.set_count() == width * height,
{
    let mut group_of: Vec<Vec<usize>> = Vec::new();
    let mut members: Vec<Vec<(usize, usize)>> = Vec::new();
    let mut x: usize = 0;
    while x < width
        invariant
            x <= width,
            group_of@.len() == x,
            members@.len() == x * height,
            forall|cx: int| 0 <= cx < x ==> (#[trigger] group_of@[cx])@.len() == height,
            forall|g: int| 0 <= g < members@.len() ==> (#[trigger] members@[g])@.len() == 1,
            forall|g: int|
                0 <= g < members@.len() ==> {
                    let c = #[trigger] only_cell(members@, g);
                    c.0 < x && c.1 < height && id_at(group_of@, c.0 as int, c.1 as int) == g
                },
            forall|cx: int, cy: int|
                0 <= cx < x && 0 <= cy < height ==> {
                    let g = #[trigger] id_at(group_of@, cx, cy);
                    0 <= g < members@.len() && only_cell(members@, g) == (cx as usize, cy as usize)
                },
        decreases width - x,
    {
        let mut ids: Vec<usize> = Vec::new();
        let mut y: usize = 0;
        while y < height
            invariant
                x < width,
                y <= height,
                ids@.len() == y,
                group_of@.len() == x,
                members@.len() == x * height + y,
                forall|cx: int| 0 <= cx < x ==> (#[trigger] group_of@[cx])@.len() == height,
                forall|g: int| 0 <= g < members@.len() ==> (#[trigger] members@[g])@.len() == 1,
                forall|g: int|
                    0 <= g < members@.len() ==> {
                        let c = #[trigger] only_cell(members@, g);
                        ||| c.0 < x && c.1 < height && id_at(group_of@, c.0 as int, c.1 as int) == g
                        ||| c.0 == x && c.1 < y && ids@[c.1 as int] == g
                    },
                forall|cx: int, cy: int|
                    0 <= cx < x && 0 <= cy < height ==> {
                        let g = #[trigger] id_at(group_of@, cx, cy);
                        0 <= g < members@.len() && only_cell(members@, g) == (cx as usize, cy as usize)
                    },
                forall|cy: int|
                    0 <= cy < y ==> 0 <= (#[trigger] ids@[cy]) < members@.len() && only_cell(members@, ids@[cy] as int) == (
                    x,
                    cy as usize,
                    ),
            decreases height - y,
        {
            ids.push(members.len());
            let mut set: Vec<(usize, usize)> = Vec::new();
            set.push((x, y));
            let ghost lists = members@;
            members.push(set);
            proof {
                assert forall|g: int| 0 <= g < lists.len() implies #[trigger] only_cell(members@, g) == only_cell(lists, g) by {}
                assert(only_cell(members@, lists.len() as int) == (x, y));
            }
            y += 1;
        }
        assert((x + 1) * height == x * height + height) by (nonlinear_arith);
        let ghost rows = group_of@;
        group_of.push(ids);
        proof {
            assert forall|cx: int, cy: int| 0 <= cx < x && 0 <= cy < height implies #[trigger] id_at(group_of@, cx, cy)
                == id_at(rows, cx, cy) by {}
            assert forall|cy: int| 0 <= cy < height implies #[trigger] id_at(group_of@, x as int, cy) == ids@[cy] by {}
            assert forall|g: int| 0 <= g < members@.len() implies ({
                let c = #[trigger] only_cell(members@, g);
                c.0 < x + 1 && c.1 < height && id_at(group_of@, c.0 as int, c.1 as int) == g
            }) by {
                let c = only_cell(members@, g);
                if c.0 < x {
                    assert(id_at(group_of@, c.0 as int, c.1 as int) == id_at(rows, c.0 as int, c.1 as int));
                } else {
                    assert(id_at(group_of@, x as int, c.1 as int) == ids@[c.1 as int]);
                }
            }
        }
        x += 1;
    }
    let sets = CellSets { width, height, group_of, members };
    proof {
        lemma_int_range(0, width * height);
        assert(sets.nonempty_groups() =~= set_int_range(0, width * height)) by {
            assert forall|g: int| 0 <= g < sets.members@.len() implies sets.listed(g).len() > 0 by {
                assert(sets.members@[g]@.len() == 1);
            }
        }
        assert forall|c: (usize, usize)| sets.has_cell(c) implies 0 <= #[trigger] sets.group(c) < sets.members@.len()
            && sets.listed(sets.group(c)) =~= seq![c] by {
            let g = id_at(sets.group_of@, c.0 as int, c.1 as int);
            assert(only_cell(sets.members@, g) == c);
        }
        assert forall|g: int, i: int| 0 <= g < sets.members@.len() && 0 <= i < sets.listed(g).len() implies ({
            &&& sets.has_cell(#[trigger] sets.listed(g)[i])
            &&& sets.group(sets.listed(g)[i]) == g
        }) by {
            let c = only_cell(sets.members@, g);
            assert(sets.members@[g]@.len() == 1);
        }
        assert forall|g: int| 0 <= g < sets.members@.len() implies (#[trigger] sets.listed(g)).no_duplicates() by {
            assert(sets.members@[g]@.len() == 1);
        }
        assert forall|c: (usize, usize)| sets.has_cell(c) implies sets.listed(#[trigger] sets.group(c)).contains(c) by {
            assert(sets.listed(sets.group(c)) == seq![c]);
            assert(seq![c][0] == c);
        }
        assert forall|a: (usize, usize), b: (usize, usize)| sets.has_cell(a) && sets.has_cell(b) implies (
        #[trigger] sets.joined(a, b) <==> a == b) by {
            assert(sets.listed(sets.group(a)) == seq![a]);
            assert(sets.listed(sets.group(b)) == seq![b]);
            if sets.joined(a, b) {
                assert(seq![a][0] == seq![b][0]);
            }
        }
    }
    sets
}

/// The number of walls between two cells of a `width` by `height` grid.
pub open spec fn interior_wall_count(width: int, height: int) -> int {
    width * (height - 1) + (width - 1) * height
}

proof fn lemma_push_contains(walls: Seq<Wall>, wall: Wall, pushed: Wall)
    ensures
        walls.contains(wall) ==> walls.push(pushed).contains(wall),
        walls.push(pushed).contains(pushed),
{
    if walls.contains(wall) {
        let i = choose|i: int| 0 <= i < walls.len() && walls[i] == wall;
        assert(walls.push(pushed)[i] == wall);
    }
    assert(walls.push(pushed)[walls.len() as int] == pushed);
}

/// Every wall between two cells of the grid, once: first those below a cell,
/// then those on the right of a cell, column by column.
fn ordered_walls(width: usize, height: usize) -> (walls: Vec<Wall>)
    requires
        1 < width < usize::MAX,
        1 < height < usize::MAX,
    ensures
        walls@.len() == interior_wall_count(width as int, height as int),
        forall|wall: Wall| walls@.contains(wall) <==> wall.is_interior(width as int, height as int),
        walls@.no_duplicates(),
{
    let mut walls: Vec<Wall> = Vec::new();
    let mut x: usize = 0;
    while x < width
        invariant
            1 < width,
            1 < height,
            x <= width,
            walls@.len() == x * (height - 1),
            walls@.no_duplicates(),
            forall|i: int| 0 <= i < walls@.len() ==> (#[trigger] walls@[i]).x < x,
            forall|i: int| 0 <= i < walls@.len() ==> (#[trigger] walls@[i]).dir == Direction::Down && walls@[i].is_interior(
                width as int,
                height as int,
            ),
            forall|wall: Wall|
                wall.dir == Direction::Down && wall.x < x && wall.y + 1 < height ==> #[trigger] walls@.contains(wall),
        decreases width - x,
    {
        let mut y: usize = 0;
        while y < height - 1
            invariant
                1 < height,
                x < width,
                y <= height - 1,
                walls@.len() == x * (height - 1) + y,
                walls@.no_duplicates(),
                forall|i: int| 0 <= i < walls@.len() ==> (#[trigger] walls@[i]).x < x || (walls@[i].x == x && walls@[i].y < y),
                forall|i: int| 0 <= i < walls@.len() ==> (#[trigger] walls@[i]).dir == Direction::Down
                    && walls@[i].is_interior(width as int, height as int),
                forall|wall: Wall|
                    wall.dir == Direction::Down && (wall.x < x || (wall.x == x && wall.y < y)) && wall.y + 1 < height
                        ==> #[trigger] walls@.contains(wall),
            decreases height - 1 - y,
        {
            let ghost before = walls@;
            let pushed = Wall { x, y, dir: Direction::Down };
            walls.push(pushed);
            proof {
                assert forall|wall: Wall|
                    wall.dir == Direction::Down && (wall.x < x || (wall.x == x && wall.y < y + 1)) && wall.y + 1
                        < height implies #[trigger] walls@.contains(wall) by {
                    lemma_push_contains(before, wall, pushed);
                }
            }
            y += 1;
        }
        assert((x + 1) * (height - 1) == x * (height - 1) + (height - 1)) by (nonlinear_arith);
        x += 1;
    }
    let ghost downs = walls@.len();
    let mut x: usize = 0;
    while x < width - 1
        invariant
            1 < width,
            1 < height,
            x <= width - 1,
            downs == width * (height - 1),
            walls@.len() == downs + x * height,
            walls@.no_duplicates(),
            forall|i: int| 0 <= i < walls@.len() ==> (#[trigger] walls@[i]).dir == Direction::Down || walls@[i].x < x,
            forall|i: int| 0 <= i < walls@.len() ==> (#[trigger] walls@[i]).is_interior(width as int, height as int),
            forall|wall: Wall|
                wall.dir == Direction::Down && wall.x < width && wall.y + 1 < height ==> #[trigger] walls@.contains(wall),
            forall|wall: Wall|
                wall.dir == Direction::Right && wall.x < x && wall.y < height ==> #[trigger] walls@.contains(wall),
        decreases width - 1 - x,
    {
        let mut y: usize = 0;
        while y < height
            invariant
                1 < width,
                x < width - 1,
                y <= height,
                walls@.len() == downs + x * height + y,
                walls@.no_duplicates(),
                forall|i: int| 0 <= i < walls@.len() ==> (#[trigger] walls@[i]).dir == Direction::Down || walls@[i].x < x || (
                walls@[i].x == x && walls@[i].y < y),
                forall|i: int| 0 <= i < walls@.len() ==> (#[trigger] walls@[i]).is_interior(width as int, height as int),
                forall|wall: Wall|
                    wall.dir == Direction::Down && wall.x < width && wall.y + 1 < height ==> #[trigger] walls@.contains(
                        wall,
                    ),
                forall|wall: Wall|
                    wall.dir == Direction::Right && (wall.x < x || (wall.x == x && wall.y < y)) && wall.y < height
                        ==> #[trigger] walls@.contains(wall),
            decreases height - y,
        {
            let ghost before = walls@;
            let pushed = Wall { x, y, dir: Direction::Right };
            walls.push(pushed);
            proof {
                assert forall|wall: Wall|
                    wall.dir == Direction::Down && wall.x < width && wall.y + 1 < height implies #[trigger] walls@.contains(
                    wall,
                ) by {
                    lemma_push_contains(before, wall, pushed);
                }
                assert forall|wall: Wall|
                    wall.dir == Direction::Right && (wall.x < x || (wall.x == x && wall.y < y + 1)) && wall.y
                        < height implies #[trigger] walls@.contains(wall) by {
                    lemma_push_contains(before, wall, pushed);
                }
            }
            y += 1;
        }
        assert((x + 1) * height == x * height + height) by (nonlinear_arith);
        x += 1;
    }
    proof {
        assert forall|wall: Wall| walls@.contains(wall) implies wall.is_interior(width as int, height as int) by {
            let i = choose|i: int| 0 <= i < walls@.len() && walls@[i] == wall;
            assert(walls@[i].is_interior(width as int, height as int));
        }
    }
    walls
}

/// Every wall between two cells of the grid, once, in random order.
pub fn create_walls(width: usize, height: usize) -> (walls: Vec<Wall>)
    requires
        1 < width < usize::MAX,
        1 < height < usize::MAX,
    ensures
        walls@.len() == interior_wall_count(width as int, height as int),
        forall|wall: Wall| walls@.contains(wall) <==> wall.is_interior(width as int, height as int),
        walls@.no_duplicates(),
{
    let mut walls = ordered_walls(width, height);
    let ghost ordered = walls@;
    shuffle(&mut walls);
    proof {
        ordered.to_multiset_ensures();
        walls@.to_multiset_ensures();
        ordered.lemma_multiset_has_no_duplicates();
        walls@.lemma_multiset_has_no_duplicates_conv();
        assert forall|wall: Wall| walls@.contains(wall) <==> wall.is_interior(width as int, height as int) by {
            assert(walls@.contains(wall) <==> walls@.to_multiset().count(wall) > 0);
            assert(ordered.contains(wall) <==> ordered.to_multiset().count(wall) > 0);
        }
    }
    walls
}


/// The two cells that the wall `wall` separates: the one it is addressed from
/// and the one beyond.
pub open spec fn endpoints(wall: Wall) -> ((usize, usize), (usize, usize)) {
    (wall.near_cell(), (wall.far_cell().0 as usize, wall.far_cell().1 as usize))
}

/// Whether every wall of `walls` stands between two cells of the grid.
pub open spec fn are_interior(walls: Seq<Wall>, width: int, height: int) -> bool {
    forall|i: int| 0 <= i < walls.len() ==> (#[trigger] walls[i]).is_interior(width, height)
}

/// Whether every wall between two cells of the grid is one of `walls` or has
/// its two cells in one set.
pub open spec fn are_accounted_for(walls: Seq<Wall>, sets: CellSets, width: int, height: int) -> bool {
    forall|wall: Wall|
        wall.is_interior(width, height) ==> walls.contains(wall) || #[trigger] sets.joined(
            endpoints(wall).0,
            endpoints(wall).1,
        )
}

/// Kruskal's algorithm: takes the walls between cells in random order and
/// removes each one that separates two sets of cells, joining the sets.
pub struct KruskalsGenerator {
    width: usize,
    height: usize,
    sets: CellSets,
    walls: Vec<Wall>,
}

impl KruskalsGenerator {
    /// The walls that have not been looked at, the next one last.
    pub closed spec fn remaining(&self) -> Seq<Wall> {
        self.walls@
    }

    /// The division of the cells into sets of connected cells.
    pub closed spec fn cell_sets(&self) -> CellSets {
        self.sets
    }

    pub closed spec fn grid_width(&self) -> int {
        self.width as int
    }

    pub closed spec fn grid_height(&self) -> int {
        self.height as int
    }

    /// Whether the cells on the two sides of `wall` are in one set.
    pub open spec fn bridged(&self, wall: Wall) -> bool {
        self.cell_sets().joined(endpoints(wall).0, endpoints(wall).1)
    }

    /// The sets divide the cells of the grid, and every remaining wall stands
    /// between two cells.
    pub open spec fn consistent(&self) -> bool {
        &&& self.cell_sets().wf()
        &&& self.cell_sets().spec_width() == self.grid_width()
        &&& self.cell_sets().spec_height() == self.grid_height()
        &&& are_interior(self.remaining(), self.grid_width(), self.grid_height())
    }

    /// Beyond `consistent`: every wall between two cells either remains to be
    /// looked at or has its two cells in one set.
    pub open spec fn inv(&self) -> bool {
        &&& self.consistent()
        &&& are_accounted_for(self.remaining(), self.cell_sets(), self.grid_width(), self.grid_height())
    }

    /// This state is `before` after the walls above place `k` were passed over
    /// and the wall at place `k` was removed.
    pub open spec fn emitted_from(&self, before: &Self, k: int, wall: Wall) -> bool {
        &&& 0 <= k < before.remaining().len()
        &&& wall == before.remaining()[k]
        &&& self.remaining() == before.remaining().take(k)
        &&& !before.bridged(wall)
        &&& forall|i: int| k < i < before.remaining().len() ==> before.bridged(#[trigger] before.remaining()[i])
        &&& forall|c: (usize, usize)| before.cell_sets().has_cell(c) ==> #[trigger] self.cell_sets().group(c) == (
        if before.cell_sets().joined(c, endpoints(wall).0) {
            before.cell_sets().group(endpoints(wall).1)
        } else {
            before.cell_sets().group(c)
        })
        &&& self.cell_sets().set_count() + 1 == before.cell_sets().set_count()
    }

    /// A generator for a grid of `width` by `height` cells: every cell is a set
    /// of its own and every wall between two cells remains.
    pub fn new(width: usize, height: usize) -> (generator: KruskalsGenerator)
        requires
            1 < width < usize::MAX,
            1 < height < usize::MAX,
        ensures
            generator.inv(),
            generator.grid_width() == width,
            generator.grid_height() == height,
            generator.remaining().len() == interior_wall_count(width as int, height as int),
            generator.remaining().no_duplicates(),
            forall|wall: Wall| generator.remaining().contains(wall) <==> wall.is_interior(width as int, height as int),
            generator.cell_sets().set_count() == width * height,
            forall|a: (usize, usize), b: (usize, usize)|
                a.0 < width && a.1 < height && b.0 < width && b.1 < height ==> (#[trigger] generator.cell_sets().joined(a, b)
                    <==> a == b),
    {
        let sets = create_sets(width, height);
        let walls = create_walls(width, height);
        let generator = KruskalsGenerator { width, height, sets, walls };
        proof {
            let walls = generator.walls@;
            assert forall|i: int| 0 <= i < walls.len() implies (#[trigger] walls[i]).is_interior(
                width as int,
                height as int,
            ) by {
                assert(walls.contains(walls[i]));
            }
        }
        generator
    }

    /// Runs the algorithm to its end on a fully walled maze of `width` by
    /// `height` cells and returns the maze: it is perfect, with one open wall
    /// less than it has cells.
    pub fn generate(width: usize, height: usize) -> (maze: Maze)
        requires
            1 < width < usize::MAX,
            1 < height < usize::MAX,
        ensures
            maze.wf(),
            maze.spec_width() == width,
            maze.spec_height() == height,
            is_perfect(&maze),
            open_walls(&maze).len() == width * height - 1,
            maze.has_edges(),
    {
        let mut generator = KruskalsGenerator::new(width, height);
        let mut maze = generator.initial_maze();
        proof {
            generator.lemma_single_cells_connected(&maze);
            generator.lemma_start_carved(&maze);
            generator.lemma_start_forest(&maze);
        }
        loop
            invariant
                generator.inv(),
                generator.grid_width() == width,
                generator.grid_height() == height,
                generator.sets_connected_in(&maze),
                generator.carved_in(&maze),
                generator.is_forest_of(&maze),
                maze.has_edges(),
            decreases generator.remaining().len(),
        {
            let ghost before = generator;
            let ghost maze_before = maze;
            match generator.next() {
                Some((wall, on)) => {
                    maze.set_wall(&wall, on);
                    proof {
                        let k = choose|k: int| #[trigger] generator.emitted_from(&before, k, wall);
                        assert(before.remaining()[k].is_interior(width as int, height as int));
                        maze.lemma_interior_edit_keeps_edges(&maze_before, wall, on);
                        generator.lemma_emission_keeps_sets_connected(&before, k, wall, &maze_before, &maze);
                        generator.lemma_emission_counts(&before, k, wall, &maze_before, &maze);
                        generator.lemma_emission_keeps_forest(&before, k, wall, &maze_before, &maze);
                    }
                },
                None => {
                    proof {
                        generator.lemma_exhausted_is_perfect(&maze);
                        generator.lemma_exhausted_counts(&maze);
                    }
                    return maze;
                },
            }
        }
    }

    /// The two cells that `wall` separates.
    pub fn get_cells(&self, wall: &Wall) -> (cells: ((usize, usize), (usize, usize)))
        requires
            wall.is_interior(self.grid_width(), self.grid_height()),
        ensures
            cells == endpoints(*wall),
    {
        match wall.dir {
            Direction::Down => ((wall.x, wall.y), (wall.x, wall.y + 1)),
            _ => ((wall.x, wall.y), (wall.x + 1, wall.y)),
        }
    }

    /// Joins the sets on the two sides of `wall`, if they are two; says whether
    /// the wall is to be removed.
    pub fn try_remove(&mut self, wall: &Wall) -> (removed: bool)
        requires
            old(self).consistent(),
            wall.is_interior(old(self).grid_width(), old(self).grid_height()),
        ensures
            final(self).consistent(),
            final(self).grid_width() == old(self).grid_width(),
            final(self).grid_height() == old(self).grid_height(),
            final(self).remaining() == old(self).remaining(),
            removed == !old(self).bridged(*wall),
            final(self).bridged(*wall),
            !removed ==> final(self).cell_sets() == old(self).cell_sets(),
            removed ==> forall|c: (usize, usize)| old(self).cell_sets().has_cell(c) ==> #[trigger] final(self).cell_sets().group(c)
                == (if old(self).cell_sets().joined(c, endpoints(*wall).0) {
                old(self).cell_sets().group(endpoints(*wall).1)
            } else {
                old(self).cell_sets().group(c)
            }),
            removed ==> final(self).cell_sets().set_count() + 1 == old(self).cell_sets().set_count(),
    {
        let (cell1, cell2) = self.get_cells(wall);
        if self.sets.same_set(cell1, cell2) {
            return false;
        }
        self.sets.merge(cell1, cell2);
        proof {
            assert(self.sets.group(cell1) == old(self).sets.group(cell2));
            assert(self.sets.group(cell2) == old(self).sets.group(cell2));
        }
        true
    }

    /// Whether `maze` has the generator's dimensions and connects any two
    /// cells that are in one set.
    pub open spec fn sets_connected_in(&self, maze: &Maze) -> bool {
        &&& maze.wf()
        &&& maze.spec_width() == self.grid_width()
        &&& maze.spec_height() == self.grid_height()
        &&& forall|a: (usize, usize), b: (usize, usize)|
            self.cell_sets().has_cell(a) && self.cell_sets().has_cell(b) && #[trigger] self.cell_sets().joined(a, b)
                ==> connected(maze, a, b)
    }

    /// While every cell is a set of its own, any maze of the generator's size
    /// connects the cells of each set.
    pub proof fn lemma_single_cells_connected(&self, maze: &Maze)
        requires
            self.inv(),
            maze.wf(),
            maze.spec_width() == self.grid_width(),
            maze.spec_height() == self.grid_height(),
            forall|a: (usize, usize), b: (usize, usize)|
                self.cell_sets().has_cell(a) && self.cell_sets().has_cell(b) ==> (#[trigger] self.cell_sets().joined(a, b)
                    <==> a == b),
        ensures
            self.sets_connected_in(maze),
    {
        assert forall|a: (usize, usize), b: (usize, usize)|
            self.cell_sets().has_cell(a) && self.cell_sets().has_cell(b) && #[trigger] self.cell_sets().joined(
                a,
                b,
            ) implies connected(maze, a, b) by {
            lemma_connected_reflexive(maze, a);
        }
    }

    /// If the maze connected the cells of each set before a wall was emitted,
    /// then the maze with that wall removed connects the cells of each set
    /// after it.
    pub proof fn lemma_emission_keeps_sets_connected(
        &self,
        before: &Self,
        k: int,
        wall: Wall,
        maze_before: &Maze,
        maze_after: &Maze,
    )
        requires
            before.inv(),
            self.consistent(),
            self.grid_width() == before.grid_width(),
            self.grid_height() == before.grid_height(),
            self.emitted_from(before, k, wall),
            before.sets_connected_in(maze_before),
            maze_after.is_edit_of(maze_before, wall, false),
        ensures
            self.sets_connected_in(maze_after),
    {
        let near = endpoints(wall).0;
        let far = endpoints(wall).1;
        assert(before.remaining()[k].is_interior(before.grid_width(), before.grid_height()));
        lemma_opened_wall_connects(maze_before, maze_after, wall, far);
        assert forall|a: (usize, usize), b: (usize, usize)|
            self.cell_sets().has_cell(a) && self.cell_sets().has_cell(b) && #[trigger] self.cell_sets().joined(
                a,
                b,
            ) implies connected(maze_after, a, b) by {
            let sets = before.cell_sets();
            assert(sets.has_cell(a) && sets.has_cell(b) && sets.has_cell(near) && sets.has_cell(far));
            if sets.joined(a, near) && sets.joined(b, near) {
                assert(sets.joined(a, b));
                lemma_opening_keeps_connected(maze_before, maze_after, wall, a, b);
            } else if sets.joined(a, near) {
                assert(sets.joined(far, b));
                lemma_opening_keeps_connected(maze_before, maze_after, wall, a, near);
                lemma_opening_keeps_connected(maze_before, maze_after, wall, far, b);
                lemma_connected_transitive(maze_after, a, near, far);
                lemma_connected_transitive(maze_after, a, far, b);
            } else if sets.joined(b, near) {
                assert(sets.joined(a, far));
                assert(sets.joined(near, b));
                lemma_opening_keeps_connected(maze_before, maze_after, wall, a, far);
                lemma_opening_keeps_connected(maze_before, maze_after, wall, near, b);
                lemma_connected_transitive(maze_after, a, far, near);
                lemma_connected_transitive(maze_after, a, near, b);
            } else {
                assert(sets.joined(a, b));
                lemma_opening_keeps_connected(maze_before, maze_after, wall, a, b);
            }
        }
    }

    /// Once no wall remains, a maze that connects the cells of each set is
    /// fully connected.
    pub proof fn lemma_exhausted_fully_connected(&self, maze: &Maze)
        requires
            self.inv(),
            self.remaining().len() == 0,
            self.sets_connected_in(maze),
        ensures
            fully_connected(maze),
    {
        assert forall|a: (usize, usize), b: (usize, usize)|
            maze.has_cell(a.0 as int, a.1 as int) && maze.has_cell(b.0 as int, b.1 as int) implies #[trigger] connected(
            maze,
            a,
            b,
        ) by {
            self.lemma_one_set_when_exhausted(a, b);
        }
    }

    /// Whether `maze` has the generator's dimensions, has as many open walls
    /// as sets were joined, and still has every remaining wall that separates
    /// two sets.
    pub open spec fn carved_in(&self, maze: &Maze) -> bool {
        &&& maze.wf()
        &&& maze.spec_width() == self.grid_width()
        &&& maze.spec_height() == self.grid_height()
        &&& open_walls(maze).finite()
        &&& open_walls(maze).len() + self.cell_sets().set_count() == self.grid_width() * self.grid_height()
        &&& forall|i: int| 0 <= i < self.remaining().len() && !self.bridged(#[trigger] self.remaining()[i])
            ==> maze.has_wall(self.remaining()[i])
    }

    /// While every cell is a set of its own, a maze with a wall between any
    /// two cells has no open wall and every remaining wall.
    pub proof fn lemma_start_carved(&self, maze: &Maze)
        requires
            self.inv(),
            self.cell_sets().set_count() == self.grid_width() * self.grid_height(),
            maze.wf(),
            maze.spec_width() == self.grid_width(),
            maze.spec_height() == self.grid_height(),
            forall|slot: Slot| maze.has_slot(slot) && !maze.is_perimeter(slot) ==> #[trigger] maze.slot_state(slot),
        ensures
            self.carved_in(maze),
    {
        lemma_walled_maze_has_no_open_walls(maze);
        assert forall|i: int| 0 <= i < self.remaining().len() implies maze.has_wall(#[trigger] self.remaining()[i]) by {
            let wall = self.remaining()[i];
            assert(wall.is_interior(self.grid_width(), self.grid_height()));
            assert(maze.has_slot(wall.slot()) && !maze.is_perimeter(wall.slot()));
        }
    }

    /// Emitting a wall removes, in the maze, one wall that stood, as it joins
    /// two sets into one.
    pub proof fn lemma_emission_counts(&self, before: &Self, k: int, wall: Wall, maze_before: &Maze, maze_after: &Maze)
        requires
            before.inv(),
            self.consistent(),
            self.grid_width() == before.grid_width(),
            self.grid_height() == before.grid_height(),
            self.emitted_from(before, k, wall),
            before.carved_in(maze_before),
            maze_after.is_edit_of(maze_before, wall, false),
        ensures
            self.carved_in(maze_after),
    {
        let near = endpoints(wall).0;
        let far = endpoints(wall).1;
        assert(before.remaining()[k].is_interior(before.grid_width(), before.grid_height()));
        assert(before.cell_sets().has_cell(near) && before.cell_sets().has_cell(far));
        assert(maze_before.has_wall(wall));
        lemma_opening_adds_one_open_wall(maze_before, maze_after, wall);
        assert(self.bridged(wall));
        assert forall|i: int| 0 <= i < self.remaining().len() && !self.bridged(#[trigger] self.remaining()[i]) implies maze_after.has_wall(
            self.remaining()[i],
        ) by {
            let other = self.remaining()[i];
            assert(other == before.remaining()[i]);
            assert(other.is_interior(before.grid_width(), before.grid_height()));
            assert(before.cell_sets().has_cell(endpoints(other).0) && before.cell_sets().has_cell(endpoints(other).1));
            assert(!before.bridged(other));
            assert(maze_before.has_wall(other));
            assert(other.slot() != wall.slot());
            maze_before.lemma_cell_walls_have_slots(other);
        }
    }

    /// Once no wall remains, a maze that has as many open walls as sets were
    /// joined has one open wall less than it has cells.
    pub proof fn lemma_exhausted_counts(&self, maze: &Maze)
        requires
            self.inv(),
            self.remaining().len() == 0,
            self.carved_in(maze),
        ensures
            self.cell_sets().set_count() == 1,
            open_walls(maze).len() == self.grid_width() * self.grid_height() - 1,
    {
        assert forall|a: (usize, usize), b: (usize, usize)|
            self.cell_sets().has_cell(a) && self.cell_sets().has_cell(b) implies #[trigger] self.cell_sets().joined(a, b) by {
            self.lemma_one_set_when_exhausted(a, b);
        }
        self.cell_sets().lemma_all_joined_is_one_set();
    }

    /// Whether `maze` has the generator's dimensions, has at most one simple
    /// path between any two cells, and connects only cells of one set.
    pub open spec fn is_forest_of(&self, maze: &Maze) -> bool {
        &&& maze.wf()
        &&& maze.spec_width() == self.grid_width()
        &&& maze.spec_height() == self.grid_height()
        &&& unique_simple_paths(maze)
        &&& forall|a: (usize, usize), b: (usize, usize)|
            self.cell_sets().has_cell(a) && self.cell_sets().has_cell(b) && #[trigger] connected(maze, a, b)
                ==> self.cell_sets().joined(a, b)
    }

    /// A maze with a wall between any two cells is a forest of single cells.
    pub proof fn lemma_start_forest(&self, maze: &Maze)
        requires
            self.inv(),
            maze.wf(),
            maze.spec_width() == self.grid_width(),
            maze.spec_height() == self.grid_height(),
            forall|slot: Slot| maze.has_slot(slot) && !maze.is_perimeter(slot) ==> #[trigger] maze.slot_state(slot),
        ensures
            self.is_forest_of(maze),
    {
        lemma_walled_maze_is_forest(maze);
    }

    /// The wall that is emitted stands between two cells that the maze does
    /// not connect, so that its removal closes no cycle; and after it the maze
    /// still connects only cells of one set.
    pub proof fn lemma_emission_keeps_forest(&self, before: &Self, k: int, wall: Wall, maze_before: &Maze, maze_after: &Maze)
        requires
            before.inv(),
            self.consistent(),
            self.grid_width() == before.grid_width(),
            self.grid_height() == before.grid_height(),
            self.emitted_from(before, k, wall),
            before.is_forest_of(maze_before),
            maze_after.is_edit_of(maze_before, wall, false),
        ensures
            !connected(maze_before, endpoints(wall).0, endpoints(wall).1),
            self.is_forest_of(maze_after),
    {
        let near = endpoints(wall).0;
        let far = endpoints(wall).1;
        let sets = before.cell_sets();
        assert(before.remaining()[k].is_interior(before.grid_width(), before.grid_height()));
        assert(sets.has_cell(near) && sets.has_cell(far));
        assert(is_opening(maze_before, maze_after, wall, far));
        lemma_bridge_keeps_simple_paths_unique(maze_before, maze_after, wall, far);
        assert forall|a: (usize, usize), b: (usize, usize)|
            self.cell_sets().has_cell(a) && self.cell_sets().has_cell(b) && #[trigger] connected(
                maze_after,
                a,
                b,
            ) implies self.cell_sets().joined(a, b) by {
            lemma_connected_after_opening(maze_before, maze_after, wall, far, a, b);
            assert(sets.has_cell(a) && sets.has_cell(b));
            if connected(maze_before, a, b) {
                assert(sets.joined(a, b));
            } else if connected(maze_before, a, near) && connected(maze_before, far, b) {
                assert(sets.joined(a, near) && sets.joined(far, b));
            } else {
                assert(sets.joined(a, far) && sets.joined(near, b));
            }
        }
    }

    /// Once no wall remains, a maze that the generator's edits have carved
    /// from a fully walled one is perfect: fully connected, with one simple
    /// path between any two cells.
    pub proof fn lemma_exhausted_is_perfect(&self, maze: &Maze)
        requires
            self.inv(),
            self.remaining().len() == 0,
            self.sets_connected_in(maze),
            self.is_forest_of(maze),
        ensures
            is_perfect(maze),
    {
        self.lemma_exhausted_fully_connected(maze);
    }

    /// Once no wall remains, all cells are in one set.
    pub proof fn lemma_one_set_when_exhausted(&self, a: (usize, usize), b: (usize, usize))
        requires
            self.inv(),
            self.remaining().len() == 0,
            self.cell_sets().has_cell(a),
            self.cell_sets().has_cell(b),
        ensures
            self.cell_sets().joined(a, b),
    {
        self.lemma_joined_with_corner(a.0, a.1);
        self.lemma_joined_with_corner(b.0, b.1);
    }

    proof fn lemma_joined_with_corner(&self, x: usize, y: usize)
        requires
            self.inv(),
            self.remaining().len() == 0,
            self.cell_sets().has_cell((x, y)),
        ensures
            self.cell_sets().joined((x, y), (0, 0)),
        decreases x + y,
    {
        if y > 0 {
            let wall = Wall { x, y: (y - 1) as usize, dir: Direction::Down };
            assert(wall.is_interior(self.grid_width(), self.grid_height()));
            assert(self.bridged(wall));
            assert(!self.remaining().contains(wall));
            assert(endpoints(wall).1 == (x, y));
            self.lemma_joined_with_corner(x, (y - 1) as usize);
        } else if x > 0 {
            let wall = Wall { x: (x - 1) as usize, y, dir: Direction::Right };
            assert(wall.is_interior(self.grid_width(), self.grid_height()));
            assert(self.bridged(wall));
            assert(!self.remaining().contains(wall));
            assert(endpoints(wall).1 == (x, y));
            self.lemma_joined_with_corner((x - 1) as usize, y);
        }
    }
}

impl MazeGenerator for KruskalsGenerator {
    open spec fn wf(&self) -> bool {
        self.inv()
    }

    open spec fn spec_width(&self) -> int {
        self.grid_width()
    }

    open spec fn spec_height(&self) -> int {
        self.grid_height()
    }

    open spec fn handed_out(&self, before: &Self, edit: Option<(Wall, bool)>) -> bool {
        match edit {
            Some((wall, on)) => !on && exists|k: int| #[trigger] self.emitted_from(before, k, wall),
            None => {
                &&& self.remaining().len() == 0
                &&& self.cell_sets() == before.cell_sets()
                &&& forall|i: int| 0 <= i < before.remaining().len() ==> before.bridged(#[trigger] before.remaining()[i])
            },
        }
    }

    open spec fn exhausted(&self) -> bool {
        forall|i: int| 0 <= i < self.remaining().len() ==> self.bridged(#[trigger] self.remaining()[i])
    }

    open spec fn carves(&self) -> bool {
        true
    }

    fn width(&self) -> (width: usize) {
        self.width
    }

    fn height(&self) -> (height: usize) {
        self.height
    }

    fn initial_maze(&self) -> (maze: Maze)
        ensures
            maze.is_walled(),
            maze.has_edges(),
    {
        proof {
            self.sets.lemma_dimensions();
        }
        Maze::new_with_edges(self.width, self.height, true)
    }

    fn name(&self) -> (name: String)
        ensures
            name@ == "Kruskal's Algorithm"@,
    {
        "Kruskal's Algorithm".to_string()
    }

    /// Takes walls off the remaining ones, the last one first, until one
    /// separates two sets: that wall is removed and the two sets are joined.
    /// A wall with one set on both sides is passed over.
    fn next(&mut self) -> (edit: Option<(Wall, bool)>)
        ensures
            edit.is_none() ==> {
                &&& final(self).remaining().len() == 0
                &&& final(self).cell_sets() == old(self).cell_sets()
                &&& forall|i: int| 0 <= i < old(self).remaining().len() ==> old(self).bridged(#[trigger] old(self).remaining()[i])
            },
            edit.is_some() ==> {
                &&& !edit.unwrap().1
                &&& exists|k: int| #[trigger] final(self).emitted_from(old(self), k, edit.unwrap().0)
            },
    {
        loop
            invariant
                self.inv(),
                self.width == old(self).width,
                self.height == old(self).height,
                self.sets == old(self).sets,
                self.walls@.len() <= old(self).walls@.len(),
                self.walls@ == old(self).walls@.take(self.walls@.len() as int),
                forall|i: int| self.walls@.len() <= i < old(self).walls@.len() ==> old(self).bridged(#[trigger] old(self).walls@[i]),
            decreases self.walls@.len(),
        {
            let ghost before = *self;
            let wall = match self.walls.pop() {
                Some(wall) => wall,
                None => {
                    return None;
                },
            };
            let ghost k = self.walls@.len() as int;
            assert(before.walls@[k] == wall);
            assert(old(self).walls@[k] == wall);
            assert(self.walls@ =~= old(self).walls@.take(k));
            assert(self.consistent());
            let removed = self.try_remove(&wall);
            proof {
                assert forall|other: Wall| other.is_interior(self.grid_width(), self.grid_height()) implies self.walls@.contains(
                    other,
                ) || #[trigger] self.sets.joined(endpoints(other).0, endpoints(other).1) by {
                    if other != wall {
                        if before.walls@.contains(other) {
                            let i = choose|i: int| 0 <= i < before.walls@.len() && before.walls@[i] == other;
                            assert(self.walls@[i] == other);
                        } else {
                            assert(before.sets.joined(endpoints(other).0, endpoints(other).1));
                        }
                    }
                }
            }
            if removed {
                assert(self.emitted_from(old(self), k, wall));
                return Some((wall, false));
            }
        }
    }
}

} // verus!
