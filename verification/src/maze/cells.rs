use vstd::prelude::*;
use vstd::set_lib::lemma_set_disjoint_lens;
use crate::maze::wall::Slot;

verus! {

/// The cells of a `width` by `height` grid.
pub open spec fn grid_cells(width: int, height: int) -> Set<(usize, usize)> {
    Set::new(|cell: (usize, usize)| cell.0 < width && cell.1 < height)
}

/// The first `height` cells of the column `x`.
pub open spec fn column_cells(x: usize, height: int) -> Set<(usize, usize)> {
    Set::new(|cell: (usize, usize)| cell.0 == x && cell.1 < height)
}

/// A column of `height` cells has `height` cells.
pub proof fn lemma_column_cells_count(x: usize, height: int)
    requires
        0 <= height <= usize::MAX,
    ensures
        column_cells(x, height).finite(),
        column_cells(x, height).len() == height,
    decreases height,
{
    if height == 0 {
        assert(column_cells(x, height) =~= Set::<(usize, usize)>::empty());
    } else {
        lemma_column_cells_count(x, height - 1);
        assert(column_cells(x, height) =~= column_cells(x, height - 1).insert((x, (height - 1) as usize)));
    }
}

/// A grid of `width` by `height` cells has `width * height` cells.
pub proof fn lemma_grid_cells_count(width: int, height: int)
    requires
        0 <= width <= usize::MAX,
        0 <= height <= usize::MAX,
    ensures
        grid_cells(width, height).finite(),
        grid_cells(width, height).len() == width * height,
    decreases width,
{
    if width == 0 {
        assert(grid_cells(width, height) =~= Set::<(usize, usize)>::empty());
        assert(width * height == 0) by (nonlinear_arith)
            requires
                width == 0,
        ;
    } else {
        let column = column_cells((width - 1) as usize, height);
        lemma_grid_cells_count(width - 1, height);
        lemma_column_cells_count((width - 1) as usize, height);
        assert(grid_cells(width, height) =~= grid_cells(width - 1, height) + column);
        assert(grid_cells(width - 1, height).disjoint(column));
        lemma_set_disjoint_lens(grid_cells(width - 1, height), column);
        assert((width - 1) * height + height == width * height) by (nonlinear_arith);
    }
}


/// The slots of one kind in the columns below `columns` and the rows below
/// `rows`, but for those of the first `skip_columns` columns and the first
/// `skip_rows` rows.
pub open spec fn slot_block(vertical: bool, skip_columns: int, columns: int, skip_rows: int, rows: int) -> Set<Slot> {
    Set::new(
        |slot: Slot| slot.vertical == vertical && skip_columns <= slot.col < columns && skip_rows <= slot.row < rows,
    )
}

/// A block of slots within one column has as many slots as rows.
pub proof fn lemma_slot_column_count(vertical: bool, column: int, skip_rows: int, rows: int)
    requires
        skip_rows <= rows,
    ensures
        slot_block(vertical, column, column + 1, skip_rows, rows).finite(),
        slot_block(vertical, column, column + 1, skip_rows, rows).len() == rows - skip_rows,
    decreases rows - skip_rows,
{
    if rows == skip_rows {
        assert(slot_block(vertical, column, column + 1, skip_rows, rows) =~= Set::<Slot>::empty());
    } else {
        lemma_slot_column_count(vertical, column, skip_rows, rows - 1);
        assert(slot_block(vertical, column, column + 1, skip_rows, rows) =~= slot_block(
            vertical,
            column,
            column + 1,
            skip_rows,
            rows - 1,
        ).insert(Slot { vertical, col: column, row: rows - 1 }));
    }
}

/// A block of slots has as many slots as its columns times its rows.
pub proof fn lemma_slot_block_count(vertical: bool, skip_columns: int, columns: int, skip_rows: int, rows: int)
    requires
        skip_columns <= columns,
        skip_rows <= rows,
    ensures
        slot_block(vertical, skip_columns, columns, skip_rows, rows).finite(),
        slot_block(vertical, skip_columns, columns, skip_rows, rows).len() == (columns - skip_columns) * (rows - skip_rows),
    decreases columns - skip_columns,
{
    if columns == skip_columns {
        assert(slot_block(vertical, skip_columns, columns, skip_rows, rows) =~= Set::<Slot>::empty());
        assert((columns - skip_columns) * (rows - skip_rows) == 0) by (nonlinear_arith)
            requires
                columns - skip_columns == 0,
        ;
    } else {
        let most = slot_block(vertical, skip_columns, columns - 1, skip_rows, rows);
        let last = slot_block(vertical, columns - 1, columns, skip_rows, rows);
        lemma_slot_block_count(vertical, skip_columns, columns - 1, skip_rows, rows);
        lemma_slot_column_count(vertical, columns - 1, skip_rows, rows);
        assert(slot_block(vertical, skip_columns, columns, skip_rows, rows) =~= most + last);
        assert(most.disjoint(last));
        lemma_set_disjoint_lens(most, last);
        assert((columns - 1 - skip_columns) * (rows - skip_rows) + (rows - skip_rows) == (columns - skip_columns) * (rows
            - skip_rows)) by (nonlinear_arith);
    }
}

/// The slots between two cells of a `width` by `height` grid.
pub open spec fn interior_slots(width: int, height: int) -> Set<Slot> {
    slot_block(true, 1, width, 0, height) + slot_block(false, 0, width, 1, height)
}

/// A `width` by `height` grid has `(width - 1) * height + width * (height - 1)`
/// slots between two cells.
pub proof fn lemma_interior_slots_count(width: int, height: int)
    requires
        1 <= width,
        1 <= height,
    ensures
        interior_slots(width, height).finite(),
        interior_slots(width, height).len() == (width - 1) * height + width * (height - 1),
{
    let upright = slot_block(true, 1, width, 0, height);
    let level = slot_block(false, 0, width, 1, height);
    lemma_slot_block_count(true, 1, width, 0, height);
    lemma_slot_block_count(false, 0, width, 1, height);
    assert(upright.disjoint(level));
    lemma_set_disjoint_lens(upright, level);
}

} // verus!
