//! Topology of the triangular grid.
//!
//! Cells are stored row by row in one linear sequence. Rows alternate in
//! width: even rows (0, 2, ..) hold `columns` cells, odd rows hold
//! `columns + 1` cells and are shifted half a cell to the left. Every cell
//! has up to six neighbours, in the order NW, NE, E, SE, SW, W.
use vstd::arithmetic::div_mod::{
    lemma_fundamental_div_mod, lemma_fundamental_div_mod_converse, lemma_mod_bound,
};
use vstd::prelude::*;

verus! {

/// Direction numbers, in the order in which neighbours are reported.
pub const NORTH_WEST: usize = 0;

pub const NORTH_EAST: usize = 1;

pub const EAST: usize = 2;

pub const SOUTH_EAST: usize = 3;

pub const SOUTH_WEST: usize = 4;

pub const WEST: usize = 5;

/// Number of cells of a grid with `rows` rows whose even rows have `columns` cells.
pub open spec fn size_spec(columns: int, rows: int) -> int {
    columns * rows + rows / 2
}

/// Number of cells in two consecutive rows.
pub open spec fn period(columns: int) -> int {
    2 * columns + 1
}

/// A grid the library can address: it has a cell, and twice its size fits a `usize`.
pub open spec fn valid_grid(columns: usize, rows: usize) -> bool {
    &&& columns >= 1
    &&& rows >= 1
    &&& 2 * size_spec(columns as int, rows as int) < usize::MAX
}

/// Row of the cell with linear index `index`.
pub open spec fn row_of(columns: int, index: int) -> int {
    if index % period(columns) < columns {
        2 * (index / period(columns))
    } else {
        2 * (index / period(columns)) + 1
    }
}

/// Column of the cell with linear index `index` within its row.
pub open spec fn column_of(columns: int, index: int) -> int {
    if index % period(columns) < columns {
        index % period(columns)
    } else {
        index % period(columns) - columns
    }
}

/// Number of cells in row `row`.
pub open spec fn row_width(columns: int, row: int) -> int {
    if row % 2 == 0 {
        columns
    } else {
        columns + 1
    }
}

/// Linear index of the first cell of row `row`.
pub open spec fn row_start(columns: int, row: int) -> int {
    (row / 2) * period(columns) + if row % 2 == 0 {
        0
    } else {
        columns
    }
}

/// Linear index of the cell at (`row`, `column`).
pub open spec fn cell_index(columns: int, row: int, column: int) -> int {
    row_start(columns, row) + column
}

/// Whether (`row`, `column`) names a cell of the grid.
pub open spec fn in_grid(columns: int, rows: int, row: int, column: int) -> bool {
    0 <= row < rows && 0 <= column < row_width(columns, row)
}

/// Change of row when stepping in direction `direction`.
pub open spec fn row_step(direction: int) -> int {
    if direction == 0 || direction == 1 {
        -1
    } else if direction == 3 || direction == 4 {
        1
    } else {
        0
    }
}

/// Change of column when stepping in direction `direction` from a cell in row `row`.
///
/// Odd rows are shifted half a cell to the left, so the diagonal steps
/// depend on the parity of the row that is left.
pub open spec fn column_step(direction: int, row: int) -> int {
    if direction == 2 {
        1
    } else if direction == 5 {
        -1
    } else if row % 2 == 0 {
        if direction == 1 || direction == 3 {
            1
        } else {
            0
        }
    } else {
        if direction == 0 || direction == 4 {
            -1
        } else {
            0
        }
    }
}

/// The neighbour of cell `index` in direction `direction`, if the grid has one.
///
/// The neighbour is the cell one geometric step away; it is absent exactly
/// when that step leaves the grid. Outside a valid grid no cell has neighbours.
pub open spec fn neighbor(columns: usize, rows: usize, index: usize, direction: int) -> Option<
    usize,
> {
    let c = columns as int;
    let row = row_of(c, index as int) + row_step(direction);
    let column = column_of(c, index as int) + column_step(direction, row_of(c, index as int));
    if valid_grid(columns, rows) && index < size_spec(c, rows as int) && 0 <= direction < 6
        && in_grid(c, rows as int, row, column) {
        Some(cell_index(c, row, column) as usize)
    } else {
        None
    }
}

/// Distance in the linear sequence covered by one step in `direction`.
pub open spec fn index_step(columns: int, direction: int) -> int {
    if direction == 0 {
        -columns - 1
    } else if direction == 1 {
        -columns
    } else if direction == 2 {
        1
    } else if direction == 3 {
        columns + 1
    } else if direction == 4 {
        columns
    } else {
        -1
    }
}

/// The direction that undoes a step in `direction`.
pub open spec fn opposite(direction: int) -> int {
    if direction < 3 {
        direction + 3
    } else {
        direction - 3
    }
}

/// Every index is the index of the cell at its own row and column.
pub proof fn lemma_index_round_trip(columns: int, index: int)
    requires
        columns >= 1,
        index >= 0,
    ensures
        row_of(columns, index) >= 0,
        0 <= column_of(columns, index) < row_width(columns, row_of(columns, index)),
        cell_index(columns, row_of(columns, index), column_of(columns, index)) == index,
{
    let p = period(columns);
    let q = index / p;
    lemma_fundamental_div_mod(index, p);
    lemma_mod_bound(index, p);
    vstd::arithmetic::div_mod::lemma_div_pos_is_pos(index, p);
    assert(p * q == q * p) by (nonlinear_arith);
    assert((2 * q) / 2 == q && (2 * q) % 2 == 0);
    assert((2 * q + 1) / 2 == q && (2 * q + 1) % 2 == 1);
}

/// Every cell is found again from its index: addressing is a bijection.
pub proof fn lemma_cell_round_trip(columns: int, row: int, column: int)
    requires
        columns >= 1,
        row >= 0,
        0 <= column < row_width(columns, row),
    ensures
        cell_index(columns, row, column) >= 0,
        row_of(columns, cell_index(columns, row, column)) == row,
        column_of(columns, cell_index(columns, row, column)) == column,
{
    let p = period(columns);
    let q = row / 2;
    let r = column + if row % 2 == 0 {
        0
    } else {
        columns
    };
    let index = cell_index(columns, row, column);
    assert(index == q * p + r);
    lemma_fundamental_div_mod_converse(index, p, q, r);
    assert(q * p >= 0) by (nonlinear_arith)
        requires
            q >= 0,
            p >= 0,
    ;
}

/// The first cell of row `rows` comes right after the last cell of the grid.
pub proof fn lemma_row_start_is_size(columns: int, rows: int)
    requires
        rows >= 0,
    ensures
        row_start(columns, rows) == size_spec(columns, rows),
{
    let q = rows / 2;
    assert(q * (2 * columns + 1) == 2 * (columns * q) + q) by (nonlinear_arith);
    if rows % 2 == 0 {
        assert(columns * rows == 2 * (columns * q)) by (nonlinear_arith)
            requires
                rows == 2 * q,
        ;
    } else {
        assert(columns * rows == 2 * (columns * q) + columns) by (nonlinear_arith)
            requires
                rows == 2 * q + 1,
        ;
    }
}

/// Rows start in increasing order, each after the whole of the previous one.
pub proof fn lemma_next_row_start(columns: int, row: int)
    requires
        row >= 0,
    ensures
        row_start(columns, row + 1) == row_start(columns, row) + row_width(columns, row),
{
    let q = row / 2;
    if row % 2 == 0 {
        assert((row + 1) / 2 == q && (row + 1) % 2 == 1);
    } else {
        assert((row + 1) / 2 == q + 1 && (row + 1) % 2 == 0);
        assert((q + 1) * period(columns) == q * period(columns) + period(columns))
            by (nonlinear_arith);
    }
}

/// Row starts are monotonic in the row.
pub proof fn lemma_row_start_monotonic(columns: int, low: int, high: int)
    requires
        columns >= 1,
        0 <= low <= high,
    ensures
        row_start(columns, low) <= row_start(columns, high),
        low < high ==> row_start(columns, low) + row_width(columns, low) <= row_start(
            columns,
            high,
        ),
    decreases high - low,
{
    if low < high {
        lemma_next_row_start(columns, high - 1);
        lemma_row_start_monotonic(columns, low, high - 1);
    }
}

/// An index lies in the grid exactly when its row does.
pub proof fn lemma_index_in_grid(columns: int, rows: int, index: int)
    requires
        columns >= 1,
        rows >= 0,
        index >= 0,
    ensures
        index < size_spec(columns, rows) <==> row_of(columns, index) < rows,
{
    lemma_index_round_trip(columns, index);
    lemma_row_start_is_size(columns, rows);
    let row = row_of(columns, index);
    if row < rows {
        lemma_row_start_monotonic(columns, row, rows);
    } else {
        lemma_row_start_monotonic(columns, rows, row);
    }
}

/// A neighbour lies in the grid, one geometric step from its origin, and
/// its index differs from the origin's by the step of the direction.
pub proof fn lemma_neighbor_geometry(columns: usize, rows: usize, index: usize, direction: int)
    requires
        neighbor(columns, rows, index, direction) is Some,
    ensures
        valid_grid(columns, rows),
        0 <= direction < 6,
        index < size_spec(columns as int, rows as int),
        neighbor(columns, rows, index, direction)->0 < size_spec(columns as int, rows as int),
        neighbor(columns, rows, index, direction)->0 == index + index_step(
            columns as int,
            direction,
        ),
        row_of(columns as int, neighbor(columns, rows, index, direction)->0 as int) == row_of(
            columns as int,
            index as int,
        ) + row_step(direction),
        column_of(columns as int, neighbor(columns, rows, index, direction)->0 as int)
            == column_of(columns as int, index as int) + column_step(
            direction,
            row_of(columns as int, index as int),
        ),
{
    let c = columns as int;
    let i = index as int;
    let row = row_of(c, i);
    let column = column_of(c, i);
    let row2 = row + row_step(direction);
    let column2 = column + column_step(direction, row);
    lemma_index_round_trip(c, i);
    lemma_cell_round_trip(c, row2, column2);
    lemma_index_in_grid(c, rows as int, cell_index(c, row2, column2));
    if row_step(direction) == 1 {
        lemma_next_row_start(c, row);
    } else if row_step(direction) == -1 {
        lemma_next_row_start(c, row2);
    }
}

/// Whether cell (`row`, `column`) has a neighbour in `direction`, told
/// from the borders that the cell lies on.
pub open spec fn has_neighbor(
    columns: int,
    rows: int,
    row: int,
    column: int,
    direction: int,
) -> bool {
    let first = column == 0;
    let last = column + 1 == row_width(columns, row);
    let even = row % 2 == 0;
    if direction == 0 {
        row > 0 && (even || !first)
    } else if direction == 1 {
        row > 0 && (even || !last)
    } else if direction == 2 {
        !last
    } else if direction == 3 {
        row + 1 < rows && (even || !last)
    } else if direction == 4 {
        row + 1 < rows && (even || !first)
    } else {
        !first
    }
}

/// The neighbour in terms of the linear index: it exists unless the cell
/// lies on the border that the step would cross, and then it is the index
/// moved by the step of the direction.
pub proof fn lemma_neighbor_by_index(columns: usize, rows: usize, index: usize, direction: int)
    requires
        valid_grid(columns, rows),
        index < size_spec(columns as int, rows as int),
        0 <= direction < 6,
    ensures
        neighbor(columns, rows, index, direction) is Some <==> has_neighbor(
            columns as int,
            rows as int,
            row_of(columns as int, index as int),
            column_of(columns as int, index as int),
            direction,
        ),
        neighbor(columns, rows, index, direction) is Some ==> neighbor(
            columns,
            rows,
            index,
            direction,
        )->0 == index + index_step(columns as int, direction),
{
    lemma_index_round_trip(columns as int, index as int);
    lemma_index_in_grid(columns as int, rows as int, index as int);
    if neighbor(columns, rows, index, direction) is Some {
        lemma_neighbor_geometry(columns, rows, index, direction);
    }
}

/// Stepping back from a neighbour in the opposite direction returns to the origin.
pub proof fn lemma_neighbor_symmetric(columns: usize, rows: usize, index: usize, direction: int)
    requires
        neighbor(columns, rows, index, direction) is Some,
    ensures
        neighbor(
            columns,
            rows,
            neighbor(columns, rows, index, direction)->0,
            opposite(direction),
        ) == Some(index),
{
    let c = columns as int;
    let other = neighbor(columns, rows, index, direction)->0;
    lemma_neighbor_geometry(columns, rows, index, direction);
    lemma_index_round_trip(c, index as int);
    lemma_index_in_grid(c, rows as int, index as int);
}

} // verus!
