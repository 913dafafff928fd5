//! Bands that hold a warp path: every row has cells, the first row starts at
//! the first column, the last row ends at the last column, and each row starts
//! where the cell before its first cell, in the same column or the one before
//! it, lies in the row above.
use crate::cells::{grid_from, lemma_grid_from_bounds, lemma_grid_from_contains, visits};
use crate::projection::{band_cells, band_from, band_valid, is_marked, lemma_band_from, unmarked};
use vstd::prelude::*;

verus! {

/// Whether the cell lies in the band: off the boundary, and between the bounds
/// of its row.
pub open spec fn in_band(bounds: Seq<(usize, usize)>, row: int, column: int) -> bool {
    1 <= row < bounds.len() && bounds[row].0 <= column <= bounds[row].1
}

/// Whether `cells` are the cells of the band.
pub open spec fn fills_band(cells: Seq<(usize, usize)>, bounds: Seq<(usize, usize)>) -> bool {
    forall|row: int, column: int|
        1 <= row && 1 <= column ==> (#[trigger] visits(cells, row, column) <==> in_band(
            bounds,
            row,
            column,
        ))
}

/// Whether a row of a band is in touch with the row above it: its first
/// column is no lower than that of the row above and at most one past the
/// last column of the row above, and its last column is no lower than that of
/// the row above.
pub open spec fn touches(above: (usize, usize), below: (usize, usize)) -> bool {
    above.0 <= below.0 <= above.1 + 1 && above.1 <= below.1
}

/// Whether the band leads from the first cell of the table to its last cell:
/// every row is marked, the first row starts at column 1, the last row ends at
/// the last column, and every row is in touch with the row above it. The
/// bounds of a linked band never fall from row to row.
pub open spec fn linked(bounds: Seq<(usize, usize)>, columns: int) -> bool {
    &&& band_valid(bounds, columns)
    &&& bounds.len() >= 2
    &&& forall|row: int| 1 <= row < bounds.len() ==> is_marked(#[trigger] bounds[row])
    &&& bounds[1].0 == 1
    &&& bounds[bounds.len() - 1].1 == columns
    &&& forall|above: int, row: int|
        1 <= above && row == above + 1 && row < bounds.len() ==> touches(
            #[trigger] bounds[above],
            #[trigger] bounds[row],
        )
}

/// The bounds of the band that holds every cell of the table.
pub open spec fn full_bounds(rows: int, columns: int) -> Seq<(usize, usize)> {
    Seq::new(
        (rows + 1) as nat,
        |row: int|
            if row == 0 {
                unmarked()
            } else {
                (1usize, columns as usize)
            },
    )
}

/// A cell of the band at or after the start is among the cells from the start.
pub proof fn lemma_band_from_contains(
    bounds: Seq<(usize, usize)>,
    row: int,
    column: int,
    columns: int,
    cell: (usize, usize),
)
    requires
        band_valid(bounds, columns),
        bounds.len() <= usize::MAX,
        columns < usize::MAX,
        1 <= row,
        in_band(bounds, cell.0 as int, cell.1 as int),
        cell.0 > row || (cell.0 == row && cell.1 >= column),
    ensures
        band_from(bounds, row, column).contains(cell),
    decreases bounds.len() - row,
        if 1 <= row < bounds.len() && column <= bounds[row].1 {
            bounds[row].1 + 1 - column
        } else {
            0
        },
{
    let cells = band_from(bounds, row, column);
    assert(bounds[row] == unmarked() || 1 <= bounds[row].0 <= bounds[row].1 <= columns);
    if column <= bounds[row].1 {
        let rest = band_from(bounds, row, column + 1);
        assert(cells == seq![(row as usize, column as usize)] + rest);
        if cell.0 == row && cell.1 == column {
            assert(cells[0] == cell);
        } else {
            lemma_band_from_contains(bounds, row, column + 1, columns, cell);
            let i = choose|i: int| 0 <= i < rest.len() && rest[i] == cell;
            assert(cells[i + 1] == cell);
        }
    } else {
        lemma_band_from_contains(bounds, row + 1, bounds[row + 1].0 as int, columns, cell);
    }
}

/// The cells of a band are the cells that lie between the bounds of their rows.
pub proof fn lemma_band_cells(bounds: Seq<(usize, usize)>, columns: int)
    requires
        band_valid(bounds, columns),
        bounds.len() <= usize::MAX,
        columns < usize::MAX,
    ensures
        fills_band(band_cells(bounds), bounds),
{
    let cells = band_cells(bounds);
    assert forall|row: int, column: int| 1 <= row && 1 <= column implies (#[trigger] visits(
        cells,
        row,
        column,
    ) <==> in_band(bounds, row, column)) by {
        if bounds.len() > 1 {
            lemma_band_from(bounds, 1, bounds[1].0 as int, columns);
            if in_band(bounds, row, column) {
                assert(bounds[row] == unmarked() || 1 <= bounds[row].0 <= bounds[row].1
                    <= columns);
                assert(bounds[1] == unmarked() || 1 <= bounds[1].0 <= bounds[1].1 <= columns);
                let cell = (row as usize, column as usize);
                lemma_band_from_contains(bounds, 1, bounds[1].0 as int, columns, cell);
                let i = choose|i: int| 0 <= i < cells.len() && cells[i] == cell;
                assert(cells[i].0 == row && cells[i].1 == column);
            }
            if visits(cells, row, column) {
                let i = choose|i: int|
                    0 <= i < cells.len() && (#[trigger] cells[i]).0 == row && cells[i].1
                        == column;
                assert(in_band(bounds, cells[i].0 as int, cells[i].1 as int));
            }
        }
    }
}

/// The cells of the full window are the cells of the band that holds every
/// cell of the table, and that band is linked.
pub proof fn lemma_full_band(rows: int, columns: int)
    requires
        1 <= rows < usize::MAX,
        1 <= columns < usize::MAX,
    ensures
        fills_band(grid_from(1, 1, rows, columns), full_bounds(rows, columns)),
        linked(full_bounds(rows, columns), columns),
{
    let cells = grid_from(1, 1, rows, columns);
    let bounds = full_bounds(rows, columns);
    lemma_grid_from_bounds(1, 1, rows, columns);
    assert forall|row: int, column: int| 1 <= row && 1 <= column implies (#[trigger] visits(
        cells,
        row,
        column,
    ) <==> in_band(bounds, row, column)) by {
        if in_band(bounds, row, column) {
            let cell = (row as usize, column as usize);
            lemma_grid_from_contains(1, 1, rows, columns, cell);
            let i = choose|i: int| 0 <= i < cells.len() && cells[i] == cell;
            assert(cells[i].0 == row && cells[i].1 == column);
        }
        if visits(cells, row, column) {
            let i = choose|i: int|
                0 <= i < cells.len() && (#[trigger] cells[i]).0 == row && cells[i].1 == column;
            assert(1 <= cells[i].0 <= rows && 1 <= cells[i].1 <= columns);
        }
    }
}

} // verus!
