//! Cells of a cost table and the order in which a window hands them out.
use vstd::prelude::*;

verus! {

/// Whether `first` comes strictly before `second` in row-major order.
pub open spec fn precedes(first: (usize, usize), second: (usize, usize)) -> bool {
    first.0 < second.0 || (first.0 == second.0 && first.1 < second.1)
}

/// Whether the cells are in strictly increasing row-major order: rows never
/// decrease, and within a row the columns strictly increase.
pub open spec fn row_major(cells: Seq<(usize, usize)>) -> bool {
    forall|i: int, j: int| 0 <= i < j < cells.len() ==> precedes(#[trigger] cells[i], #[trigger] cells[j])
}

/// Whether every cell lies in the table: rows `1..=rows`, columns `1..=columns`.
pub open spec fn within_table(cells: Seq<(usize, usize)>, rows: int, columns: int) -> bool {
    forall|i: int|
        0 <= i < cells.len() ==> 1 <= (#[trigger] cells[i]).0 <= rows && 1 <= cells[i].1 <= columns
}

/// Whether the cell is among the cells.
pub open spec fn visits(cells: Seq<(usize, usize)>, row: int, column: int) -> bool {
    exists|i: int| 0 <= i < cells.len() && (#[trigger] cells[i]).0 == row && cells[i].1 == column
}

/// What one call of `next` does to the cells that are still to come: it hands
/// out the first of them, or reports that none is left.
pub open spec fn advances(
    before: Seq<(usize, usize)>,
    cell: Option<(usize, usize)>,
    after: Seq<(usize, usize)>,
) -> bool {
    match cell {
        Some(c) => before.len() > 0 && c == before[0] && after == before.drop_first(),
        None => before.len() == 0 && after.len() == 0,
    }
}

/// The cells of a `rows` x `columns` table from `(row, column)` on, row by row.
pub open spec fn grid_from(row: int, column: int, rows: int, columns: int) -> Seq<(usize, usize)>
    decreases rows + 1 - row, columns + 1 - column,
{
    if row < 1 || column < 1 || row > rows || column > columns {
        Seq::empty()
    } else if column < columns {
        seq![(row as usize, column as usize)] + grid_from(row, column + 1, rows, columns)
    } else {
        seq![(row as usize, column as usize)] + grid_from(row + 1, 1, rows, columns)
    }
}

/// Every cell of `grid_from` lies in the table and at or after the start.
pub proof fn lemma_grid_from_bounds(row: int, column: int, rows: int, columns: int)
    requires
        rows < usize::MAX,
        columns < usize::MAX,
    ensures
        within_table(grid_from(row, column, rows, columns), rows, columns),
        forall|i: int|
            0 <= i < grid_from(row, column, rows, columns).len() ==> {
                let cell = #[trigger] grid_from(row, column, rows, columns)[i];
                cell.0 > row || (cell.0 == row && cell.1 >= column)
            },
        row_major(grid_from(row, column, rows, columns)),
    decreases rows + 1 - row, columns + 1 - column,
{
    let cells = grid_from(row, column, rows, columns);
    if row < 1 || column < 1 || row > rows || column > columns {
    } else {
        let rest = if column < columns {
            grid_from(row, column + 1, rows, columns)
        } else {
            grid_from(row + 1, 1, rows, columns)
        };
        if column < columns {
            lemma_grid_from_bounds(row, column + 1, rows, columns);
        } else {
            lemma_grid_from_bounds(row + 1, 1, rows, columns);
        }
        assert(cells == seq![(row as usize, column as usize)] + rest);
        assert forall|i: int| 0 <= i < cells.len() implies {
            let cell = #[trigger] cells[i];
            &&& 1 <= cell.0 <= rows
            &&& 1 <= cell.1 <= columns
            &&& (cell.0 > row || (cell.0 == row && cell.1 >= column))
        } by {
            if i > 0 {
                assert(cells[i] == rest[i - 1]);
            }
        }
        assert forall|i: int, j: int| 0 <= i < j < cells.len() implies precedes(
            #[trigger] cells[i],
            #[trigger] cells[j],
        ) by {
            assert(cells[j] == rest[j - 1]);
            if i > 0 {
                assert(cells[i] == rest[i - 1]);
            }
        }
    }
}

/// A cell belongs to the full grid exactly if it lies in the table.
pub proof fn lemma_grid_from_contains(
    row: int,
    column: int,
    rows: int,
    columns: int,
    cell: (usize, usize),
)
    requires
        1 <= row,
        1 <= column <= columns,
        rows < usize::MAX,
        columns < usize::MAX,
        1 <= cell.0 <= rows,
        1 <= cell.1 <= columns,
        cell.0 > row || (cell.0 == row && cell.1 >= column),
    ensures
        grid_from(row, column, rows, columns).contains(cell),
    decreases rows + 1 - row, columns + 1 - column,
{
    let cells = grid_from(row, column, rows, columns);
    let rest = if column < columns {
        grid_from(row, column + 1, rows, columns)
    } else {
        grid_from(row + 1, 1, rows, columns)
    };
    assert(cells == seq![(row as usize, column as usize)] + rest);
    if cell.0 == row && cell.1 == column {
        assert(cells[0] == cell);
    } else {
        if column < columns {
            lemma_grid_from_contains(row, column + 1, rows, columns, cell);
        } else {
            lemma_grid_from_contains(row + 1, 1, rows, columns, cell);
        }
        let i = choose|i: int| 0 <= i < rest.len() && rest[i] == cell;
        assert(cells[i + 1] == cell);
    }
}

} // verus!
