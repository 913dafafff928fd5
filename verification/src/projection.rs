//! What the band of a constrained window is: the per-row column bounds that a
//! coarse warp path projects onto the finer table, and the cells that such
//! bounds stand for.
use crate::cells::{precedes, row_major, within_table};
use vstd::math::{max, min};
use vstd::prelude::*;

verus! {

/// The bounds of a row that no cell has been marked in.
pub open spec fn unmarked() -> (usize, usize) {
    (usize::MAX, 0)
}

/// Whether the row holds a cell: its minimum is not past its maximum.
pub open spec fn is_marked(bounds: (usize, usize)) -> bool {
    bounds.0 <= bounds.1
}

/// The bounds widened to include the columns `low..=high`; an empty range
/// changes nothing.
pub open spec fn widen(bounds: (usize, usize), low: int, high: int) -> (usize, usize) {
    if low <= high {
        (
            if low < bounds.0 {
                low as usize
            } else {
                bounds.0
            },
            if high > bounds.1 {
                high as usize
            } else {
                bounds.1
            },
        )
    } else {
        bounds
    }
}

/// A rectangle of cells, all four sides included.
pub struct Patch {
    pub top: int,
    pub bottom: int,
    pub left: int,
    pub right: int,
}

/// The cells of the finer table that the coarse cell `entry` (0-based) maps to:
/// a square of `factor` rows and columns.
pub open spec fn block(entry: (usize, usize), factor: int) -> Patch {
    Patch {
        top: entry.0 * factor + 1,
        bottom: entry.0 * factor + factor,
        left: entry.1 * factor + 1,
        right: entry.1 * factor + factor,
    }
}

/// The side of a corner patch: half the factor, rounded up.
pub open spec fn half(factor: int) -> int {
    (factor + 1) / 2
}

/// Whether the step from `previous` to `entry` advances in row and column.
pub open spec fn is_diagonal(previous: (usize, usize), entry: (usize, usize)) -> bool {
    previous.0 < entry.0 && previous.1 < entry.1
}

/// The patch to the right of the last rows of the block of `previous`.
pub open spec fn upper_patch(previous: (usize, usize), factor: int) -> Patch {
    Patch {
        top: (previous.0 + 1) * factor - half(factor) + 1,
        bottom: (previous.0 + 1) * factor,
        left: (previous.1 + 1) * factor + 1,
        right: (previous.1 + 1) * factor + half(factor),
    }
}

/// The patch below the last columns of the block of `previous`.
pub open spec fn lower_patch(previous: (usize, usize), factor: int) -> Patch {
    Patch {
        top: (previous.0 + 1) * factor + 1,
        bottom: (previous.0 + 1) * factor + half(factor),
        left: (previous.1 + 1) * factor - half(factor) + 1,
        right: (previous.1 + 1) * factor,
    }
}

/// The bounds after the cells of `patch` that lie in the table are marked.
pub open spec fn mark(constraints: Seq<(usize, usize)>, patch: Patch, columns: int) -> Seq<
    (usize, usize),
> {
    Seq::new(
        constraints.len(),
        |row: int|
            if 1 <= row && patch.top <= row <= patch.bottom {
                widen(constraints[row], max(patch.left, 1), min(patch.right, columns))
            } else {
                constraints[row]
            },
    )
}

/// The bounds after the first `count` entries of the coarse path are
/// projected: each entry marks its block, and an entry reached by a diagonal
/// step also marks the two patches at the corner that the two blocks share.
pub open spec fn projected(
    path: Seq<(usize, usize)>,
    count: nat,
    factor: int,
    rows: int,
    columns: int,
) -> Seq<(usize, usize)>
    decreases count,
{
    if count == 0 {
        Seq::new((rows + 1) as nat, |row: int| unmarked())
    } else {
        let before = projected(path, (count - 1) as nat, factor, rows, columns);
        let entry = path[count - 1];
        let with_block = mark(before, block(entry, factor), columns);
        if count >= 2 && is_diagonal(path[count - 2], entry) {
            mark(
                mark(with_block, upper_patch(path[count - 2], factor), columns),
                lower_patch(path[count - 2], factor),
                columns,
            )
        } else {
            with_block
        }
    }
}

/// The column that a marked row reaches to the right: its maximum plus the
/// radius, clipped to the table.
pub open spec fn reach_right(bounds: (usize, usize), radius: int, columns: int) -> int {
    min(bounds.1 + radius, columns)
}

/// The column that a marked row reaches to the left: its minimum minus the
/// radius, but at least 1.
pub open spec fn reach_left(bounds: (usize, usize), radius: int) -> int {
    if bounds.0 > radius {
        bounds.0 - radius
    } else {
        1
    }
}

/// The bounds of `row` after it has taken in the right reach of the `count`
/// rows from itself downwards. Unmarked rows reach nowhere.
pub open spec fn gather_right(
    constraints: Seq<(usize, usize)>,
    row: int,
    count: nat,
    radius: int,
    columns: int,
) -> (usize, usize)
    decreases count,
{
    if count == 0 {
        constraints[row]
    } else {
        let before = gather_right(constraints, row, (count - 1) as nat, radius, columns);
        let source = constraints[row + count - 1];
        if is_marked(source) {
            widen(before, reach_right(source, radius, columns), reach_right(source, radius, columns))
        } else {
            before
        }
    }
}

/// The number of rows from `row` on that lie within `radius` rows of it.
pub open spec fn rows_below(length: int, row: int, radius: int) -> nat {
    min(radius + 1, length - row) as nat
}

/// The bounds after every row has taken in the right reach of itself and of
/// the `radius` rows below it.
pub open spec fn expanded_right(constraints: Seq<(usize, usize)>, radius: int, columns: int) -> Seq<
    (usize, usize),
> {
    Seq::new(
        constraints.len(),
        |row: int|
            if 1 <= row {
                gather_right(
                    constraints,
                    row,
                    rows_below(constraints.len() as int, row, radius),
                    radius,
                    columns,
                )
            } else {
                constraints[row]
            },
    )
}

/// The bounds of `row` after it has taken in the left reach of the `count`
/// rows from itself upwards. Unmarked rows reach nowhere.
pub open spec fn gather_left(
    constraints: Seq<(usize, usize)>,
    row: int,
    count: nat,
    radius: int,
) -> (usize, usize)
    decreases count,
{
    if count == 0 {
        constraints[row]
    } else {
        let before = gather_left(constraints, row, (count - 1) as nat, radius);
        let source = constraints[row - count + 1];
        if is_marked(source) {
            widen(before, reach_left(source, radius), reach_left(source, radius))
        } else {
            before
        }
    }
}

/// The number of rows from `row` up to row 1 that lie within `radius` rows of it.
pub open spec fn rows_above(row: int, radius: int) -> nat {
    min(radius + 1, row) as nat
}

/// The bounds after every row has taken in the left reach of itself and of
/// the `radius` rows above it.
pub open spec fn expanded_left(constraints: Seq<(usize, usize)>, radius: int) -> Seq<
    (usize, usize),
> {
    Seq::new(
        constraints.len(),
        |row: int|
            if 1 <= row {
                gather_left(constraints, row, rows_above(row, radius), radius)
            } else {
                constraints[row]
            },
    )
}

/// The band of a constrained window: the coarse path projected onto a table of
/// `rows` rows and `columns` columns, then expanded by the search radius, first
/// to the right and then to the left. Entry 0 stands for the boundary row and
/// stays unmarked.
pub open spec fn projection(
    path: Seq<(usize, usize)>,
    factor: int,
    radius: int,
    rows: int,
    columns: int,
) -> Seq<(usize, usize)> {
    expanded_left(
        expanded_right(projected(path, path.len(), factor, rows, columns), radius, columns),
        radius,
    )
}

/// Whether every row is either unmarked or bounded by columns of the table,
/// and the boundary row is unmarked.
pub open spec fn band_valid(constraints: Seq<(usize, usize)>, columns: int) -> bool {
    &&& constraints.len() >= 1
    &&& constraints[0] == unmarked()
    &&& forall|row: int|
        0 <= row < constraints.len() ==> {
            ||| #[trigger] constraints[row] == unmarked()
            ||| 1 <= constraints[row].0 <= constraints[row].1 <= columns
        }
}

/// The cells of the band from `(row, column)` on, row by row.
pub open spec fn band_from(constraints: Seq<(usize, usize)>, row: int, column: int) -> Seq<
    (usize, usize),
>
    decreases constraints.len() - row,
        if 1 <= row < constraints.len() && column <= constraints[row].1 {
            constraints[row].1 + 1 - column
        } else {
            0
        },
{
    if row < 1 || row >= constraints.len() {
        Seq::empty()
    } else if column <= constraints[row].1 {
        seq![(row as usize, column as usize)] + band_from(constraints, row, column + 1)
    } else if row + 1 < constraints.len() {
        band_from(constraints, row + 1, constraints[row + 1].0 as int)
    } else {
        Seq::empty()
    }
}

/// All cells of the band: for each row from 1 on, the columns from its minimum
/// to its maximum.
pub open spec fn band_cells(constraints: Seq<(usize, usize)>) -> Seq<(usize, usize)> {
    if constraints.len() > 1 {
        band_from(constraints, 1, constraints[1].0 as int)
    } else {
        Seq::empty()
    }
}

/// Widening by columns of the table keeps a row's bounds in the table.
pub proof fn lemma_widen_valid(bounds: (usize, usize), low: int, high: int, columns: int)
    requires
        bounds == unmarked() || 1 <= bounds.0 <= bounds.1 <= columns,
        columns < usize::MAX,
        low <= high ==> 1 <= low && high <= columns,
    ensures
        widen(bounds, low, high) == unmarked() || 1 <= widen(bounds, low, high).0 <= widen(
            bounds,
            low,
            high,
        ).1 <= columns,
        low <= high ==> widen(bounds, low, high) == widen(widen(bounds, low, low), high, high),
        low <= high ==> is_marked(widen(bounds, low, high)),
{
}

/// The cells of a valid band lie in the table, at or after the start, within
/// the bounds of their rows, and in strictly increasing row-major order.
pub proof fn lemma_band_from(constraints: Seq<(usize, usize)>, row: int, column: int, columns: int)
    requires
        band_valid(constraints, columns),
        constraints.len() <= usize::MAX,
        columns < usize::MAX,
        1 <= row,
        row < constraints.len() ==> constraints[row].0 <= column,
    ensures
        within_band(band_from(constraints, row, column), constraints),
        within_table(band_from(constraints, row, column), constraints.len() - 1, columns),
        forall|i: int|
            0 <= i < band_from(constraints, row, column).len() ==> {
                let cell = #[trigger] band_from(constraints, row, column)[i];
                cell.0 > row || (cell.0 == row && cell.1 >= column)
            },
        row_major(band_from(constraints, row, column)),
    decreases constraints.len() - row,
        if 1 <= row < constraints.len() && column <= constraints[row].1 {
            constraints[row].1 + 1 - column
        } else {
            0
        },
{
    let cells = band_from(constraints, row, column);
    if row >= constraints.len() {
    } else if column <= constraints[row].1 {
        assert(constraints[row] == unmarked() || 1 <= constraints[row].0 <= constraints[row].1
            <= columns);
        let rest = band_from(constraints, row, column + 1);
        lemma_band_from(constraints, row, column + 1, columns);
        assert(cells == seq![(row as usize, column as usize)] + rest);
        assert forall|i: int| 0 <= i < cells.len() implies {
            let cell = #[trigger] cells[i];
            &&& 1 <= cell.0 < constraints.len()
            &&& 1 <= cell.1 <= columns
            &&& constraints[cell.0 as int].0 <= cell.1 <= constraints[cell.0 as int].1
            &&& (cell.0 > row || (cell.0 == row && cell.1 >= column))
        } by {
            if i > 0 {
                assert(cells[i] == rest[i - 1]);
            }
        }
        assert forall|i: int, j: int| 0 <= i < j < cells.len() implies precedes(
            #[trigger] cells[i],
            #[trigger] cells[j],
        ) by {
            assert(cells[j] == rest[j - 1]);
            if i > 0 {
                assert(cells[i] == rest[i - 1]);
            }
        }
    } else if row + 1 < constraints.len() {
        lemma_band_from(constraints, row + 1, constraints[row + 1].0 as int, columns);
    } else {
    }
}

/// Whether every cell lies between the bounds of its row.
pub open spec fn within_band(cells: Seq<(usize, usize)>, constraints: Seq<(usize, usize)>) -> bool {
    forall|i: int|
        0 <= i < cells.len() ==> {
            let cell = #[trigger] cells[i];
            &&& cell.0 < constraints.len()
            &&& constraints[cell.0 as int].0 <= cell.1 <= constraints[cell.0 as int].1
        }
}

} // verus!
