//! What holds of every table that the engine fills and of every path that it
//! reads back.
use crate::band::{fills_band, full_bounds, in_band, lemma_full_band, linked, touches};
use crate::cells::{grid_from, lemma_grid_from_contains, visits};
use crate::projection::{is_marked, unmarked};
use crate::cost::{CostTable, INFINITE_COST};
use crate::dtw::{
    cell_filled, distance_of, dtw_outcome, filled, predecessor, read_from, warp_path,
};
use crate::enums::{Action, DistanceMode};
use vstd::prelude::*;

verus! {

/// Whether `to` follows `from` on a warp path: one row down, one column to
/// the right, or both.
pub open spec fn is_step(from: (usize, usize), to: (usize, usize)) -> bool {
    ||| to.0 == from.0 + 1 && to.1 == from.1
    ||| to.0 == from.0 && to.1 == from.1 + 1
    ||| to.0 == from.0 + 1 && to.1 == from.1 + 1
}

/// Whether every pair of the path follows the one before it by a step.
pub open spec fn steps_forward(path: Seq<(usize, usize)>) -> bool {
    forall|i: int, j: int|
        0 <= i && j == i + 1 && j < path.len() ==> is_step(#[trigger] path[i], #[trigger] path[j])
}

/// Whether the path has the shape of a warp path between series of `x_size`
/// and `y_size` samples: it advances by a step from each pair to the next, it
/// has at most `x_size + y_size` pairs, it ends at the pair of the last
/// samples, and it is empty only if a series is.
pub open spec fn path_shaped(x_size: usize, y_size: usize, path: Seq<(usize, usize)>) -> bool {
    &&& steps_forward(path)
    &&& path.len() <= x_size + y_size
    &&& x_size == 0 || y_size == 0 ==> path.len() == 0
    &&& x_size >= 1 && y_size >= 1 ==> path.len() >= 1 && path.last() == (
        (y_size - 1) as usize,
        (x_size - 1) as usize,
    )
}

/// The path along the diagonal: `(0, 0), (1, 1), ...`, `length` pairs.
pub open spec fn diagonal(length: int) -> Seq<(usize, usize)> {
    Seq::new(length as nat, |i: int| (i as usize, i as usize))
}

/// Whether the window hands out every cell of the table.
pub open spec fn covers(cells: Seq<(usize, usize)>, rows: int, columns: int) -> bool {
    forall|row: int, column: int|
        1 <= row <= rows && 1 <= column <= columns ==> #[trigger] visits(cells, row, column)
}

/// Whether an infinite predecessor makes the accumulated cost infinite.
pub open spec fn keeps_infinity<A: Fn(usize, DistanceMode, usize, usize, u64) -> u64>(
    level: usize,
    mode: DistanceMode,
    accumulate: A,
) -> bool {
    forall|row: usize, column: usize, cost: u64, sum: u64|
        cost >= INFINITE_COST && #[trigger] call_ensures(
            accumulate,
            (level, mode, row, column, cost),
            sum,
        ) ==> sum >= INFINITE_COST
}

/// Whether a finite predecessor leaves the accumulated cost finite: the
/// arithmetic does not overflow.
pub open spec fn stays_finite<A: Fn(usize, DistanceMode, usize, usize, u64) -> u64>(
    level: usize,
    mode: DistanceMode,
    accumulate: A,
) -> bool {
    forall|row: usize, column: usize, cost: u64, sum: u64|
        cost < INFINITE_COST && #[trigger] call_ensures(
            accumulate,
            (level, mode, row, column, cost),
            sum,
        ) ==> sum < INFINITE_COST
}

/// Whether the root of an infinite cost is infinite.
pub open spec fn root_keeps_infinity<R: Fn(u64) -> u64>(root: R) -> bool {
    forall|cost: u64, distance: u64|
        cost >= INFINITE_COST && #[trigger] call_ensures(root, (cost,), distance) ==> distance
            >= INFINITE_COST
}

/// Whether `accumulate` gives one cost only for each cell and predecessor.
pub open spec fn single_valued<A: Fn(usize, DistanceMode, usize, usize, u64) -> u64>(
    level: usize,
    mode: DistanceMode,
    accumulate: A,
) -> bool {
    forall|row: usize, column: usize, cost: u64, first: u64, second: u64|
        #[trigger] call_ensures(accumulate, (level, mode, row, column, cost), first)
            && #[trigger] call_ensures(accumulate, (level, mode, row, column, cost), second)
            ==> first == second
}

/// Whether `root` gives one distance only for each cost.
pub open spec fn root_single_valued<R: Fn(u64) -> u64>(root: R) -> bool {
    forall|cost: u64, first: u64, second: u64|
        #[trigger] call_ensures(root, (cost,), first) && #[trigger] call_ensures(
            root,
            (cost,),
            second,
        ) ==> first == second
}

/// Whether `mirror` gives for the cell `(column, row)` what `accumulate` gives
/// for the cell `(row, column)`: the local cost of two samples does not depend
/// on which of them is taken from X.
pub open spec fn mirrored<
    A: Fn(usize, DistanceMode, usize, usize, u64) -> u64,
    B: Fn(usize, DistanceMode, usize, usize, u64) -> u64,
>(level: usize, mode: DistanceMode, accumulate: A, mirror: B) -> bool {
    forall|row: usize, column: usize, cost: u64, first: u64, second: u64|
        #[trigger] call_ensures(accumulate, (level, mode, row, column, cost), first)
            && #[trigger] call_ensures(mirror, (level, mode, column, row, cost), second)
            ==> first == second
}

/// Path monotonicity and the last endpoint. A warp path that leads to the
/// cell `(row, column)` advances by one row, one column or both from each pair
/// to the next, has at most `row + column` pairs, and ends at the pair
/// `(row - 1, column - 1)`; it is empty only on the boundary.
pub proof fn lemma_warp_path_shape(table: CostTable, row: int, column: int)
    requires
        0 <= row <= usize::MAX,
        0 <= column <= usize::MAX,
        warp_path(table, row, column).is_some(),
    ensures
        steps_forward(warp_path(table, row, column).unwrap()),
        warp_path(table, row, column).unwrap().len() <= row + column,
        row == 0 || column == 0 ==> warp_path(table, row, column).unwrap().len() == 0,
        row >= 1 && column >= 1 ==> warp_path(table, row, column).unwrap().len() >= 1 && warp_path(
            table,
            row,
            column,
        ).unwrap().last() == ((row - 1) as usize, (column - 1) as usize),
    decreases row + column,
{
    if row >= 1 && column >= 1 {
        let path = warp_path(table, row, column).unwrap();
        let (earlier_row, earlier_column) = match table.action_at(row, column) {
            Action::Inserted => (row - 1, column),
            Action::Deleted => (row, column - 1),
            _ => (row - 1, column - 1),
        };
        lemma_warp_path_shape(table, earlier_row, earlier_column);
        let earlier = warp_path(table, earlier_row, earlier_column).unwrap();
        let last = ((row - 1) as usize, (column - 1) as usize);
        assert(path == earlier.push(last));
        assert forall|i: int, j: int| 0 <= i && j == i + 1 && j < path.len() implies is_step(
            #[trigger] path[i],
            #[trigger] path[j],
        ) by {
            if j < earlier.len() {
                assert(is_step(earlier[i], earlier[j]));
            } else {
                assert(path[i] == earlier.last());
            }
        }
    }
}

/// Where the window hands out every cell of the table, the way back from any
/// cell of it reaches the boundary: there is a warp path.
pub proof fn lemma_covered_table_has_path<A: Fn(usize, DistanceMode, usize, usize, u64) -> u64>(
    table: CostTable,
    cells: Seq<(usize, usize)>,
    rows: int,
    columns: int,
    level: usize,
    mode: DistanceMode,
    accumulate: A,
    row: int,
    column: int,
)
    requires
        filled(table, cells, level, mode, accumulate),
        covers(cells, rows, columns),
        0 <= row <= rows,
        0 <= column <= columns,
    ensures
        warp_path(table, row, column).is_some(),
    decreases row + column,
{
    if row >= 1 && column >= 1 {
        assert(visits(cells, row, column));
        assert(cell_filled(table, level, mode, accumulate, row, column));
        match table.action_at(row, column) {
            Action::Inserted => {
                lemma_covered_table_has_path(
                    table,
                    cells,
                    rows,
                    columns,
                    level,
                    mode,
                    accumulate,
                    row - 1,
                    column,
                );
            },
            Action::Deleted => {
                lemma_covered_table_has_path(
                    table,
                    cells,
                    rows,
                    columns,
                    level,
                    mode,
                    accumulate,
                    row,
                    column - 1,
                );
            },
            _ => {
                lemma_covered_table_has_path(
                    table,
                    cells,
                    rows,
                    columns,
                    level,
                    mode,
                    accumulate,
                    row - 1,
                    column - 1,
                );
            },
        }
    }
}

/// The full window hands out every cell of the table.
pub proof fn lemma_grid_covers(rows: int, columns: int)
    requires
        0 <= rows < usize::MAX,
        0 <= columns < usize::MAX,
    ensures
        covers(grid_from(1, 1, rows, columns), rows, columns),
{
    let cells = grid_from(1, 1, rows, columns);
    assert forall|row: int, column: int| 1 <= row <= rows && 1 <= column <= columns implies #[trigger] visits(
        cells,
        row,
        column,
    ) by {
        lemma_grid_from_contains(1, 1, rows, columns, (row as usize, column as usize));
        let i = choose|i: int| 0 <= i < cells.len() && cells[i] == (row as usize, column as usize);
        assert(cells[i].0 == row && cells[i].1 == column);
    }
}

/// The first endpoint. Where an infinite predecessor makes a cost infinite, a
/// cell with a finite cost has a warp path, and the path starts at the pair
/// `(0, 0)`.
pub proof fn lemma_finite_cost_path_from_origin<
    A: Fn(usize, DistanceMode, usize, usize, u64) -> u64,
>(
    table: CostTable,
    cells: Seq<(usize, usize)>,
    level: usize,
    mode: DistanceMode,
    accumulate: A,
    row: int,
    column: int,
)
    requires
        filled(table, cells, level, mode, accumulate),
        keeps_infinity(level, mode, accumulate),
        1 <= row,
        1 <= column,
        table.cost_at(row, column) < INFINITE_COST,
    ensures
        warp_path(table, row, column).is_some(),
        warp_path(table, row, column).unwrap().len() >= 1,
        warp_path(table, row, column).unwrap()[0] == (0usize, 0usize),
    decreases row + column,
{
    assert(visits(cells, row, column));
    assert(cell_filled(table, level, mode, accumulate, row, column));
    let pick = predecessor(table, row, column);
    assert(pick.0 < INFINITE_COST);
    let (earlier_row, earlier_column) = match pick.1 {
        Action::Inserted => (row - 1, column),
        Action::Deleted => (row, column - 1),
        _ => (row - 1, column - 1),
    };
    assert(table.cost_at(earlier_row, earlier_column) == pick.0);
    if earlier_row >= 1 && earlier_column >= 1 {
        lemma_finite_cost_path_from_origin(
            table,
            cells,
            level,
            mode,
            accumulate,
            earlier_row,
            earlier_column,
        );
        let earlier = warp_path(table, earlier_row, earlier_column).unwrap();
        assert(warp_path(table, row, column).unwrap() == earlier.push(
            ((row - 1) as usize, (column - 1) as usize),
        ));
    } else {
        assert(earlier_row == 0 && earlier_column == 0);
        assert(warp_path(table, row, column).unwrap() == Seq::<(usize, usize)>::empty().push(
            ((row - 1) as usize, (column - 1) as usize),
        ));
    }
}

/// Identity. Where the table is filled over all its cells and the cells on
/// the diagonal cost nothing on top of a predecessor that cost nothing, as
/// when a series is aligned to itself, every cell on the diagonal has the cost
/// 0 and is reached along the diagonal.
pub proof fn lemma_identity<A: Fn(usize, DistanceMode, usize, usize, u64) -> u64>(
    table: CostTable,
    cells: Seq<(usize, usize)>,
    size: int,
    level: usize,
    mode: DistanceMode,
    accumulate: A,
    index: int,
)
    requires
        filled(table, cells, level, mode, accumulate),
        covers(cells, size, size),
        forall|row: usize, cost: u64|
            1 <= row <= size && #[trigger] call_ensures(
                accumulate,
                (level, mode, row, row, 0u64),
                cost,
            ) ==> cost == 0,
        0 <= index <= size <= usize::MAX,
    ensures
        table.cost_at(index, index) == 0,
        warp_path(table, index, index) == Some(diagonal(index)),
    decreases index,
{
    if index == 0 {
        assert(diagonal(0) =~= Seq::empty());
    } else {
        lemma_identity(table, cells, size, level, mode, accumulate, index - 1);
        assert(visits(cells, index, index));
        assert(cell_filled(table, level, mode, accumulate, index, index));
        assert(predecessor(table, index, index) == (0u64, Action::Matched));
        assert(diagonal(index) =~= diagonal(index - 1).push(
            ((index - 1) as usize, (index - 1) as usize),
        ));
    }
}

/// Symmetry. Where two tables are filled over all their cells, one for X
/// against Y and one for Y against X, and the local cost of two samples does
/// not depend on which of them is taken from X, each cell of the one has the
/// cost of the mirrored cell of the other. So the last cells have one cost.
pub proof fn lemma_symmetry<
    A: Fn(usize, DistanceMode, usize, usize, u64) -> u64,
    B: Fn(usize, DistanceMode, usize, usize, u64) -> u64,
>(
    table: CostTable,
    mirror_table: CostTable,
    cells: Seq<(usize, usize)>,
    mirror_cells: Seq<(usize, usize)>,
    x_size: int,
    y_size: int,
    level: usize,
    mode: DistanceMode,
    accumulate: A,
    mirror: B,
    row: int,
    column: int,
)
    requires
        filled(table, cells, level, mode, accumulate),
        filled(mirror_table, mirror_cells, level, mode, mirror),
        covers(cells, y_size, x_size),
        covers(mirror_cells, x_size, y_size),
        mirrored(level, mode, accumulate, mirror),
        0 <= row <= y_size <= usize::MAX,
        0 <= column <= x_size <= usize::MAX,
    ensures
        table.cost_at(row, column) == mirror_table.cost_at(column, row),
    decreases row + column,
{
    if row >= 1 && column >= 1 {
        lemma_symmetry(
            table,
            mirror_table,
            cells,
            mirror_cells,
            x_size,
            y_size,
            level,
            mode,
            accumulate,
            mirror,
            row - 1,
            column,
        );
        lemma_symmetry(
            table,
            mirror_table,
            cells,
            mirror_cells,
            x_size,
            y_size,
            level,
            mode,
            accumulate,
            mirror,
            row,
            column - 1,
        );
        lemma_symmetry(
            table,
            mirror_table,
            cells,
            mirror_cells,
            x_size,
            y_size,
            level,
            mode,
            accumulate,
            mirror,
            row - 1,
            column - 1,
        );
        assert(visits(cells, row, column));
        assert(visits(mirror_cells, column, row));
        assert(cell_filled(table, level, mode, accumulate, row, column));
        assert(cell_filled(mirror_table, level, mode, mirror, column, row));
        assert(predecessor(table, row, column).0 == predecessor(mirror_table, column, row).0);
    }
}

/// Where `accumulate` gives one cost only, two tables filled over the same
/// cells hold the same costs and actions, and the same warp paths.
pub proof fn lemma_tables_agree<A: Fn(usize, DistanceMode, usize, usize, u64) -> u64>(
    first: CostTable,
    second: CostTable,
    cells: Seq<(usize, usize)>,
    level: usize,
    mode: DistanceMode,
    accumulate: A,
    row: int,
    column: int,
)
    requires
        filled(first, cells, level, mode, accumulate),
        filled(second, cells, level, mode, accumulate),
        single_valued(level, mode, accumulate),
    ensures
        first.cost_at(row, column) == second.cost_at(row, column),
        first.action_at(row, column) == second.action_at(row, column),
        warp_path(first, row, column) == warp_path(second, row, column),
    decreases row + column,
{
    if row >= 1 && column >= 1 {
        lemma_tables_agree(first, second, cells, level, mode, accumulate, row - 1, column);
        lemma_tables_agree(first, second, cells, level, mode, accumulate, row, column - 1);
        lemma_tables_agree(first, second, cells, level, mode, accumulate, row - 1, column - 1);
        if visits(cells, row, column) {
            assert(cell_filled(first, level, mode, accumulate, row, column));
            assert(cell_filled(second, level, mode, accumulate, row, column));
            assert(predecessor(first, row, column) == predecessor(second, row, column));
        }
    }
}

/// An alignment has one outcome only: where the two functions give one value
/// only for each argument, two outcomes of aligning the same series over the
/// same cells are the same distance and the same path. Which storage held the
/// table, and under which limit it was chosen, makes no difference.
pub proof fn lemma_outcome_unique<
    A: Fn(usize, DistanceMode, usize, usize, u64) -> u64,
    R: Fn(u64) -> u64,
>(
    level: usize,
    x_size: usize,
    y_size: usize,
    cells: Seq<(usize, usize)>,
    mode: DistanceMode,
    accumulate: A,
    root: R,
    first: Option<(u64, Seq<(usize, usize)>)>,
    second: Option<(u64, Seq<(usize, usize)>)>,
)
    requires
        dtw_outcome(level, x_size, y_size, cells, mode, accumulate, root, first),
        dtw_outcome(level, x_size, y_size, cells, mode, accumulate, root, second),
        single_valued(level, mode, accumulate),
        root_single_valued(root),
    ensures
        first == second,
{
    let first_table = choose|table: CostTable|
        read_from(table, level, x_size, y_size, cells, mode, accumulate, root, first);
    let second_table = choose|table: CostTable|
        read_from(table, level, x_size, y_size, cells, mode, accumulate, root, second);
    lemma_tables_agree(
        first_table,
        second_table,
        cells,
        level,
        mode,
        accumulate,
        y_size as int,
        x_size as int,
    );
}

/// Path monotonicity and endpoints of an outcome. The path of an outcome
/// advances by one row, one column or both from each pair to the next; for
/// series that are not empty it ends at the pair of their last samples. Where
/// the distance is finite and infinity is kept by both functions, it starts at
/// the pair `(0, 0)`.
pub proof fn lemma_outcome_path<
    A: Fn(usize, DistanceMode, usize, usize, u64) -> u64,
    R: Fn(u64) -> u64,
>(
    level: usize,
    x_size: usize,
    y_size: usize,
    cells: Seq<(usize, usize)>,
    mode: DistanceMode,
    accumulate: A,
    root: R,
    distance: u64,
    path: Seq<(usize, usize)>,
)
    requires
        dtw_outcome(level, x_size, y_size, cells, mode, accumulate, root, Some((distance, path))),
    ensures
        path_shaped(x_size, y_size, path),
        x_size >= 1 && y_size >= 1 && distance < INFINITE_COST && keeps_infinity(
            level,
            mode,
            accumulate,
        ) && root_keeps_infinity(root) ==> path[0] == (0usize, 0usize),
{
    let table = choose|table: CostTable|
        read_from(
            table,
            level,
            x_size,
            y_size,
            cells,
            mode,
            accumulate,
            root,
            Some((distance, path)),
        );
    lemma_warp_path_shape(table, y_size as int, x_size as int);
    if x_size >= 1 && y_size >= 1 && distance < INFINITE_COST && keeps_infinity(
        level,
        mode,
        accumulate,
    ) && root_keeps_infinity(root) {
        assert(distance_of(mode, root, table.cost_at(y_size as int, x_size as int), distance));
        assert(table.cost_at(y_size as int, x_size as int) < INFINITE_COST);
        lemma_finite_cost_path_from_origin(
            table,
            cells,
            level,
            mode,
            accumulate,
            y_size as int,
            x_size as int,
        );
    }
}

/// Where the window hands out every cell of the table, the alignment has a
/// path: no outcome is `None`.
pub proof fn lemma_covered_outcome<
    A: Fn(usize, DistanceMode, usize, usize, u64) -> u64,
    R: Fn(u64) -> u64,
>(
    level: usize,
    x_size: usize,
    y_size: usize,
    cells: Seq<(usize, usize)>,
    mode: DistanceMode,
    accumulate: A,
    root: R,
    outcome: Option<(u64, Seq<(usize, usize)>)>,
)
    requires
        dtw_outcome(level, x_size, y_size, cells, mode, accumulate, root, outcome),
        covers(cells, y_size as int, x_size as int),
    ensures
        outcome.is_some(),
{
    let table = choose|table: CostTable|
        read_from(table, level, x_size, y_size, cells, mode, accumulate, root, outcome);
    lemma_covered_table_has_path(
        table,
        cells,
        y_size as int,
        x_size as int,
        level,
        mode,
        accumulate,
        y_size as int,
        x_size as int,
    );
}

/// The first endpoint, over a linked band. Where the table is filled over
/// the cells of a linked band and the arithmetic does not overflow, every cell
/// of the band has a finite cost and a warp path, and the path starts at the
/// pair `(0, 0)`.
pub proof fn lemma_linked_band_path<A: Fn(usize, DistanceMode, usize, usize, u64) -> u64>(
    table: CostTable,
    cells: Seq<(usize, usize)>,
    bounds: Seq<(usize, usize)>,
    columns: int,
    level: usize,
    mode: DistanceMode,
    accumulate: A,
    row: int,
    column: int,
)
    requires
        filled(table, cells, level, mode, accumulate),
        fills_band(cells, bounds),
        linked(bounds, columns),
        stays_finite(level, mode, accumulate),
        in_band(bounds, row, column),
    ensures
        table.cost_at(row, column) < INFINITE_COST,
        warp_path(table, row, column).is_some(),
        warp_path(table, row, column).unwrap().len() >= 1,
        warp_path(table, row, column).unwrap()[0] == (0usize, 0usize),
    decreases row + column,
{
    assert(bounds[row] == unmarked() || 1 <= bounds[row].0 <= bounds[row].1 <= columns);
    assert(is_marked(bounds[row]));
    assert(visits(cells, row, column));
    assert(cell_filled(table, level, mode, accumulate, row, column));
    // a neighbour in the band, whose cost is finite
    if column > bounds[row].0 {
        lemma_linked_band_path(
            table,
            cells,
            bounds,
            columns,
            level,
            mode,
            accumulate,
            row,
            column - 1,
        );
    } else if row >= 2 {
        assert(bounds[row - 1] == unmarked() || 1 <= bounds[row - 1].0 <= bounds[row - 1].1
            <= columns);
        assert(is_marked(bounds[row - 1]));
        assert(touches(bounds[row - 1], bounds[row]));
        if column <= bounds[row - 1].1 {
            lemma_linked_band_path(
                table,
                cells,
                bounds,
                columns,
                level,
                mode,
                accumulate,
                row - 1,
                column,
            );
        } else {
            lemma_linked_band_path(
                table,
                cells,
                bounds,
                columns,
                level,
                mode,
                accumulate,
                row - 1,
                column - 1,
            );
        }
    } else {
        assert(row == 1 && column == 1);
    }
    let pick = predecessor(table, row, column);
    assert(pick.0 < INFINITE_COST);
    // the chosen neighbour has a finite cost, so it is the origin or in the band
    let (earlier_row, earlier_column) = match pick.1 {
        Action::Inserted => (row - 1, column),
        Action::Deleted => (row, column - 1),
        _ => (row - 1, column - 1),
    };
    assert(table.cost_at(earlier_row, earlier_column) == pick.0);
    if earlier_row >= 1 && earlier_column >= 1 {
        assert(visits(cells, earlier_row, earlier_column));
        lemma_linked_band_path(
            table,
            cells,
            bounds,
            columns,
            level,
            mode,
            accumulate,
            earlier_row,
            earlier_column,
        );
        let earlier = warp_path(table, earlier_row, earlier_column).unwrap();
        assert(warp_path(table, row, column).unwrap() == earlier.push(
            ((row - 1) as usize, (column - 1) as usize),
        ));
    } else {
        assert(earlier_row == 0 && earlier_column == 0);
        assert(warp_path(table, row, column).unwrap() == Seq::<(usize, usize)>::empty().push(
            ((row - 1) as usize, (column - 1) as usize),
        ));
    }
}

/// The first endpoint of an outcome over a linked band. Where the cells of
/// the window are those of a linked band and the arithmetic does not overflow,
/// the alignment has an outcome, and its path starts at the pair `(0, 0)`.
pub proof fn lemma_linked_outcome<
    A: Fn(usize, DistanceMode, usize, usize, u64) -> u64,
    R: Fn(u64) -> u64,
>(
    level: usize,
    x_size: usize,
    y_size: usize,
    cells: Seq<(usize, usize)>,
    bounds: Seq<(usize, usize)>,
    mode: DistanceMode,
    accumulate: A,
    root: R,
    outcome: Option<(u64, Seq<(usize, usize)>)>,
)
    requires
        dtw_outcome(level, x_size, y_size, cells, mode, accumulate, root, outcome),
        fills_band(cells, bounds),
        linked(bounds, x_size as int),
        bounds.len() == y_size + 1,
        stays_finite(level, mode, accumulate),
    ensures
        outcome.is_some(),
        outcome.unwrap().1.len() >= 1,
        outcome.unwrap().1[0] == (0usize, 0usize),
{
    let table = choose|table: CostTable|
        read_from(table, level, x_size, y_size, cells, mode, accumulate, root, outcome);
    assert(is_marked(bounds[y_size as int]));
    lemma_linked_band_path(
        table,
        cells,
        bounds,
        x_size as int,
        level,
        mode,
        accumulate,
        y_size as int,
        x_size as int,
    );
}

/// The first endpoint of an outcome over the full window. Where the
/// arithmetic does not overflow, the path of an alignment of series that are
/// not empty over all cells starts at the pair `(0, 0)`.
pub proof fn lemma_full_outcome<
    A: Fn(usize, DistanceMode, usize, usize, u64) -> u64,
    R: Fn(u64) -> u64,
>(
    level: usize,
    x_size: usize,
    y_size: usize,
    mode: DistanceMode,
    accumulate: A,
    root: R,
    outcome: Option<(u64, Seq<(usize, usize)>)>,
)
    requires
        dtw_outcome(
            level,
            x_size,
            y_size,
            grid_from(1, 1, y_size as int, x_size as int),
            mode,
            accumulate,
            root,
            outcome,
        ),
        1 <= x_size < usize::MAX,
        1 <= y_size < usize::MAX,
        stays_finite(level, mode, accumulate),
    ensures
        outcome.is_some(),
        outcome.unwrap().1.len() >= 1,
        outcome.unwrap().1[0] == (0usize, 0usize),
{
    lemma_full_band(y_size as int, x_size as int);
    lemma_linked_outcome(
        level,
        x_size,
        y_size,
        grid_from(1, 1, y_size as int, x_size as int),
        full_bounds(y_size as int, x_size as int),
        mode,
        accumulate,
        root,
        outcome,
    );
}

/// Symmetry of the distance. Where the local cost of two samples does not
/// depend on which of them is taken from X, and the root of a cost is one
/// value only, aligning X to Y and aligning Y to X over all cells give the
/// same distance.
pub proof fn lemma_distance_symmetric<
    A: Fn(usize, DistanceMode, usize, usize, u64) -> u64,
    B: Fn(usize, DistanceMode, usize, usize, u64) -> u64,
    R: Fn(u64) -> u64,
>(
    level: usize,
    x_size: usize,
    y_size: usize,
    mode: DistanceMode,
    accumulate: A,
    mirror: B,
    root: R,
    outcome: (u64, Seq<(usize, usize)>),
    mirror_outcome: (u64, Seq<(usize, usize)>),
)
    requires
        x_size < usize::MAX,
        y_size < usize::MAX,
        dtw_outcome(
            level,
            x_size,
            y_size,
            grid_from(1, 1, y_size as int, x_size as int),
            mode,
            accumulate,
            root,
            Some(outcome),
        ),
        dtw_outcome(
            level,
            y_size,
            x_size,
            grid_from(1, 1, x_size as int, y_size as int),
            mode,
            mirror,
            root,
            Some(mirror_outcome),
        ),
        mirrored(level, mode, accumulate, mirror),
        root_single_valued(root),
    ensures
        outcome.0 == mirror_outcome.0,
{
    let cells = grid_from(1, 1, y_size as int, x_size as int);
    let mirror_cells = grid_from(1, 1, x_size as int, y_size as int);
    let table = choose|table: CostTable|
        read_from(table, level, x_size, y_size, cells, mode, accumulate, root, Some(outcome));
    let mirror_table = choose|table: CostTable|
        read_from(
            table,
            level,
            y_size,
            x_size,
            mirror_cells,
            mode,
            mirror,
            root,
            Some(mirror_outcome),
        );
    lemma_grid_covers(y_size as int, x_size as int);
    lemma_grid_covers(x_size as int, y_size as int);
    lemma_symmetry(
        table,
        mirror_table,
        cells,
        mirror_cells,
        x_size as int,
        y_size as int,
        level,
        mode,
        accumulate,
        mirror,
        y_size as int,
        x_size as int,
    );
}

/// Identity of an outcome. Where the cells on the diagonal cost nothing on
/// top of a predecessor that cost nothing, and the root of 0 is 0, as when a
/// series is aligned to itself, the distance is 0 and the path is the
/// diagonal.
pub proof fn lemma_identity_outcome<
    A: Fn(usize, DistanceMode, usize, usize, u64) -> u64,
    R: Fn(u64) -> u64,
>(
    level: usize,
    size: usize,
    mode: DistanceMode,
    accumulate: A,
    root: R,
    outcome: (u64, Seq<(usize, usize)>),
)
    requires
        size < usize::MAX,
        dtw_outcome(
            level,
            size,
            size,
            grid_from(1, 1, size as int, size as int),
            mode,
            accumulate,
            root,
            Some(outcome),
        ),
        forall|row: usize, cost: u64|
            1 <= row <= size && #[trigger] call_ensures(
                accumulate,
                (level, mode, row, row, 0u64),
                cost,
            ) ==> cost == 0,
        forall|distance: u64| #[trigger] call_ensures(root, (0u64,), distance) ==> distance == 0,
    ensures
        outcome.0 == 0,
        outcome.1 == diagonal(size as int),
{
    let cells = grid_from(1, 1, size as int, size as int);
    let table = choose|table: CostTable|
        read_from(table, level, size, size, cells, mode, accumulate, root, Some(outcome));
    lemma_grid_covers(size as int, size as int);
    lemma_identity(table, cells, size as int, level, mode, accumulate, size as int);
}

} // verus!
