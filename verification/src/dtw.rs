//! The dynamic-programming engine: it fills the cost table over the cells that
//! a window hands out and reads the warp path back from the recorded actions.
//!
//! The samples stay with the caller. The engine asks for the arithmetic through
//! two functions: `accumulate(level, mode, row, column, predecessor)` gives the
//! accumulated cost of a cell, that is the local cost between sample
//! `column - 1` of X and sample `row - 1` of Y under `mode`, plus the cost of
//! the chosen predecessor; `root(cost)` gives the square root of a cost. The
//! level tells at which resolution the samples are meant: 0 for the series as
//! given, one more for each coarsening.
use crate::arrays::{pairs_fit, PairArray};
use crate::cells::{grid_from, precedes, row_major, visits, within_table};
use crate::cost::{cost_storage, table_fits, CostStorage, CostTable, StorageConfig, INFINITE_COST};
use crate::enums::{Action, DistanceMode};
use crate::laws::{
    covers, keeps_infinity, lemma_covered_outcome, lemma_full_outcome, lemma_grid_covers,
    lemma_outcome_path, path_shaped, root_keeps_infinity, stays_finite,
};
use crate::window::{FullWindow, Window};
use vstd::prelude::*;

verus! {

/// The predecessor that a cell builds on, with its cost: insertion if it is
/// not above deletion and strictly below match; else deletion if it is
/// strictly below both; else match.
pub open spec fn chosen(insertion: u64, deletion: u64, matching: u64) -> (u64, Action) {
    if insertion <= deletion && insertion < matching {
        (insertion, Action::Inserted)
    } else if deletion < insertion && deletion < matching {
        (deletion, Action::Deleted)
    } else {
        (matching, Action::Matched)
    }
}

/// Finds the minimum of the costs of the three cells that a cell can build on.
///
/// * `insertion` - the cost of the cell above
/// * `deletion` - the cost of the cell to the left
/// * `matching` - the cost of the cell above and to the left
///
/// Returns the minimum and the action that names the cell it was found in.
pub fn minimum(insertion: u64, deletion: u64, matching: u64) -> (pick: (u64, Action))
    ensures
        pick == chosen(insertion, deletion, matching),
        pick.0 <= insertion && pick.0 <= deletion && pick.0 <= matching,
        pick.1 != Action::Unknown,
{
    if deletion < insertion {
        if deletion < matching {
            return (deletion, Action::Deleted);
        }
    } else if insertion < matching {
        return (insertion, Action::Inserted);
    }
    (matching, Action::Matched)
}

/// The predecessor that the table makes the cell build on, with its cost.
pub open spec fn predecessor(table: CostTable, row: int, column: int) -> (u64, Action) {
    chosen(
        table.cost_at(row - 1, column),
        table.cost_at(row, column - 1),
        table.cost_at(row - 1, column - 1),
    )
}

/// Whether the table holds at the cell what the recurrence gives: the action
/// names the chosen predecessor, and the cost is one that `accumulate` gives
/// for the cell on top of the predecessor's cost.
pub open spec fn cell_filled<A: Fn(usize, DistanceMode, usize, usize, u64) -> u64>(
    table: CostTable,
    level: usize,
    mode: DistanceMode,
    accumulate: A,
    row: int,
    column: int,
) -> bool {
    &&& table.action_at(row, column) == predecessor(table, row, column).1
    &&& call_ensures(
        accumulate,
        (level, mode, row as usize, column as usize, predecessor(table, row, column).0),
        table.cost_at(row, column),
    )
}

/// Whether the table is what the engine leaves after it has worked through
/// `cells`: every cell handed out holds what the recurrence gives, and nothing
/// is written anywhere else.
pub open spec fn filled<A: Fn(usize, DistanceMode, usize, usize, u64) -> u64>(
    table: CostTable,
    cells: Seq<(usize, usize)>,
    level: usize,
    mode: DistanceMode,
    accumulate: A,
) -> bool {
    forall|row: int, column: int|
        #![trigger visits(cells, row, column)]
        1 <= row && 1 <= column ==> if visits(cells, row, column) {
            cell_filled(table, level, mode, accumulate, row, column)
        } else {
            table.cells[(row, column)] == (INFINITE_COST, Action::Unknown)
        }
}

/// The warp path that the actions of the table lead along, from the first
/// pair to the cell `(row, column)`, in 0-based pairs `(y index, x index)`;
/// `None` if the way back meets a cell without an action.
pub open spec fn warp_path(table: CostTable, row: int, column: int) -> Option<Seq<(usize, usize)>>
    decreases row + column,
{
    if row <= 0 || column <= 0 {
        Some(Seq::empty())
    } else {
        let earlier = match table.action_at(row, column) {
            Action::Inserted => warp_path(table, row - 1, column),
            Action::Deleted => warp_path(table, row, column - 1),
            Action::Matched => warp_path(table, row - 1, column - 1),
            Action::Unknown => None,
        };
        match earlier {
            Some(path) => Some(path.push(((row - 1) as usize, (column - 1) as usize))),
            None => None,
        }
    }
}

/// Whether `distance` is the distance that belongs to the accumulated `cost`:
/// the cost itself under Manhattan, a root of it under Euclidean.
pub open spec fn distance_of<R: Fn(u64) -> u64>(
    mode: DistanceMode,
    root: R,
    cost: u64,
    distance: u64,
) -> bool {
    match mode {
        DistanceMode::Manhattan => distance == cost,
        DistanceMode::Euclidean => call_ensures(root, (cost,), distance),
    }
}

/// What a result holds, the path as a sequence.
pub open spec fn outcome_of(result: Option<(u64, PairArray)>) -> Option<
    (u64, Seq<(usize, usize)>),
> {
    match result {
        Some((distance, path)) => Some((distance, path@)),
        None => None,
    }
}

/// Whether `table` is the table of the alignment and `outcome` what is read
/// from it: the distance that belongs to the cost of the last cell, and the
/// warp path that ends there; no outcome if there is no such path.
pub open spec fn read_from<
    A: Fn(usize, DistanceMode, usize, usize, u64) -> u64,
    R: Fn(u64) -> u64,
>(
    table: CostTable,
    level: usize,
    x_size: usize,
    y_size: usize,
    cells: Seq<(usize, usize)>,
    mode: DistanceMode,
    accumulate: A,
    root: R,
    outcome: Option<(u64, Seq<(usize, usize)>)>,
) -> bool {
    &&& filled(table, cells, level, mode, accumulate)
    &&& match outcome {
        Some((distance, path)) => {
            &&& warp_path(table, y_size as int, x_size as int) == Some(path)
            &&& distance_of(mode, root, table.cost_at(y_size as int, x_size as int), distance)
        },
        None => warp_path(table, y_size as int, x_size as int).is_none(),
    }
}

/// Whether `outcome` is an outcome of aligning a series X of `x_size` samples
/// to a series Y of `y_size` samples over the cells of a window: there is a
/// table that the recurrence fills over those cells, and the outcome is read
/// from it.
pub open spec fn dtw_outcome<
    A: Fn(usize, DistanceMode, usize, usize, u64) -> u64,
    R: Fn(u64) -> u64,
>(
    level: usize,
    x_size: usize,
    y_size: usize,
    cells: Seq<(usize, usize)>,
    mode: DistanceMode,
    accumulate: A,
    root: R,
    outcome: Option<(u64, Seq<(usize, usize)>)>,
) -> bool {
    exists|table: CostTable|
        read_from(table, level, x_size, y_size, cells, mode, accumulate, root, outcome)
}

/// Whether the two functions may be called for every cell of the table at
/// the given level.
pub open spec fn arithmetic_defined<
    A: Fn(usize, DistanceMode, usize, usize, u64) -> u64,
    R: Fn(u64) -> u64,
>(level: usize, mode: DistanceMode, x_size: usize, y_size: usize, accumulate: A, root: R) -> bool {
    &&& forall|row: usize, column: usize, cost: u64|
        1 <= row <= y_size && 1 <= column <= x_size ==> call_requires(
            accumulate,
            (level, mode, row, column, cost),
        )
    &&& forall|cost: u64| call_requires(root, (cost,))
}

/// Whether series of these lengths can be aligned on this machine: the
/// storages and the path, of at most `x_size + y_size` pairs, can be allocated.
pub open spec fn sizes_fit(x_size: int, y_size: int) -> bool {
    &&& table_fits(y_size, x_size)
    &&& pairs_fit(x_size + y_size + 1)
}

/// Tells whether series of these lengths can be aligned on this machine.
pub fn can_align(x_size: usize, y_size: usize) -> (fit: bool)
    ensures
        fit == sizes_fit(x_size as int, y_size as int),
{
    let limit = isize::MAX as usize;
    x_size <= limit && y_size <= limit / 64 && x_size <= limit / 16 && y_size < limit / 16
        - x_size
}

/// Writing one more cell, which comes after all cells written so far, keeps
/// the table filled.
proof fn lemma_fill_step<A: Fn(usize, DistanceMode, usize, usize, u64) -> u64>(
    table: CostTable,
    done: Seq<(usize, usize)>,
    cell: (usize, usize),
    level: usize,
    mode: DistanceMode,
    accumulate: A,
    cost: u64,
)
    requires
        filled(table, done, level, mode, accumulate),
        forall|i: int| 0 <= i < done.len() ==> precedes(#[trigger] done[i], cell),
        1 <= cell.0,
        1 <= cell.1,
        call_ensures(
            accumulate,
            (level, mode, cell.0, cell.1, predecessor(table, cell.0 as int, cell.1 as int).0),
            cost,
        ),
    ensures
        filled(
            table.with_cost(cell.0 as int, cell.1 as int, cost).with_action(
                cell.0 as int,
                cell.1 as int,
                predecessor(table, cell.0 as int, cell.1 as int).1,
            ),
            done.push(cell),
            level,
            mode,
            accumulate,
        ),
{
    let pick = predecessor(table, cell.0 as int, cell.1 as int);
    let after = table.with_cost(cell.0 as int, cell.1 as int, cost).with_action(
        cell.0 as int,
        cell.1 as int,
        pick.1,
    );
    let extended = done.push(cell);
    assert forall|row: int, column: int|
        #![trigger visits(extended, row, column)]
        1 <= row && 1 <= column implies if visits(extended, row, column) {
        cell_filled(after, level, mode, accumulate, row, column)
    } else {
        after.cells[(row, column)] == (INFINITE_COST, Action::Unknown)
    } by {
        let _ = visits(done, row, column);
        if row == cell.0 && column == cell.1 {
            assert(extended[done.len() as int] == cell);
            assert(visits(extended, row, column));
            assert(predecessor(after, row, column) == pick);
        } else if visits(done, row, column) {
            let i = choose|i: int|
                0 <= i < done.len() && (#[trigger] done[i]).0 == row && done[i].1 == column;
            assert(extended[i] == done[i]);
            assert(visits(extended, row, column));
            assert(precedes(done[i], cell));
            assert(predecessor(after, row, column) == predecessor(table, row, column));
        } else {
            if visits(extended, row, column) {
                let i = choose|i: int|
                    0 <= i < extended.len() && (#[trigger] extended[i]).0 == row && extended[i].1
                        == column;
                if i < done.len() {
                    assert(done[i] == extended[i]);
                }
            }
        }
    }
}

/// Fills the storage over the cells of the window, in the order in which the
/// window hands them out.
fn fill<S: CostStorage, W: Window, A: Fn(usize, DistanceMode, usize, usize, u64) -> u64>(
    storage: &mut S,
    window: W,
    level: usize,
    mode: DistanceMode,
    accumulate: &A,
)
    requires
        old(storage).wf(),
        old(storage).table() == CostTable::blank(),
        window.wf(),
        window.rows() <= old(storage).rows(),
        window.columns() <= old(storage).columns(),
        forall|row: usize, column: usize, cost: u64|
            1 <= row <= window.rows() && 1 <= column <= window.columns() ==> call_requires(
                *accumulate,
                (level, mode, row, column, cost),
            ),
    ensures
        final(storage).wf(),
        final(storage).rows() == old(storage).rows(),
        final(storage).columns() == old(storage).columns(),
        filled(final(storage).table(), window.remaining(), level, mode, *accumulate),
{
    let ghost all = window.remaining();
    let ghost rows = window.rows();
    let ghost columns = window.columns();
    let ghost mut done = Seq::<(usize, usize)>::empty();
    let mut window = window;
    proof {
        window.lemma_remaining();
        assert(all =~= done + window.remaining());
        assert forall|row: int, column: int|
            #![trigger visits(done, row, column)]
            1 <= row && 1 <= column implies if visits(done, row, column) {
            cell_filled(storage.table(), level, mode, *accumulate, row, column)
        } else {
            storage.table().cells[(row, column)] == (INFINITE_COST, Action::Unknown)
        } by {}
    }
    let mut next = window.next();
    proof {
        if next.is_some() {
            assert(all =~= done + (seq![next.unwrap()] + window.remaining()));
        }
    }
    while next.is_some()
        invariant
            storage.wf(),
            storage.rows() == old(storage).rows(),
            storage.columns() == old(storage).columns(),
            window.wf(),
            window.rows() == rows,
            window.columns() == columns,
            rows <= storage.rows(),
            columns <= storage.columns(),
            row_major(all),
            within_table(all, rows, columns),
            forall|row: usize, column: usize, cost: u64|
                1 <= row <= rows && 1 <= column <= columns ==> call_requires(
                    *accumulate,
                    (level, mode, row, column, cost),
                ),
            match next {
                Some(cell) => all == done + (seq![cell] + window.remaining()),
                None => all == done,
            },
            filled(storage.table(), done, level, mode, *accumulate),
        decreases
                window.remaining().len() + if next.is_some() {
                    1nat
                } else {
                    0nat
                },
    {
        let (row, column) = next.unwrap();
        proof {
            assert(all[done.len() as int] == (row, column));
            assert forall|i: int| 0 <= i < done.len() implies precedes(
                #[trigger] done[i],
                (row, column),
            ) by {
                assert(all[i] == done[i]);
            }
        }
        let (value, action) = minimum(
            storage.get_cost(row - 1, column),
            storage.get_cost(row, column - 1),
            storage.get_cost(row - 1, column - 1),
        );
        let cost = accumulate(level, mode, row, column, value);
        let ghost before = storage.table();
        storage.set_cost(row, column, cost);
        storage.set_action(row, column, action);
        proof {
            lemma_fill_step(before, done, (row, column), level, mode, *accumulate, cost);
            done = done.push((row, column));
        }
        next = window.next();
        proof {
            match next {
                Some(cell) => {
                    assert(all =~= done + (seq![cell] + window.remaining()));
                },
                None => {
                    assert(all =~= done);
                },
            }
        }
    }
}

/// Reads the warp path back from the actions of the storage: from the last
/// cell it follows each action to the cell that it names, until it reaches the
/// boundary, and then turns the pairs round.
fn backtrack<S: CostStorage>(storage: &S, x_size: usize, y_size: usize) -> (path: Option<PairArray>)
    requires
        storage.wf(),
        y_size <= storage.rows(),
        x_size <= storage.columns(),
        pairs_fit(x_size + y_size),
    ensures
        match warp_path(storage.table(), y_size as int, x_size as int) {
            Some(expected) => path matches Some(found) && found@ == expected,
            None => path.is_none(),
        },
{
    let ghost table = storage.table();
    let mut path = PairArray::filled(x_size + y_size, (0, 0));
    let mut path_len: usize = 0;
    let mut row = y_size;
    let mut column = x_size;
    while row != 0 && column != 0
        invariant
            storage.wf(),
            table == storage.table(),
            row <= y_size <= storage.rows(),
            column <= x_size <= storage.columns(),
            pairs_fit(x_size + y_size),
            path@.len() == x_size + y_size,
            path_len + row + column <= x_size + y_size,
            warp_path(table, y_size as int, x_size as int) == match warp_path(
                table,
                row as int,
                column as int,
            ) {
                Some(earlier) => Some(earlier + path@.subrange(0, path_len as int).reverse()),
                None => None,
            },
        decreases row + column,
    {
        let ghost taken = path@.subrange(0, path_len as int);
        path.set(path_len, (row - 1, column - 1));
        let ghost cell = (row, column);
        match storage.get_action(row, column) {
            Action::Inserted => {
                row -= 1;
            },
            Action::Deleted => {
                column -= 1;
            },
            Action::Matched => {
                row -= 1;
                column -= 1;
            },
            Action::Unknown => {
                return None;
            },
        }
        path_len += 1;
        proof {
            let last = ((cell.0 - 1) as usize, (cell.1 - 1) as usize);
            let grown = path@.subrange(0, path_len as int);
            assert(grown =~= taken.push(last));
            assert(grown.reverse() =~= seq![last] + taken.reverse());
            match warp_path(table, row as int, column as int) {
                Some(earlier) => {
                    assert(earlier.push(last) + taken.reverse() =~= earlier + grown.reverse());
                },
                None => {},
            }
        }
    }
    proof {
        assert(Seq::<(usize, usize)>::empty() + path@.subrange(0, path_len as int).reverse()
            =~= path@.subrange(0, path_len as int).reverse());
    }
    Some(path.reversed_prefix(path_len))
}

/// Aligns the series at the given level over the cells of the window.
pub(crate) fn align<
    W: Window,
    A: Fn(usize, DistanceMode, usize, usize, u64) -> u64,
    R: Fn(u64) -> u64,
>(
    level: usize,
    x_size: usize,
    y_size: usize,
    window: W,
    distance_mode: DistanceMode,
    accumulate: &A,
    root: &R,
    config: &StorageConfig,
) -> (result: Option<(u64, PairArray)>)
    requires
        window.wf(),
        window.rows() == y_size,
        window.columns() == x_size,
        sizes_fit(x_size as int, y_size as int),
        arithmetic_defined(level, distance_mode, x_size, y_size, *accumulate, *root),
    ensures
        dtw_outcome(
            level,
            x_size,
            y_size,
            window.remaining(),
            distance_mode,
            *accumulate,
            *root,
            outcome_of(result),
        ),
{
    let mut storage = cost_storage(y_size, x_size, config);
    fill(&mut storage, window, level, distance_mode, accumulate);
    let cost = storage.get_cost(y_size, x_size);
    let distance = match distance_mode {
        DistanceMode::Manhattan => cost,
        DistanceMode::Euclidean => root(cost),
    };
    let result = match backtrack(&storage, x_size, y_size) {
        Some(path) => Some((distance, path)),
        None => None,
    };
    assert(read_from(
        storage.table(),
        level,
        x_size,
        y_size,
        window.remaining(),
        distance_mode,
        *accumulate,
        *root,
        outcome_of(result),
    ));
    result
}

/// Aligns a series X of `x_size` samples to a series Y of `y_size` samples
/// over the cells that `window` hands out. Returns the distance and the warp
/// path, or `None` where the way back from the last cell meets a cell that
/// the window has not handed out.
pub fn dtw_ex<
    W: Window,
    A: Fn(usize, DistanceMode, usize, usize, u64) -> u64,
    R: Fn(u64) -> u64,
>(
    x_size: usize,
    y_size: usize,
    window: W,
    distance_mode: DistanceMode,
    accumulate: &A,
    root: &R,
    config: &StorageConfig,
) -> (result: Option<(u64, PairArray)>)
    requires
        window.wf(),
        window.rows() == y_size,
        window.columns() == x_size,
        sizes_fit(x_size as int, y_size as int),
        arithmetic_defined(0, distance_mode, x_size, y_size, *accumulate, *root),
    ensures
        dtw_outcome(
            0,
            x_size,
            y_size,
            window.remaining(),
            distance_mode,
            *accumulate,
            *root,
            outcome_of(result),
        ),
        covers(window.remaining(), y_size as int, x_size as int) ==> result.is_some(),
        result matches Some((distance, path)) ==> {
            &&& path_shaped(x_size, y_size, path@)
            &&& x_size >= 1 && y_size >= 1 && distance < INFINITE_COST && keeps_infinity(
                0,
                distance_mode,
                *accumulate,
            ) && root_keeps_infinity(*root) ==> path@[0] == (0usize, 0usize)
        },
{
    let result = align(0, x_size, y_size, window, distance_mode, accumulate, root, config);
    proof {
        if covers(window.remaining(), y_size as int, x_size as int) {
            lemma_covered_outcome(
                0,
                x_size,
                y_size,
                window.remaining(),
                distance_mode,
                *accumulate,
                *root,
                outcome_of(result),
            );
        }
        if let Some(outcome) = outcome_of(result) {
            lemma_outcome_path(
                0,
                x_size,
                y_size,
                window.remaining(),
                distance_mode,
                *accumulate,
                *root,
                outcome.0,
                outcome.1,
            );
        }
    }
    result
}

/// Aligns a series X of `x_size` samples to a series Y of `y_size` samples
/// over all cells of the table, under the Euclidean mode. Returns the distance
/// and the warp path.
pub fn dtw<A: Fn(usize, DistanceMode, usize, usize, u64) -> u64, R: Fn(u64) -> u64>(
    x_size: usize,
    y_size: usize,
    accumulate: &A,
    root: &R,
    config: &StorageConfig,
) -> (result: (u64, PairArray))
    requires
        sizes_fit(x_size as int, y_size as int),
        arithmetic_defined(0, DistanceMode::Euclidean, x_size, y_size, *accumulate, *root),
    ensures
        dtw_outcome(
            0,
            x_size,
            y_size,
            grid_from(1, 1, y_size as int, x_size as int),
            DistanceMode::Euclidean,
            *accumulate,
            *root,
            Some((result.0, result.1@)),
        ),
        path_shaped(x_size, y_size, result.1@),
        x_size >= 1 && y_size >= 1 && result.0 < INFINITE_COST && keeps_infinity(
            0,
            DistanceMode::Euclidean,
            *accumulate,
        ) && root_keeps_infinity(*root) ==> result.1@[0] == (0usize, 0usize),
        x_size >= 1 && y_size >= 1 && stays_finite(0, DistanceMode::Euclidean, *accumulate)
            ==> result.1@[0] == (0usize, 0usize),
{
    let window = FullWindow::new(y_size, x_size);
    proof {
        lemma_grid_covers(y_size as int, x_size as int);
    }
    match dtw_ex(x_size, y_size, window, DistanceMode::Euclidean, accumulate, root, config) {
        Some(found) => {
            proof {
                if x_size >= 1 && y_size >= 1 && stays_finite(
                    0,
                    DistanceMode::Euclidean,
                    *accumulate,
                ) {
                    lemma_full_outcome(
                        0,
                        x_size,
                        y_size,
                        DistanceMode::Euclidean,
                        *accumulate,
                        *root,
                        Some((found.0, found.1@)),
                    );
                }
            }
            found
        },
        None => vstd::pervasive::unreached(),
    }
}

} // verus!

