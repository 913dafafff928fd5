//! Why the warp path that the engine reads back is an optimal one: no path
//! through cells of the window accumulates less on its way to the last cell.
use crate::cells::visits;
use crate::cost::CostTable;
use crate::dtw::{cell_filled, distance_of, dtw_outcome, filled, predecessor, read_from, warp_path};
use crate::enums::{Action, DistanceMode};
use crate::laws::{is_step, lemma_warp_path_shape, steps_forward};
use vstd::prelude::*;

verus! {

/// Whether `accumulate` gives no less on top of a predecessor that cost no
/// less; in particular it gives one cost only on top of one predecessor.
pub open spec fn monotone<A: Fn(usize, DistanceMode, usize, usize, u64) -> u64>(
    level: usize,
    mode: DistanceMode,
    accumulate: A,
) -> bool {
    forall|row: usize, column: usize, low: u64, high: u64, less: u64, more: u64|
        low <= high && #[trigger] call_ensures(accumulate, (level, mode, row, column, low), less)
            && #[trigger] call_ensures(accumulate, (level, mode, row, column, high), more)
            ==> less <= more
}

/// Whether `costs` are what accumulates along the path, pair by pair: the
/// first cost on top of nothing, each later one on top of the cost before it.
#[verifier::opaque]
pub open spec fn accumulates<A: Fn(usize, DistanceMode, usize, usize, u64) -> u64>(
    level: usize,
    mode: DistanceMode,
    accumulate: A,
    path: Seq<(usize, usize)>,
    costs: Seq<u64>,
) -> bool {
    &&& costs.len() == path.len()
    &&& forall|i: int|
        0 <= i < path.len() ==> call_ensures(
            accumulate,
            (
                level,
                mode,
                (path[i].0 + 1) as usize,
                (path[i].1 + 1) as usize,
                if i == 0 {
                    0u64
                } else {
                    costs[i - 1]
                },
            ),
            #[trigger] costs[i],
        )
}

/// Whether the path is a warp path from the pair `(0, 0)` through cells of
/// the window.
#[verifier::opaque]
pub open spec fn runs_through(path: Seq<(usize, usize)>, cells: Seq<(usize, usize)>) -> bool {
    &&& path.len() >= 1
    &&& path[0] == (0usize, 0usize)
    &&& steps_forward(path)
    &&& forall|i: int|
        0 <= i < path.len() ==> (#[trigger] path[i]).0 < usize::MAX && path[i].1 < usize::MAX
            && visits(cells, path[i].0 + 1, path[i].1 + 1)
}

/// The costs that the table holds along the path.
pub open spec fn costs_along(table: CostTable, path: Seq<(usize, usize)>) -> Seq<u64> {
    Seq::new(path.len(), |i: int| table.cost_at(path[i].0 + 1, path[i].1 + 1))
}

/// No path is cheaper than the table says. Where the table is filled over the
/// cells of a window, the cost that it holds for a cell on a warp path through
/// cells of the window is at most what accumulates along the path up to there.
pub proof fn lemma_table_is_a_lower_bound<A: Fn(usize, DistanceMode, usize, usize, u64) -> u64>(
    table: CostTable,
    cells: Seq<(usize, usize)>,
    level: usize,
    mode: DistanceMode,
    accumulate: A,
    path: Seq<(usize, usize)>,
    costs: Seq<u64>,
    index: int,
)
    requires
        filled(table, cells, level, mode, accumulate),
        monotone(level, mode, accumulate),
        runs_through(path, cells),
        accumulates(level, mode, accumulate, path, costs),
        0 <= index < path.len(),
    ensures
        table.cost_at(path[index].0 + 1, path[index].1 + 1) <= costs[index],
    decreases index,
{
    reveal(accumulates);
    reveal(runs_through);
    let row = path[index].0 + 1;
    let column = path[index].1 + 1;
    assert(visits(cells, row, column));
    assert(cell_filled(table, level, mode, accumulate, row, column));
    let pick = predecessor(table, row, column);
    let _ = costs[index];
    if index == 0 {
        assert(pick.0 == 0);
    } else {
        lemma_table_is_a_lower_bound(
            table,
            cells,
            level,
            mode,
            accumulate,
            path,
            costs,
            index - 1,
        );
        assert(is_step(path[index - 1], path[index - 1 + 1]));
        assert(pick.0 <= table.cost_at(path[index - 1].0 + 1, path[index - 1].1 + 1));
    }
}

/// One more pair, with what accumulates at it, extends what accumulates
/// along a path.
proof fn lemma_accumulates_push<A: Fn(usize, DistanceMode, usize, usize, u64) -> u64>(
    level: usize,
    mode: DistanceMode,
    accumulate: A,
    path: Seq<(usize, usize)>,
    costs: Seq<u64>,
    pair: (usize, usize),
    cost: u64,
)
    requires
        accumulates(level, mode, accumulate, path, costs),
        call_ensures(
            accumulate,
            (
                level,
                mode,
                (pair.0 + 1) as usize,
                (pair.1 + 1) as usize,
                if path.len() == 0 {
                    0u64
                } else {
                    costs.last()
                },
            ),
            cost,
        ),
    ensures
        accumulates(level, mode, accumulate, path.push(pair), costs.push(cost)),
{
    reveal(accumulates);
    let longer = path.push(pair);
    let more = costs.push(cost);
    assert forall|i: int| 0 <= i < longer.len() implies call_ensures(
        accumulate,
        (
            level,
            mode,
            (longer[i].0 + 1) as usize,
            (longer[i].1 + 1) as usize,
            if i == 0 {
                0u64
            } else {
                more[i - 1]
            },
        ),
        #[trigger] more[i],
    ) by {
        if i < path.len() {
            assert(longer[i] == path[i]);
            assert(more[i] == costs[i]);
            if i > 0 {
                assert(more[i - 1] == costs[i - 1]);
            }
        }
    }
}

/// One more pair, a step on from the last one and in a cell of the window,
/// extends a warp path through cells of the window.
proof fn lemma_runs_through_push(
    path: Seq<(usize, usize)>,
    cells: Seq<(usize, usize)>,
    pair: (usize, usize),
)
    requires
        path.len() == 0 || (runs_through(path, cells) && is_step(path.last(), pair)),
        path.len() == 0 ==> pair == (0usize, 0usize),
        pair.0 < usize::MAX,
        pair.1 < usize::MAX,
        visits(cells, pair.0 + 1, pair.1 + 1),
    ensures
        runs_through(path.push(pair), cells),
{
    reveal(runs_through);
    let longer = path.push(pair);
    assert forall|i: int, j: int| 0 <= i && j == i + 1 && j < longer.len() implies is_step(
        #[trigger] longer[i],
        #[trigger] longer[j],
    ) by {
        if j < path.len() {
            assert(is_step(path[i], path[j]));
        }
    }
    assert forall|i: int| 0 <= i < longer.len() implies (#[trigger] longer[i]).0 < usize::MAX
        && longer[i].1 < usize::MAX && visits(cells, longer[i].0 + 1, longer[i].1 + 1) by {
        if i < path.len() {
            assert(longer[i] == path[i]);
        }
    }
}

/// What the table holds at a cell that has an action: the cell is one of the
/// window, and its cost is one that accumulates on top of the cost of the
/// cell that the action names.
proof fn lemma_cell_with_action<A: Fn(usize, DistanceMode, usize, usize, u64) -> u64>(
    table: CostTable,
    cells: Seq<(usize, usize)>,
    level: usize,
    mode: DistanceMode,
    accumulate: A,
    row: int,
    column: int,
)
    requires
        filled(table, cells, level, mode, accumulate),
        1 <= row,
        1 <= column,
        table.action_at(row, column) != Action::Unknown,
    ensures
        visits(cells, row, column),
        table.action_at(row, column) == predecessor(table, row, column).1,
        call_ensures(
            accumulate,
            (level, mode, row as usize, column as usize, predecessor(table, row, column).0),
            table.cost_at(row, column),
        ),
        row == 1 && column == 1 ==> predecessor(table, row, column) == (0u64, Action::Matched),
{
    assert(visits(cells, row, column));
    assert(cell_filled(table, level, mode, accumulate, row, column));
}

/// The warp path of the table attains what the table says. Where the warp
/// path to a cell starts at the pair `(0, 0)`, the costs that the table holds
/// along it are what accumulates along it.
pub proof fn lemma_warp_path_accumulates<A: Fn(usize, DistanceMode, usize, usize, u64) -> u64>(
    table: CostTable,
    cells: Seq<(usize, usize)>,
    level: usize,
    mode: DistanceMode,
    accumulate: A,
    row: int,
    column: int,
)
    requires
        filled(table, cells, level, mode, accumulate),
        1 <= row <= usize::MAX,
        1 <= column <= usize::MAX,
        warp_path(table, row, column).is_some(),
        warp_path(table, row, column).unwrap()[0] == (0usize, 0usize),
    ensures
        accumulates(
            level,
            mode,
            accumulate,
            warp_path(table, row, column).unwrap(),
            costs_along(table, warp_path(table, row, column).unwrap()),
        ),
        runs_through(warp_path(table, row, column).unwrap(), cells),
        warp_path(table, row, column).unwrap().last() == ((row - 1) as usize, (column - 1) as usize),
    decreases row + column,
{
    let path = warp_path(table, row, column).unwrap();
    lemma_cell_with_action(table, cells, level, mode, accumulate, row, column);
    let (earlier_row, earlier_column) = match table.action_at(row, column) {
        Action::Inserted => (row - 1, column),
        Action::Deleted => (row, column - 1),
        _ => (row - 1, column - 1),
    };
    let earlier = warp_path(table, earlier_row, earlier_column).unwrap();
    let last = ((row - 1) as usize, (column - 1) as usize);
    let cost = table.cost_at(row, column);
    assert(path == earlier.push(last));
    assert(costs_along(table, path) =~= costs_along(table, earlier).push(cost));
    assert(table.cost_at(earlier_row, earlier_column) == predecessor(table, row, column).0);
    if earlier_row >= 1 && earlier_column >= 1 {
        lemma_warp_path_shape(table, earlier_row, earlier_column);
        assert(earlier[0] == path[0]);
        lemma_warp_path_accumulates(
            table,
            cells,
            level,
            mode,
            accumulate,
            earlier_row,
            earlier_column,
        );
        assert(costs_along(table, earlier).last() == table.cost_at(earlier_row, earlier_column));
        assert(is_step(earlier.last(), last));
    } else {
        assert(earlier.len() == 0);
        assert(path[0] == last);
        assert(accumulates(level, mode, accumulate, earlier, costs_along(table, earlier))) by {
            reveal(accumulates);
        }
    }
    lemma_accumulates_push(
        level,
        mode,
        accumulate,
        earlier,
        costs_along(table, earlier),
        last,
        cost,
    );
    lemma_runs_through_push(earlier, cells, last);
}

/// The outcome of an alignment is optimal. Where `accumulate` is monotone and
/// the path of the outcome starts at the pair `(0, 0)`, the distance belongs
/// to a cost that accumulates along the path of the outcome, and that is at
/// most what accumulates along any rival: any warp path from the pair
/// `(0, 0)` to the pair of the last samples through cells of the window.
pub proof fn lemma_outcome_is_optimal<
    A: Fn(usize, DistanceMode, usize, usize, u64) -> u64,
    R: Fn(u64) -> u64,
>(
    level: usize,
    x_size: usize,
    y_size: usize,
    cells: Seq<(usize, usize)>,
    mode: DistanceMode,
    accumulate: A,
    root: R,
    distance: u64,
    path: Seq<(usize, usize)>,
    rival: Seq<(usize, usize)>,
    rival_costs: Seq<u64>,
)
    requires
        dtw_outcome(level, x_size, y_size, cells, mode, accumulate, root, Some((distance, path))),
        1 <= x_size,
        1 <= y_size,
        path.len() >= 1,
        path[0] == (0usize, 0usize),
        monotone(level, mode, accumulate),
        runs_through(rival, cells),
        rival.last() == ((y_size - 1) as usize, (x_size - 1) as usize),
        accumulates(level, mode, accumulate, rival, rival_costs),
    ensures
        exists|costs: Seq<u64>|
            {
                &&& #[trigger] accumulates(level, mode, accumulate, path, costs)
                &&& distance_of(mode, root, costs.last(), distance)
                &&& costs.last() <= rival_costs.last()
            },
        runs_through(path, cells),
{
    let table = choose|table: CostTable|
        read_from(
            table,
            level,
            x_size,
            y_size,
            cells,
            mode,
            accumulate,
            root,
            Some((distance, path)),
        );
    lemma_warp_path_accumulates(
        table,
        cells,
        level,
        mode,
        accumulate,
        y_size as int,
        x_size as int,
    );
    assert(rival.len() >= 1 && rival_costs.len() == rival.len()) by {
        reveal(runs_through);
        reveal(accumulates);
    }
    lemma_table_is_a_lower_bound(
        table,
        cells,
        level,
        mode,
        accumulate,
        rival,
        rival_costs,
        rival.len() - 1,
    );
    let costs = costs_along(table, path);
    assert(costs.last() == table.cost_at(y_size as int, x_size as int));
    assert(accumulates(level, mode, accumulate, path, costs));
}

} // verus!
