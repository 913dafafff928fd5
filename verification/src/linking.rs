//! Why the band that a warp path projects to is linked: the blocks of
//! consecutive pairs of the path touch, and the expansion by the search radius
//! keeps rows in touch.
use crate::band::{linked, touches};
use crate::laws::{is_step, steps_forward};
use crate::projection::{
    band_valid, block, expanded_left, expanded_right, gather_left, gather_right, half,
    is_diagonal, is_marked, lower_patch, mark, projected, projection, reach_left, reach_right,
    rows_above, rows_below, unmarked, upper_patch, widen, Patch,
};
use vstd::math::{max, min};
use vstd::prelude::*;

verus! {

/// Whether the bounds are those of a band that is linked as far as it goes:
/// it has been projected up to the block whose rows start after `row_base`
/// and whose columns start after `column_base`.
pub open spec fn linked_so_far(
    bounds: Seq<(usize, usize)>,
    row_base: int,
    column_base: int,
    factor: int,
    rows: int,
    columns: int,
) -> bool {
    let last = min(row_base + factor, rows);
    &&& bounds.len() == rows + 1
    &&& band_valid(bounds, columns)
    &&& columns < usize::MAX
    &&& factor >= 1
    &&& 0 <= row_base < rows
    &&& 0 <= column_base < columns
    &&& forall|row: int| 1 <= row <= last ==> is_marked(#[trigger] bounds[row])
    &&& forall|row: int| last < row <= rows ==> #[trigger] bounds[row] == unmarked()
    &&& bounds[1].0 == 1
    &&& forall|above: int, row: int|
        1 <= above && row == above + 1 && row <= last ==> touches(
            #[trigger] bounds[above],
            #[trigger] bounds[row],
        )
    &&& forall|row: int|
        1 <= row <= last ==> (#[trigger] bounds[row]).0 <= column_base + 1 && bounds[row].1
            <= min(column_base + factor, columns)
    &&& forall|row: int|
        row_base < row <= last ==> (#[trigger] bounds[row]).1 == min(column_base + factor, columns)
}

/// What marking a patch makes of a row.
proof fn lemma_marked_row(bounds: Seq<(usize, usize)>, patch: Patch, columns: int, row: int)
    requires
        band_valid(bounds, columns),
        columns < usize::MAX,
        0 <= row < bounds.len(),
    ensures
        mark(bounds, patch, columns).len() == bounds.len(),
        mark(bounds, patch, columns)[row] == if 1 <= row && patch.top <= row <= patch.bottom {
            widen(bounds[row], max(patch.left, 1), min(patch.right, columns))
        } else {
            bounds[row]
        },
        mark(bounds, patch, columns)[row] == unmarked() || 1 <= mark(bounds, patch, columns)[row].0
            <= mark(bounds, patch, columns)[row].1 <= columns,
{
    assert(bounds[row] == unmarked() || 1 <= bounds[row].0 <= bounds[row].1 <= columns);
}

/// Marking a patch keeps the band valid.
proof fn lemma_mark_valid(bounds: Seq<(usize, usize)>, patch: Patch, columns: int)
    requires
        band_valid(bounds, columns),
        columns < usize::MAX,
    ensures
        band_valid(mark(bounds, patch, columns), columns),
        mark(bounds, patch, columns).len() == bounds.len(),
{
    let marked = mark(bounds, patch, columns);
    assert forall|row: int| 0 <= row < marked.len() implies {
        ||| #[trigger] marked[row] == unmarked()
        ||| 1 <= marked[row].0 <= marked[row].1 <= columns
    } by {
        lemma_marked_row(bounds, patch, columns, row);
    }
}

/// The block of the first pair of a path starts a linked band.
pub proof fn lemma_first_block(factor: int, rows: int, columns: int)
    requires
        factor >= 1,
        1 <= rows < usize::MAX,
        1 <= columns < usize::MAX,
    ensures
        linked_so_far(
            mark(
                Seq::new((rows + 1) as nat, |row: int| unmarked()),
                (Patch { top: 1, bottom: factor, left: 1, right: factor }),
                columns,
            ),
            0,
            0,
            factor,
            rows,
            columns,
        ),
{
    let blank = Seq::new((rows + 1) as nat, |row: int| unmarked());
    let patch = Patch { top: 1, bottom: factor, left: 1, right: factor };
    let marked = mark(blank, patch, columns);
    assert(band_valid(blank, columns));
    lemma_mark_valid(blank, patch, columns);
    assert forall|row: int| 0 <= row <= rows implies #[trigger] marked[row] == if 1 <= row
        <= factor {
        (1usize, min(factor, columns) as usize)
    } else {
        unmarked()
    } by {
        lemma_marked_row(blank, patch, columns, row);
    }
}

/// A step to the right keeps the band linked.
pub proof fn lemma_step_right(
    bounds: Seq<(usize, usize)>,
    row_base: int,
    column_base: int,
    factor: int,
    rows: int,
    columns: int,
)
    requires
        linked_so_far(bounds, row_base, column_base, factor, rows, columns),
        column_base + factor < columns,
    ensures
        linked_so_far(
            mark(
                bounds,
                (Patch {
                    top: row_base + 1,
                    bottom: row_base + factor,
                    left: column_base + factor + 1,
                    right: column_base + factor + factor,
                }),
                columns,
            ),
            row_base,
            column_base + factor,
            factor,
            rows,
            columns,
        ),
{
    let patch = Patch {
        top: row_base + 1,
        bottom: row_base + factor,
        left: column_base + factor + 1,
        right: column_base + factor + factor,
    };
    let marked = mark(bounds, patch, columns);
    lemma_mark_valid(bounds, patch, columns);
    let last = min(row_base + factor, rows);
    let reach = min(column_base + factor + factor, columns);
    assert forall|row: int| 0 <= row <= rows implies #[trigger] marked[row] == if row_base < row
        <= last {
        (bounds[row].0, reach as usize)
    } else {
        bounds[row]
    } by {
        lemma_marked_row(bounds, patch, columns, row);
        if row_base < row <= last {
            assert(is_marked(bounds[row]));
            assert(bounds[row].0 <= column_base + 1);
            assert(bounds[row].1 == min(column_base + factor, columns));
        }
    }
    assert forall|above: int, row: int|
        1 <= above && row == above + 1 && row <= last implies touches(
        #[trigger] marked[above],
        #[trigger] marked[row],
    ) by {
        assert(touches(bounds[above], bounds[row]));
        assert(bounds[above].1 <= min(column_base + factor, columns));
    }
    assert forall|row: int| 1 <= row <= last implies is_marked(#[trigger] marked[row])
        && marked[row].0 <= column_base + factor + 1 && marked[row].1 <= reach by {
        assert(is_marked(bounds[row]));
        assert(bounds[row].0 <= column_base + 1);
        assert(bounds[row].1 <= min(column_base + factor, columns));
    }
    assert(marked[1].0 == bounds[1].0);
}

/// A step down keeps the band linked.
pub proof fn lemma_step_down(
    bounds: Seq<(usize, usize)>,
    row_base: int,
    column_base: int,
    factor: int,
    rows: int,
    columns: int,
)
    requires
        linked_so_far(bounds, row_base, column_base, factor, rows, columns),
        row_base + factor < rows,
    ensures
        linked_so_far(
            mark(
                bounds,
                (Patch {
                    top: row_base + factor + 1,
                    bottom: row_base + factor + factor,
                    left: column_base + 1,
                    right: column_base + factor,
                }),
                columns,
            ),
            row_base + factor,
            column_base,
            factor,
            rows,
            columns,
        ),
{
    let patch = Patch {
        top: row_base + factor + 1,
        bottom: row_base + factor + factor,
        left: column_base + 1,
        right: column_base + factor,
    };
    let marked = mark(bounds, patch, columns);
    lemma_mark_valid(bounds, patch, columns);
    let before = row_base + factor;
    let last = min(before + factor, rows);
    let reach = min(column_base + factor, columns);
    assert forall|row: int| 0 <= row <= rows implies #[trigger] marked[row] == if before < row
        <= last {
        ((column_base + 1) as usize, reach as usize)
    } else {
        bounds[row]
    } by {
        lemma_marked_row(bounds, patch, columns, row);
    }
    assert forall|above: int, row: int|
        1 <= above && row == above + 1 && row <= last implies touches(
        #[trigger] marked[above],
        #[trigger] marked[row],
    ) by {
        if row <= before {
            assert(touches(bounds[above], bounds[row]));
        } else if row == before + 1 {
            assert(bounds[before].0 <= column_base + 1);
            assert(bounds[before].1 == reach);
        }
    }
    assert forall|row: int| 1 <= row <= last implies is_marked(#[trigger] marked[row]) && marked[row].0
        <= column_base + 1 && marked[row].1 <= reach by {
        if row <= before {
            assert(is_marked(bounds[row]));
            assert(bounds[row].0 <= column_base + 1);
            assert(bounds[row].1 <= reach);
        }
    }
    assert(marked[1] == bounds[1]);
}

/// A step down and to the right, with the patches at the corner, keeps the
/// band linked.
pub proof fn lemma_step_diagonal(
    bounds: Seq<(usize, usize)>,
    row_base: int,
    column_base: int,
    factor: int,
    side: int,
    rows: int,
    columns: int,
)
    requires
        linked_so_far(bounds, row_base, column_base, factor, rows, columns),
        row_base + factor < rows,
        column_base + factor < columns,
        0 <= side <= factor,
    ensures
        linked_so_far(
            mark(
                mark(
                    mark(
                        bounds,
                        (Patch {
                            top: row_base + factor + 1,
                            bottom: row_base + factor + factor,
                            left: column_base + factor + 1,
                            right: column_base + factor + factor,
                        }),
                        columns,
                    ),
                    (Patch {
                        top: row_base + factor - side + 1,
                        bottom: row_base + factor,
                        left: column_base + factor + 1,
                        right: column_base + factor + side,
                    }),
                    columns,
                ),
                (Patch {
                    top: row_base + factor + 1,
                    bottom: row_base + factor + side,
                    left: column_base + factor - side + 1,
                    right: column_base + factor,
                }),
                columns,
            ),
            row_base + factor,
            column_base + factor,
            factor,
            rows,
            columns,
        ),
{
    let block = Patch {
        top: row_base + factor + 1,
        bottom: row_base + factor + factor,
        left: column_base + factor + 1,
        right: column_base + factor + factor,
    };
    let upper = Patch {
        top: row_base + factor - side + 1,
        bottom: row_base + factor,
        left: column_base + factor + 1,
        right: column_base + factor + side,
    };
    let lower = Patch {
        top: row_base + factor + 1,
        bottom: row_base + factor + side,
        left: column_base + factor - side + 1,
        right: column_base + factor,
    };
    let first = mark(bounds, block, columns);
    let second = mark(first, upper, columns);
    let third = mark(second, lower, columns);
    lemma_mark_valid(bounds, block, columns);
    lemma_mark_valid(first, upper, columns);
    lemma_mark_valid(second, lower, columns);
    let before = row_base + factor;
    let turn = column_base + factor;
    let last = min(before + factor, rows);
    let reach = min(turn + factor, columns);
    assert forall|row: int| 0 <= row <= rows implies {
        &&& row <= before ==> (#[trigger] third[row]).0 == bounds[row].0
        &&& row <= before - side ==> third[row].1 == bounds[row].1
        &&& 1 <= row && before - side < row <= before ==> third[row].1 == if side >= 1 {
            min(turn + side, columns)
        } else {
            turn
        }
        &&& before < row <= last ==> third[row].1 == reach
        &&& before < row <= last && row > before + side ==> third[row].0 == turn + 1
        &&& before < row <= before + side && row <= last ==> third[row].0 == turn - side + 1
        &&& row > last ==> third[row] == unmarked()
    } by {
        lemma_marked_row(bounds, block, columns, row);
        lemma_marked_row(first, upper, columns, row);
        lemma_marked_row(second, lower, columns, row);
        if 1 <= row <= before {
            assert(is_marked(bounds[row]));
            assert(bounds[row].0 <= column_base + 1);
            assert(bounds[row].1 <= turn);
            if row > row_base {
                assert(bounds[row].1 == turn);
            }
        }
    }
    assert forall|above: int, row: int|
        1 <= above && row == above + 1 && row <= last implies touches(
        #[trigger] third[above],
        #[trigger] third[row],
    ) by {
        if row <= before {
            assert(touches(bounds[above], bounds[row]));
            assert(bounds[above].1 <= turn);
            assert(bounds[row].1 <= turn);
        } else if row == before + 1 {
            assert(bounds[before].0 <= column_base + 1);
            assert(bounds[before].1 == turn);
        }
    }
    assert forall|row: int| 1 <= row <= last implies is_marked(#[trigger] third[row]) && third[row].0
        <= turn + 1 && third[row].1 <= reach by {
        if row <= before {
            assert(is_marked(bounds[row]));
            assert(bounds[row].0 <= column_base + 1);
            assert(bounds[row].1 <= turn);
        }
    }
    assert(third[1].0 == bounds[1].0);
}

/// A band that is linked as far as it goes and that has reached the last row
/// and the last column is linked.
pub proof fn lemma_linked_at_the_end(
    bounds: Seq<(usize, usize)>,
    row_base: int,
    column_base: int,
    factor: int,
    rows: int,
    columns: int,
)
    requires
        linked_so_far(bounds, row_base, column_base, factor, rows, columns),
        row_base + factor >= rows,
        column_base + factor >= columns,
    ensures
        linked(bounds, columns),
{
    assert(bounds[rows].1 == columns);
    assert forall|above: int, row: int|
        1 <= above && row == above + 1 && row < bounds.len() implies touches(
        #[trigger] bounds[above],
        #[trigger] bounds[row],
    ) by {}
}

/// The pairs of a path never fall.
pub proof fn lemma_path_rises(path: Seq<(usize, usize)>, from: int, to: int)
    requires
        steps_forward(path),
        0 <= from <= to < path.len(),
    ensures
        path[from].0 <= path[to].0,
        path[from].1 <= path[to].1,
    decreases to - from,
{
    if from < to {
        lemma_path_rises(path, from, to - 1);
        assert(is_step(path[to - 1], path[to - 1 + 1]));
    }
}

/// Whether the path leads through the coarse table of a table of `rows` rows
/// and `columns` columns from its first cell to its last: it starts at the
/// pair `(0, 0)`, advances step by step, and ends in the block that holds the
/// last cell of the table.
pub open spec fn crosses(path: Seq<(usize, usize)>, factor: int, rows: int, columns: int) -> bool {
    &&& path.len() >= 1
    &&& path[0] == (0usize, 0usize)
    &&& steps_forward(path)
    &&& path.last().0 * factor < rows <= (path.last().0 + 1) * factor
    &&& path.last().1 * factor < columns <= (path.last().1 + 1) * factor
}

/// The projection of the first pairs of such a path is linked as far as it
/// goes.
pub proof fn lemma_projected_linked(
    path: Seq<(usize, usize)>,
    count: nat,
    factor: int,
    rows: int,
    columns: int,
)
    requires
        factor >= 1,
        1 <= rows < usize::MAX,
        1 <= columns < usize::MAX,
        crosses(path, factor, rows, columns),
        1 <= count <= path.len(),
    ensures
        linked_so_far(
            projected(path, count, factor, rows, columns),
            path[count - 1].0 * factor,
            path[count - 1].1 * factor,
            factor,
            rows,
            columns,
        ),
    decreases count,
{
    let entry = path[count - 1];
    lemma_path_rises(path, count - 1, path.len() - 1);
    assert(0 <= entry.0 * factor <= path.last().0 * factor && 0 <= entry.1 * factor
        <= path.last().1 * factor) by (nonlinear_arith)
        requires
            0 <= entry.0 <= path.last().0,
            0 <= entry.1 <= path.last().1,
            factor >= 1,
    ;
    if count == 1 {
        lemma_first_block(factor, rows, columns);
        let blank = Seq::new((rows + 1) as nat, |row: int| unmarked());
        assert(projected(path, 0, factor, rows, columns) =~= blank);
        assert(entry == (0usize, 0usize));
        assert(entry.0 * factor == 0 && entry.1 * factor == 0) by (nonlinear_arith)
            requires
                entry.0 == 0,
                entry.1 == 0,
        ;
        assert(block(entry, factor) == (Patch { top: 1, bottom: factor, left: 1, right: factor }));
    } else {
        let previous = path[count - 2];
        let before = projected(path, (count - 1) as nat, factor, rows, columns);
        lemma_projected_linked(path, (count - 1) as nat, factor, rows, columns);
        assert(is_step(path[count - 2], path[count - 2 + 1]));
        let row_base = previous.0 * factor;
        let column_base = previous.1 * factor;
        assert((previous.0 + 1) * factor == row_base + factor && (previous.1 + 1) * factor
            == column_base + factor) by (nonlinear_arith)
            requires
                row_base == previous.0 * factor,
                column_base == previous.1 * factor,
        ;
        if entry.0 == previous.0 {
            lemma_step_right(before, row_base, column_base, factor, rows, columns);
            assert(block(entry, factor) == (Patch {
                top: row_base + 1,
                bottom: row_base + factor,
                left: column_base + factor + 1,
                right: column_base + factor + factor,
            }));
        } else if entry.1 == previous.1 {
            lemma_step_down(before, row_base, column_base, factor, rows, columns);
            assert(block(entry, factor) == (Patch {
                top: row_base + factor + 1,
                bottom: row_base + factor + factor,
                left: column_base + 1,
                right: column_base + factor,
            }));
        } else {
            let side = half(factor);
            lemma_step_diagonal(before, row_base, column_base, factor, side, rows, columns);
            assert(is_diagonal(previous, entry));
            assert(block(entry, factor) == (Patch {
                top: row_base + factor + 1,
                bottom: row_base + factor + factor,
                left: column_base + factor + 1,
                right: column_base + factor + factor,
            }));
            assert(upper_patch(previous, factor) == (Patch {
                top: row_base + factor - side + 1,
                bottom: row_base + factor,
                left: column_base + factor + 1,
                right: column_base + factor + side,
            }));
            assert(lower_patch(previous, factor) == (Patch {
                top: row_base + factor + 1,
                bottom: row_base + factor + side,
                left: column_base + factor - side + 1,
                right: column_base + factor,
            }));
        }
    }
}

/// In a linked band the bounds of the rows never fall.
proof fn lemma_starts_rise(bounds: Seq<(usize, usize)>, columns: int, from: int, to: int)
    requires
        linked(bounds, columns),
        1 <= from <= to < bounds.len(),
    ensures
        bounds[from].0 <= bounds[to].0,
        bounds[from].1 <= bounds[to].1,
    decreases to - from,
{
    if from < to {
        lemma_starts_rise(bounds, columns, from, to - 1);
        assert(touches(bounds[to - 1], bounds[to]));
    }
}

/// What a row of a linked band has after it has taken in the right reach of
/// rows from itself downwards: its first column, and the right reach of the
/// lowest of them.
proof fn lemma_gather_right(
    bounds: Seq<(usize, usize)>,
    row: int,
    count: nat,
    radius: int,
    columns: int,
)
    requires
        linked(bounds, columns),
        columns < usize::MAX,
        radius >= 0,
        1 <= row,
        1 <= count,
        row + count <= bounds.len(),
    ensures
        gather_right(bounds, row, count, radius, columns) == (
            bounds[row].0,
            reach_right(bounds[row + count - 1], radius, columns) as usize,
        ),
        bounds[row + count - 1].1 <= reach_right(bounds[row + count - 1], radius, columns)
            <= columns,
    decreases count,
{
    let source = bounds[row + count - 1];
    assert(is_marked(bounds[row]));
    assert(bounds[row] == unmarked() || 1 <= bounds[row].0 <= bounds[row].1 <= columns);
    assert(is_marked(source));
    assert(source == unmarked() || 1 <= source.0 <= source.1 <= columns);
    lemma_starts_rise(bounds, columns, row, row + count - 1);
    if count > 1 {
        lemma_gather_right(bounds, row, (count - 1) as nat, radius, columns);
        lemma_starts_rise(bounds, columns, row + count - 2, row + count - 1);
    } else {
        assert(gather_right(bounds, row, 0, radius, columns) == bounds[row]);
    }
}

/// The expansion to the right keeps a band linked.
pub proof fn lemma_expanded_right_linked(bounds: Seq<(usize, usize)>, radius: int, columns: int)
    requires
        linked(bounds, columns),
        columns < usize::MAX,
        radius >= 0,
    ensures
        linked(expanded_right(bounds, radius, columns), columns),
{
    let expanded = expanded_right(bounds, radius, columns);
    let length = bounds.len() as int;
    assert forall|row: int| 1 <= row < bounds.len() implies #[trigger] expanded[row] == (
        bounds[row].0,
        reach_right(bounds[row + rows_below(length, row, radius) - 1], radius, columns) as usize,
    ) && bounds[row].1 <= expanded[row].1 <= columns by {
        lemma_gather_right(bounds, row, rows_below(length, row, radius), radius, columns);
        lemma_starts_rise(bounds, columns, row, row + rows_below(length, row, radius) - 1);
    }
    assert(expanded[0] == bounds[0]);
    assert forall|row: int| 0 <= row < expanded.len() implies {
        ||| #[trigger] expanded[row] == unmarked()
        ||| 1 <= expanded[row].0 <= expanded[row].1 <= columns
    } by {
        if row >= 1 {
            assert(is_marked(bounds[row]));
            assert(bounds[row] == unmarked() || 1 <= bounds[row].0 <= bounds[row].1 <= columns);
        }
    }
    assert forall|row: int| 1 <= row < expanded.len() implies is_marked(#[trigger] expanded[row]) by {
        assert(is_marked(bounds[row]));
    }
    assert forall|above: int, row: int|
        1 <= above && row == above + 1 && row < expanded.len() implies touches(
        #[trigger] expanded[above],
        #[trigger] expanded[row],
    ) by {
        assert(touches(bounds[above], bounds[row]));
        let higher = above + rows_below(length, above, radius) - 1;
        let lower = row + rows_below(length, row, radius) - 1;
        assert(above <= higher <= lower < length);
        lemma_starts_rise(bounds, columns, higher, lower);
    }
    let end = bounds.len() - 1;
    assert(expanded[end].1 >= bounds[end].1);
}

/// What a row of a linked band has after it has taken in the left reach of
/// rows from itself upwards: the left reach of the topmost of them, and its
/// last column.
proof fn lemma_gather_left(
    bounds: Seq<(usize, usize)>,
    row: int,
    count: nat,
    radius: int,
    columns: int,
)
    requires
        linked(bounds, columns),
        columns < usize::MAX,
        radius >= 0,
        1 <= count <= row < bounds.len(),
    ensures
        gather_left(bounds, row, count, radius) == (
            reach_left(bounds[row - count + 1], radius) as usize,
            bounds[row].1,
        ),
        1 <= reach_left(bounds[row - count + 1], radius) <= bounds[row - count + 1].0,
    decreases count,
{
    let source = bounds[row - count + 1];
    assert(is_marked(bounds[row]));
    assert(bounds[row] == unmarked() || 1 <= bounds[row].0 <= bounds[row].1 <= columns);
    assert(is_marked(source));
    assert(source == unmarked() || 1 <= source.0 <= source.1 <= columns);
    lemma_starts_rise(bounds, columns, row - count + 1, row);
    if count > 1 {
        lemma_gather_left(bounds, row, (count - 1) as nat, radius, columns);
        lemma_starts_rise(bounds, columns, row - count + 1, row - count + 2);
    } else {
        assert(gather_left(bounds, row, 0, radius) == bounds[row]);
    }
}

/// The expansion to the left keeps a band linked.
pub proof fn lemma_expanded_left_linked(bounds: Seq<(usize, usize)>, radius: int, columns: int)
    requires
        linked(bounds, columns),
        columns < usize::MAX,
        radius >= 0,
    ensures
        linked(expanded_left(bounds, radius), columns),
{
    let expanded = expanded_left(bounds, radius);
    assert forall|row: int| 1 <= row < bounds.len() implies #[trigger] expanded[row] == (
        reach_left(bounds[row - rows_above(row, radius) + 1], radius) as usize,
        bounds[row].1,
    ) && 1 <= expanded[row].0 <= bounds[row].0 by {
        lemma_gather_left(bounds, row, rows_above(row, radius), radius, columns);
        lemma_starts_rise(bounds, columns, row - rows_above(row, radius) + 1, row);
    }
    assert(expanded[0] == bounds[0]);
    assert forall|row: int| 0 <= row < expanded.len() implies {
        ||| #[trigger] expanded[row] == unmarked()
        ||| 1 <= expanded[row].0 <= expanded[row].1 <= columns
    } by {
        if row >= 1 {
            assert(is_marked(bounds[row]));
            assert(bounds[row] == unmarked() || 1 <= bounds[row].0 <= bounds[row].1 <= columns);
        }
    }
    assert forall|row: int| 1 <= row < expanded.len() implies is_marked(#[trigger] expanded[row]) by {
        assert(is_marked(bounds[row]));
    }
    assert forall|above: int, row: int|
        1 <= above && row == above + 1 && row < expanded.len() implies touches(
        #[trigger] expanded[above],
        #[trigger] expanded[row],
    ) by {
        assert(touches(bounds[above], bounds[row]));
        let higher = above - rows_above(above, radius) + 1;
        let lower = row - rows_above(row, radius) + 1;
        assert(1 <= higher <= lower <= row);
        lemma_starts_rise(bounds, columns, higher, lower);
    }
    assert(bounds[1].0 == 1);
}

/// The band that such a path projects to is linked, whatever the search
/// radius.
pub proof fn lemma_projection_linked(
    path: Seq<(usize, usize)>,
    factor: int,
    radius: int,
    rows: int,
    columns: int,
)
    requires
        factor >= 1,
        radius >= 0,
        1 <= rows < usize::MAX,
        1 <= columns < usize::MAX,
        crosses(path, factor, rows, columns),
    ensures
        linked(projection(path, factor, radius, rows, columns), columns),
{
    let projected_bounds = projected(path, path.len(), factor, rows, columns);
    lemma_projected_linked(path, path.len(), factor, rows, columns);
    let last = path[path.len() - 1];
    assert((last.0 + 1) * factor == last.0 * factor + factor && (last.1 + 1) * factor == last.1
        * factor + factor) by (nonlinear_arith);
    lemma_linked_at_the_end(
        projected_bounds,
        last.0 * factor,
        last.1 * factor,
        factor,
        rows,
        columns,
    );
    lemma_expanded_right_linked(projected_bounds, radius, columns);
    lemma_expanded_left_linked(
        expanded_right(projected_bounds, radius, columns),
        radius,
        columns,
    );
}

} // verus!
