use crate::arrays::{pairs_fit, PairArray};
use crate::band::linked;
use crate::cells::{advances, grid_from, lemma_grid_from_bounds, row_major, within_table};
use crate::linking::{crosses, lemma_projection_linked};
use crate::projection::{
    band_cells, band_from, band_valid, block, expanded_left, expanded_right, gather_left,
    gather_right, half, is_marked, lemma_band_from, lemma_widen_valid, lower_patch, mark,
    projected, projection, reach_left, reach_right, unmarked, upper_patch, widen, Patch,
};
use vstd::prelude::*;

verus! {

/// A producer of the cells of a cost table that are to be computed, one by one,
/// in strictly increasing row-major order. Cells are 1-based.
pub trait Window: Sized {
    /// The invariant of the window.
    spec fn wf(&self) -> bool;

    /// The number of rows of the table that the window is laid over.
    spec fn rows(&self) -> int;

    /// The number of columns of the table that the window is laid over.
    spec fn columns(&self) -> int;

    /// The cells that the window has yet to produce, in order.
    spec fn remaining(&self) -> Seq<(usize, usize)>;

    /// The cells to come are in the table, in strictly increasing row-major order.
    proof fn lemma_remaining(&self)
        requires
            self.wf(),
        ensures
            row_major(self.remaining()),
            within_table(self.remaining(), self.rows(), self.columns()),
    ;

    /// The numbers of rows and of columns of the table that the window is
    /// laid over.
    fn dimensions(&self) -> (size: (usize, usize))
        requires
            self.wf(),
        ensures
            size.0 == self.rows(),
            size.1 == self.columns(),
    ;

    /// The next cell, or `None` when every cell has been produced.
    fn next(&mut self) -> (cell: Option<(usize, usize)>)
        requires
            old(self).wf(),
        ensures
            final(self).wf(),
            final(self).rows() == old(self).rows(),
            final(self).columns() == old(self).columns(),
            advances(old(self).remaining(), cell, final(self).remaining()),
    ;
}

/// The window of classical dynamic time warping: it visits every cell of the
/// table, row by row. The X series runs along the columns and the Y series
/// along the rows.
pub struct FullWindow {
    /// The row of the next cell.
    row: usize,
    /// The column of the next cell.
    column: usize,
    /// One past the last row.
    end_row: usize,
    /// One past the last column.
    end_column: usize,
}

impl FullWindow {
    /// A window over all cells of a table with `rows` rows and `columns` columns.
    pub fn new(rows: usize, columns: usize) -> (window: Self)
        requires
            rows < usize::MAX,
            columns < usize::MAX,
        ensures
            window.wf(),
            window.rows() == rows,
            window.columns() == columns,
            window.remaining() == grid_from(1, 1, rows as int, columns as int),
    {
        Self { row: 1, column: 1, end_row: rows + 1, end_column: columns + 1 }
    }
}

impl Window for FullWindow {
    closed spec fn wf(&self) -> bool {
        &&& 1 <= self.row
        &&& 1 <= self.column
        &&& 1 <= self.end_row
        &&& 1 <= self.end_column
        &&& self.row <= self.end_row
        &&& (self.row < self.end_row && self.end_column > 1 ==> self.column < self.end_column)
    }

    closed spec fn rows(&self) -> int {
        self.end_row - 1
    }

    closed spec fn columns(&self) -> int {
        self.end_column - 1
    }

    closed spec fn remaining(&self) -> Seq<(usize, usize)> {
        grid_from(self.row as int, self.column as int, self.end_row - 1, self.end_column - 1)
    }

    proof fn lemma_remaining(&self) {
        lemma_grid_from_bounds(
            self.row as int,
            self.column as int,
            self.end_row - 1,
            self.end_column - 1,
        );
    }

    fn dimensions(&self) -> (size: (usize, usize)) {
        (self.end_row - 1, self.end_column - 1)
    }

    fn next(&mut self) -> (cell: Option<(usize, usize)>) {
        if self.row < self.end_row && self.column < self.end_column {
            let cell = (self.row, self.column);
            proof {
                let rest = if self.column < self.end_column - 1 {
                    grid_from(self.row as int, self.column + 1, self.end_row - 1, self.end_column - 1)
                } else {
                    grid_from(self.row + 1, 1, self.end_row - 1, self.end_column - 1)
                };
                assert(old(self).remaining() == seq![cell] + rest);
                assert((seq![cell] + rest).drop_first() == rest);
            }
            if self.column + 1 < self.end_column {
                self.column += 1;
            } else {
                self.row += 1;
                self.column = 1;
            }
            Some(cell)
        } else {
            None
        }
    }
}

/// The window of the approximate algorithm: for each row it visits the columns
/// of a band that a warp path of a coarser resolution was projected to.
pub struct ConstrainedWindow {
    /// For each row the minimum and the maximum column to visit. The array has
    /// one entry per row of the table and one, never marked, for the boundary row.
    constraints: PairArray,
    /// The row of the next cell.
    row: usize,
    /// The column of the next cell.
    column: usize,
    /// The number of columns of the table.
    columns: usize,
}

/// The product of an index and the resolution factor, which may not fit a `usize`.
fn scaled(index: u128, factor: usize) -> (product: u128)
    requires
        index <= 0x1_0000_0000_0000_0000,
    ensures
        product == index * factor,
        product <= 0xFFFF_FFFF_FFFF_FFFF_0000_0000_0000_0000,
        index >= 1 ==> product >= factor,
{
    assert(index * factor <= 0xFFFF_FFFF_FFFF_FFFF_0000_0000_0000_0000 && (index >= 1 ==> index
        * factor >= factor)) by (nonlinear_arith)
        requires
            0 <= index <= 0x1_0000_0000_0000_0000,
            0 <= factor <= 0xFFFF_FFFF_FFFF_FFFF,
    ;
    index * (factor as u128)
}

impl ConstrainedWindow {
    /// The bounds of the band: for each row the minimum and the maximum column.
    pub closed spec fn bounds(&self) -> Seq<(usize, usize)> {
        self.constraints@
    }

    /// The first and the last column that the window visits in `row`, or
    /// `None` where the window has no such row. A row that it visits no cell of
    /// has a first column past its last.
    pub fn row_bounds(&self, row: usize) -> (found: Option<(usize, usize)>)
        ensures
            found == if row < self.bounds().len() {
                Some(self.bounds()[row as int])
            } else {
                None
            },
    {
        self.constraints.get(row)
    }

    /// The invariant of the bounds, which holds while the band is being built.
    closed spec fn shaped(&self) -> bool {
        &&& band_valid(self.constraints@, self.columns as int)
        &&& self.constraints@.len() <= usize::MAX
        &&& self.columns < usize::MAX
    }

    /// Builds the window from a warp path of a coarser resolution. Each pair of
    /// the path, a 0-based cell of the coarse table, marks the block of
    /// `resolution_factor` rows and columns that it maps to; a step that
    /// advances in row and column also marks two patches at the corner where
    /// the two blocks meet; then every marked row reaches `search_radius`
    /// columns to the right, for itself and the rows above it, and to the left,
    /// for itself and the rows below it. Nothing is marked outside the table.
    pub fn from_low_res_path(
        low_res_path: PairArray,
        resolution_factor: usize,
        search_radius: usize,
        high_res_rows: usize,
        high_res_columns: usize,
    ) -> (window: Self)
        requires
            pairs_fit(high_res_rows + 1),
            high_res_columns < usize::MAX,
        ensures
            window.wf(),
            window.rows() == high_res_rows,
            window.columns() == high_res_columns,
            window.bounds() == projection(
                low_res_path@,
                resolution_factor as int,
                search_radius as int,
                high_res_rows as int,
                high_res_columns as int,
            ),
            window.remaining() == band_cells(window.bounds()),
            resolution_factor >= 1 && high_res_rows >= 1 && high_res_columns >= 1 && crosses(
                low_res_path@,
                resolution_factor as int,
                high_res_rows as int,
                high_res_columns as int,
            ) ==> linked(window.bounds(), high_res_columns as int),
    {
        proof {
            if resolution_factor >= 1 && high_res_rows >= 1 && high_res_columns >= 1 && crosses(
                low_res_path@,
                resolution_factor as int,
                high_res_rows as int,
                high_res_columns as int,
            ) {
                lemma_projection_linked(
                    low_res_path@,
                    resolution_factor as int,
                    search_radius as int,
                    high_res_rows as int,
                    high_res_columns as int,
                );
            }
        }
        let mut window = ConstrainedWindow {
            constraints: PairArray::filled(high_res_rows + 1, (usize::MAX, 0)),
            row: 1,
            column: 1,
            columns: high_res_columns,
        };
        assert(window.constraints@ =~= projected(
            low_res_path@,
            0,
            resolution_factor as int,
            high_res_rows as int,
            high_res_columns as int,
        ));
        let count = low_res_path.len();
        let mut index: usize = 0;
        while index < count
            invariant
                count == low_res_path@.len(),
                index <= count,
                window.shaped(),
                window.columns == high_res_columns,
                window.row == 1,
                window.constraints@.len() == high_res_rows + 1,
                window.constraints@ == projected(
                    low_res_path@,
                    index as nat,
                    resolution_factor as int,
                    high_res_rows as int,
                    high_res_columns as int,
                ),
            decreases count - index,
        {
            let entry = low_res_path.at(index);
            window.mark_block(entry, resolution_factor);
            if index > 0 {
                let previous = low_res_path.at(index - 1);
                if previous.0 < entry.0 && previous.1 < entry.1 {
                    window.mark_corner(previous, resolution_factor);
                }
            }
            index += 1;
        }
        window.expand_maxima(search_radius);
        window.expand_minima(search_radius);
        if high_res_rows >= 1 {
            window.column = window.constraints.at(1).0;
        }
        window
    }

    /// Widens the bounds of `row` to include `column`.
    fn visit(&mut self, row: usize, column: usize)
        requires
            old(self).shaped(),
            1 <= row < old(self).constraints@.len(),
            1 <= column <= old(self).columns,
        ensures
            final(self).shaped(),
            final(self).columns == old(self).columns,
            final(self).row == old(self).row,
            final(self).column == old(self).column,
            final(self).constraints@ == old(self).constraints@.update(
                row as int,
                widen(old(self).constraints@[row as int], column as int, column as int),
            ),
    {
        let bounds = self.constraints.at(row);
        let low = if bounds.0 > column {
            column
        } else {
            bounds.0
        };
        let high = if bounds.1 < column {
            column
        } else {
            bounds.1
        };
        proof {
            lemma_widen_valid(bounds, column as int, column as int, self.columns as int);
        }
        self.constraints.set(row, (low, high));
    }

    /// Marks the cells of a rectangle that lie in the table.
    fn mark(&mut self, top: u128, bottom: u128, left: u128, right: u128)
        requires
            old(self).shaped(),
        ensures
            final(self).shaped(),
            final(self).columns == old(self).columns,
            final(self).row == old(self).row,
            final(self).column == old(self).column,
            final(self).constraints@ == mark(
                old(self).constraints@,
                (Patch { top: top as int, bottom: bottom as int, left: left as int, right: right as int }),
                old(self).columns as int,
            ),
    {
        let ghost start = self.constraints@;
        let length = self.constraints.len();
        let low: u128 = if left < 1 {
            1
        } else {
            left
        };
        let high: u128 = if right > self.columns as u128 {
            self.columns as u128
        } else {
            right
        };
        let first: u128 = if top < 1 {
            1
        } else {
            top
        };
        let last: u128 = if bottom > (length - 1) as u128 {
            (length - 1) as u128
        } else {
            bottom
        };
        if low <= high && first <= last {
            let low = low as usize;
            let high = high as usize;
            let last = last as usize;
            let mut row = first as usize;
            while row <= last
                invariant
                    self.shaped(),
                    self.columns == old(self).columns,
                    self.row == old(self).row,
                    self.column == old(self).column,
                    start == old(self).constraints@,
                    self.constraints@.len() == start.len(),
                    1 <= low <= high <= self.columns,
                    1 <= first <= row <= last + 1,
                    last < start.len(),
                    forall|q: int|
                        0 <= q < start.len() ==> #[trigger] self.constraints@[q] == if first <= q
                            < row {
                            widen(start[q], low as int, high as int)
                        } else {
                            start[q]
                        },
                decreases last + 1 - row,
            {
                let ghost before = self.constraints@;
                self.visit(row, low);
                self.visit(row, high);
                proof {
                    lemma_widen_valid(start[row as int], low as int, high as int, self.columns as int);
                    assert(before[row as int] == start[row as int]);
                }
                row += 1;
            }
        }
        assert(self.constraints@ =~= mark(
            start,
            (Patch { top: top as int, bottom: bottom as int, left: left as int, right: right as int }),
            self.columns as int,
        ));
    }

    /// Marks the block that the coarse cell `entry` maps to.
    fn mark_block(&mut self, entry: (usize, usize), factor: usize)
        requires
            old(self).shaped(),
        ensures
            final(self).shaped(),
            final(self).columns == old(self).columns,
            final(self).row == old(self).row,
            final(self).column == old(self).column,
            final(self).constraints@ == mark(
                old(self).constraints@,
                block(entry, factor as int),
                old(self).columns as int,
            ),
    {
        let row_base = scaled(entry.0 as u128, factor);
        let column_base = scaled(entry.1 as u128, factor);
        self.mark(
            row_base + 1,
            row_base + factor as u128,
            column_base + 1,
            column_base + factor as u128,
        );
    }

    /// Marks the two patches at the corner that the block of `previous` shares
    /// with the block that follows it diagonally.
    fn mark_corner(&mut self, previous: (usize, usize), factor: usize)
        requires
            old(self).shaped(),
        ensures
            final(self).shaped(),
            final(self).columns == old(self).columns,
            final(self).row == old(self).row,
            final(self).column == old(self).column,
            final(self).constraints@ == mark(
                mark(
                    old(self).constraints@,
                    upper_patch(previous, factor as int),
                    old(self).columns as int,
                ),
                lower_patch(previous, factor as int),
                old(self).columns as int,
            ),
    {
        let corner_row = scaled(previous.0 as u128 + 1, factor);
        let corner_column = scaled(previous.1 as u128 + 1, factor);
        let side = (factor / 2 + factor % 2) as u128;
        assert(side == half(factor as int));
        self.mark(corner_row - side + 1, corner_row, corner_column + 1, corner_column + side);
        self.mark(corner_row + 1, corner_row + side, corner_column - side + 1, corner_column);
    }

    /// Lets every marked row reach `radius` columns past its maximum, for
    /// itself and for the `radius` rows above it.
    fn expand_maxima(&mut self, radius: usize)
        requires
            old(self).shaped(),
        ensures
            final(self).shaped(),
            final(self).columns == old(self).columns,
            final(self).row == old(self).row,
            final(self).column == old(self).column,
            final(self).constraints@ == expanded_right(
                old(self).constraints@,
                radius as int,
                old(self).columns as int,
            ),
    {
        let ghost start = self.constraints@;
        let length = self.constraints.len();
        let mut row: usize = 1;
        while row < length
            invariant
                self.shaped(),
                self.columns == old(self).columns,
                self.row == old(self).row,
                self.column == old(self).column,
                start == old(self).constraints@,
                band_valid(start, self.columns as int),
                length == start.len(),
                self.constraints@.len() == length,
                1 <= row <= length,
                forall|q: int|
                    0 <= q < length ==> #[trigger] self.constraints@[q] == gather_right(
                        start,
                        q,
                        taken_right(q, row as int, 0, radius as int),
                        radius as int,
                        self.columns as int,
                    ),
            decreases length - row,
        {
            let source = self.constraints.at(row);
            assert(source == start[row as int]);
            if source.0 <= source.1 {
                let reach = if radius >= self.columns - source.1 {
                    self.columns
                } else {
                    source.1 + radius
                };
                assert(reach == reach_right(source, radius as int, self.columns as int));
                let mut i: usize = 0;
                while i <= radius && i < row
                    invariant
                        self.shaped(),
                        self.columns == old(self).columns,
                        self.row == old(self).row,
                        self.column == old(self).column,
                        band_valid(start, self.columns as int),
                        length == start.len(),
                        self.constraints@.len() == length,
                        1 <= row < length,
                        i <= row,
                        i <= radius + 1,
                        source == start[row as int],
                        is_marked(source),
                        1 <= reach <= self.columns,
                        reach == reach_right(source, radius as int, self.columns as int),
                        forall|q: int|
                            0 <= q < length ==> #[trigger] self.constraints@[q] == gather_right(
                                start,
                                q,
                                taken_right(q, row as int, i as int, radius as int),
                                radius as int,
                                self.columns as int,
                            ),
                    decreases row - i,
                {
                    self.visit(row - i, reach);
                    i += 1;
                }
            }
            row += 1;
        }
        assert(self.constraints@ =~= expanded_right(start, radius as int, self.columns as int));
    }

    /// Lets every marked row reach `radius` columns before its minimum, for
    /// itself and for the `radius` rows below it.
    fn expand_minima(&mut self, radius: usize)
        requires
            old(self).shaped(),
        ensures
            final(self).shaped(),
            final(self).columns == old(self).columns,
            final(self).row == old(self).row,
            final(self).column == old(self).column,
            final(self).constraints@ == expanded_left(old(self).constraints@, radius as int),
    {
        let ghost start = self.constraints@;
        let length = self.constraints.len();
        let mut row: usize = length - 1;
        while row >= 1
            invariant
                self.shaped(),
                self.columns == old(self).columns,
                self.row == old(self).row,
                self.column == old(self).column,
                start == old(self).constraints@,
                band_valid(start, self.columns as int),
                length == start.len(),
                self.constraints@.len() == length,
                row < length,
                forall|q: int|
                    0 <= q < length ==> #[trigger] self.constraints@[q] == gather_left(
                        start,
                        q,
                        taken_left(q, row as int, 0, radius as int),
                        radius as int,
                    ),
            decreases row,
        {
            let source = self.constraints.at(row);
            assert(source == start[row as int]);
            if source.0 <= source.1 {
                let reach = if source.0 > radius {
                    source.0 - radius
                } else {
                    1
                };
                let mut i: usize = 0;
                while i <= radius && i < length - row
                    invariant
                        self.shaped(),
                        self.columns == old(self).columns,
                        self.row == old(self).row,
                        self.column == old(self).column,
                        band_valid(start, self.columns as int),
                        length == start.len(),
                        self.constraints@.len() == length,
                        1 <= row < length,
                        i <= length - row,
                        i <= radius + 1,
                        source == start[row as int],
                        is_marked(source),
                        1 <= reach <= self.columns,
                        reach == reach_left(source, radius as int),
                        forall|q: int|
                            0 <= q < length ==> #[trigger] self.constraints@[q] == gather_left(
                                start,
                                q,
                                taken_left(q, row as int, i as int, radius as int),
                                radius as int,
                            ),
                    decreases length - row - i,
                {
                    self.visit(row + i, reach);
                    i += 1;
                }
            }
            row -= 1;
        }
        assert(self.constraints@ =~= expanded_left(start, radius as int));
    }
}

/// How many rows the row `target` has taken the right reach of, once the rows
/// before `row` have handed theirs on and `row` has handed its own to the `i`
/// nearest rows above it.
pub open spec fn taken_right(target: int, row: int, i: int, radius: int) -> nat {
    if target < 1 || target > row {
        0
    } else {
        let distance = row - target;
        let earlier = if distance <= radius + 1 {
            distance
        } else {
            radius + 1
        };
        if distance <= radius && distance < i {
            (earlier + 1) as nat
        } else {
            earlier as nat
        }
    }
}

/// How many rows the row `target` has taken the left reach of, once the rows
/// after `row` have handed theirs on and `row` has handed its own to the `i`
/// nearest rows below it.
pub open spec fn taken_left(target: int, row: int, i: int, radius: int) -> nat {
    if target < 1 || target < row {
        0
    } else {
        let distance = target - row;
        let earlier = if distance <= radius + 1 {
            distance
        } else {
            radius + 1
        };
        if distance <= radius && distance < i {
            (earlier + 1) as nat
        } else {
            earlier as nat
        }
    }
}

impl Window for ConstrainedWindow {
    closed spec fn wf(&self) -> bool {
        &&& self.shaped()
        &&& 1 <= self.row <= self.constraints@.len()
        &&& self.row < self.constraints@.len() ==> self.constraints@[self.row as int].0
            <= self.column
    }

    closed spec fn rows(&self) -> int {
        self.constraints@.len() - 1
    }

    closed spec fn columns(&self) -> int {
        self.columns as int
    }

    closed spec fn remaining(&self) -> Seq<(usize, usize)> {
        band_from(self.constraints@, self.row as int, self.column as int)
    }

    proof fn lemma_remaining(&self) {
        lemma_band_from(self.constraints@, self.row as int, self.column as int, self.columns as int);
    }

    fn dimensions(&self) -> (size: (usize, usize)) {
        (self.constraints.len() - 1, self.columns)
    }

    fn next(&mut self) -> (cell: Option<(usize, usize)>)
        ensures
            final(self).bounds() == old(self).bounds(),
            cell matches Some(c) ==> c.0 < old(self).bounds().len() && old(self).bounds()[c.0 as int].0
                <= c.1 <= old(self).bounds()[c.0 as int].1,
    {
        let length = self.constraints.len();
        loop
            invariant
                self.wf(),
                length == self.constraints@.len(),
                self.constraints@ == old(self).constraints@,
                self.columns == old(self).columns,
                band_from(self.constraints@, self.row as int, self.column as int) == old(
                    self,
                ).remaining(),
            decreases length - self.row,
        {
            if self.row >= length {
                return None;
            }
            let bounds = self.constraints.at(self.row);
            assert(bounds == unmarked() || 1 <= bounds.0 <= bounds.1 <= self.columns);
            if self.column <= bounds.1 {
                let cell = (self.row, self.column);
                proof {
                    let rest = band_from(self.constraints@, self.row as int, self.column + 1);
                    assert(band_from(self.constraints@, self.row as int, self.column as int)
                        == seq![cell] + rest);
                    assert((seq![cell] + rest).drop_first() == rest);
                }
                self.column += 1;
                return Some(cell);
            }
            self.row += 1;
            if self.row < length {
                self.column = self.constraints.at(self.row).0;
            }
        }
    }
}

} // verus!
