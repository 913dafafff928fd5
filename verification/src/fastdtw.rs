//! The approximate algorithm: it aligns coarser versions of the series first
//! and lets each warp path constrain the window of the next finer alignment.
//!
//! The caller coarsens the samples: the series of level `n + 1` holds, for
//! each block of `resolution_factor` samples of the series of level `n`, their
//! average. This module says how long the coarser series are and where their
//! blocks lie, and it asks for the arithmetic at the level that it works on.
use crate::arrays::PairArray;
use crate::band::lemma_band_cells;
use crate::cells::grid_from;
use crate::cost::{StorageConfig, INFINITE_COST};
use crate::dtw::{align, arithmetic_defined, dtw_outcome, outcome_of, sizes_fit};
use crate::enums::DistanceMode;
use crate::laws::{
    keeps_infinity, lemma_covered_outcome, lemma_full_outcome, lemma_grid_covers,
    lemma_linked_outcome, lemma_outcome_path, path_shaped, root_keeps_infinity, stays_finite,
};
use crate::linking::{crosses, lemma_projection_linked};
use crate::projection::{band_cells, projected, projection};
use crate::window::{ConstrainedWindow, FullWindow};
use vstd::prelude::*;

verus! {

/// The number of blocks of `factor` samples that `size` samples fall into,
/// the last block possibly short.
pub open spec fn coarse_size(size: int, factor: int) -> int {
    (size + factor - 1) / factor
}

/// The samples of a block of the series: from `start` up to `end`, which is
/// left out.
pub open spec fn block_of(index: int, factor: int, size: int) -> (int, int) {
    (index * factor, vstd::math::min(index * factor + factor, size))
}

/// Whether the series are so short that they are aligned over the full
/// window: one of them has at most `radius + 2` samples.
pub open spec fn is_base(x_size: int, y_size: int, radius: int) -> bool {
    x_size <= radius + 2 || y_size <= radius + 2
}

/// A coarser series is shorter, and not empty unless the finer one is.
pub proof fn lemma_coarse_size(size: int, factor: int)
    requires
        0 <= size,
        1 <= factor,
    ensures
        0 <= coarse_size(size, factor) <= size,
        size >= 1 ==> coarse_size(size, factor) >= 1,
        size >= 2 && factor >= 2 ==> coarse_size(size, factor) < size,
        (coarse_size(size, factor) - 1) * factor < size || size == 0,
        size <= coarse_size(size, factor) * factor,
{
    let coarse = coarse_size(size, factor);
    assert(coarse * factor <= size + factor - 1 < coarse * factor + factor) by (nonlinear_arith)
        requires
            coarse == (size + factor - 1) / factor,
            factor >= 1,
    ;
    assert(0 <= coarse <= size && (size >= 1 ==> coarse >= 1) && (size >= 2 && factor >= 2
        ==> coarse < size)) by (nonlinear_arith)
        requires
            coarse * factor <= size + factor - 1 < coarse * factor + factor,
            0 <= size,
            1 <= factor,
    ;
    assert((coarse - 1) * factor == coarse * factor - factor) by (nonlinear_arith);
}

/// The length of the series that coarsening by `factor` makes of a series of
/// `size` samples.
pub fn coarse_len(size: usize, factor: usize) -> (coarse: usize)
    requires
        factor >= 1,
    ensures
        coarse == coarse_size(size as int, factor as int),
        coarse <= size,
{
    proof {
        lemma_coarse_size(size as int, factor as int);
        let quotient = size as int / factor as int;
        let rest = size as int % factor as int;
        assert(size == quotient * factor + rest && 0 <= rest < factor) by (nonlinear_arith)
            requires
                quotient == size as int / factor as int,
                rest == size as int % factor as int,
                factor >= 1,
        ;
        let coarse = coarse_size(size as int, factor as int);
        assert(coarse == quotient + if rest != 0 {
            1int
        } else {
            0int
        }) by (nonlinear_arith)
            requires
                coarse == (size + factor - 1) / (factor as int),
                size == quotient * factor + rest,
                0 <= rest < factor,
        ;
    }
    if size % factor != 0 {
        size / factor + 1
    } else {
        size / factor
    }
}

/// The samples that the sample `index` of the coarser series is the average
/// of: those from `start` up to `end`, which is left out. The blocks follow
/// one another without a gap, none is empty, and the last one ends with the
/// series.
pub fn coarse_block(index: usize, factor: usize, size: usize) -> (block: (usize, usize))
    requires
        factor >= 1,
        index < coarse_size(size as int, factor as int),
    ensures
        (block.0 as int, block.1 as int) == block_of(index as int, factor as int, size as int),
        block.0 < block.1 <= size,
        block.1 - block.0 <= factor,
        block.1 == size <==> index + 1 == coarse_size(size as int, factor as int),
{
    proof {
        lemma_coarse_size(size as int, factor as int);
        let coarse = coarse_size(size as int, factor as int);
        assert(index * factor <= (coarse - 1) * factor && (index + 1 < coarse ==> index * factor
            + factor <= (coarse - 1) * factor) && (index + 1 == coarse ==> index * factor + factor
            == coarse * factor)) by (nonlinear_arith)
            requires
                0 <= index < coarse,
                factor >= 1,
        ;
    }
    let start = index * factor;
    let end = if size - start < factor {
        size
    } else {
        start + factor
    };
    (start, end)
}

/// Whether the series are aligned over the full window.
pub fn is_base_case(x_size: usize, y_size: usize, search_radius: usize) -> (base: bool)
    ensures
        base == is_base(x_size as int, y_size as int, search_radius as int),
{
    x_size <= 2 || x_size - 2 <= search_radius || y_size <= 2 || y_size - 2 <= search_radius
}

/// Whether the two functions may be called for every cell of the table at
/// `level` and of the coarser tables below it.
pub open spec fn levels_defined<
    A: Fn(usize, DistanceMode, usize, usize, u64) -> u64,
    R: Fn(u64) -> u64,
>(
    level: int,
    x_size: int,
    y_size: int,
    factor: int,
    radius: int,
    mode: DistanceMode,
    accumulate: A,
    root: R,
) -> bool
    decreases x_size,
    via levels_defined_decreases::<A, R>
{
    &&& arithmetic_defined(level as usize, mode, x_size as usize, y_size as usize, accumulate, root)
    &&& if is_base(x_size, y_size, radius) || factor < 2 || radius < 0 {
        true
    } else {
        levels_defined(
            level + 1,
            coarse_size(x_size, factor),
            coarse_size(y_size, factor),
            factor,
            radius,
            mode,
            accumulate,
            root,
        )
    }
}

#[via_fn]
proof fn levels_defined_decreases<
    A: Fn(usize, DistanceMode, usize, usize, u64) -> u64,
    R: Fn(u64) -> u64,
>(
    level: int,
    x_size: int,
    y_size: int,
    factor: int,
    radius: int,
    mode: DistanceMode,
    accumulate: A,
    root: R,
) {
    if !(is_base(x_size, y_size, radius) || factor < 2 || radius < 0) {
        lemma_coarse_size(x_size, factor);
    }
}

/// Functions that may be called with every argument are defined at every
/// level.
pub proof fn lemma_total_arithmetic_defined<
    A: Fn(usize, DistanceMode, usize, usize, u64) -> u64,
    R: Fn(u64) -> u64,
>(
    level: int,
    x_size: int,
    y_size: int,
    factor: int,
    radius: int,
    mode: DistanceMode,
    accumulate: A,
    root: R,
)
    requires
        forall|at: usize, row: usize, column: usize, cost: u64|
            call_requires(accumulate, (at, mode, row, column, cost)),
        forall|cost: u64| call_requires(root, (cost,)),
    ensures
        levels_defined(level, x_size, y_size, factor, radius, mode, accumulate, root),
    decreases x_size,
{
    if !(is_base(x_size, y_size, radius) || factor < 2 || radius < 0) {
        lemma_coarse_size(x_size, factor);
        lemma_total_arithmetic_defined(
            level + 1,
            coarse_size(x_size, factor),
            coarse_size(y_size, factor),
            factor,
            radius,
            mode,
            accumulate,
            root,
        );
    }
}

/// Whether `outcome` is what the alignment at this level makes of the
/// outcome of the coarser level: the alignment over the band that the coarser
/// path projects to, and no outcome where the coarser level has none.
pub open spec fn refined<
    A: Fn(usize, DistanceMode, usize, usize, u64) -> u64,
    R: Fn(u64) -> u64,
>(
    level: int,
    x_size: int,
    y_size: int,
    factor: int,
    radius: int,
    mode: DistanceMode,
    accumulate: A,
    root: R,
    coarse: Option<(u64, Seq<(usize, usize)>)>,
    outcome: Option<(u64, Seq<(usize, usize)>)>,
) -> bool {
    match coarse {
        Some((_, low_res_path)) => dtw_outcome(
            level as usize,
            x_size as usize,
            y_size as usize,
            band_cells(projection(low_res_path, factor, radius, y_size, x_size)),
            mode,
            accumulate,
            root,
            outcome,
        ),
        None => outcome.is_none(),
    }
}

/// Whether `outcome` is an outcome of the approximate alignment of a series X
/// of `x_size` samples to a series Y of `y_size` samples at `level`: for short
/// series the alignment over the full window; else the alignment over the
/// band that an outcome of the next coarser level projects to.
pub open spec fn fastdtw_outcome<
    A: Fn(usize, DistanceMode, usize, usize, u64) -> u64,
    R: Fn(u64) -> u64,
>(
    level: int,
    x_size: int,
    y_size: int,
    factor: int,
    radius: int,
    mode: DistanceMode,
    accumulate: A,
    root: R,
    outcome: Option<(u64, Seq<(usize, usize)>)>,
) -> bool
    decreases x_size,
    via fastdtw_outcome_decreases::<A, R>
{
    if is_base(x_size, y_size, radius) || factor < 2 || radius < 0 {
        dtw_outcome(
            level as usize,
            x_size as usize,
            y_size as usize,
            grid_from(1, 1, y_size, x_size),
            mode,
            accumulate,
            root,
            outcome,
        )
    } else {
        exists|coarse: Option<(u64, Seq<(usize, usize)>)>|
            #![trigger refined(level, x_size, y_size, factor, radius, mode, accumulate, root, coarse, outcome)]
            fastdtw_outcome(
                level + 1,
                coarse_size(x_size, factor),
                coarse_size(y_size, factor),
                factor,
                radius,
                mode,
                accumulate,
                root,
                coarse,
            ) && refined(
                level,
                x_size,
                y_size,
                factor,
                radius,
                mode,
                accumulate,
                root,
                coarse,
                outcome,
            )
    }
}

#[via_fn]
proof fn fastdtw_outcome_decreases<
    A: Fn(usize, DistanceMode, usize, usize, u64) -> u64,
    R: Fn(u64) -> u64,
>(
    level: int,
    x_size: int,
    y_size: int,
    factor: int,
    radius: int,
    mode: DistanceMode,
    accumulate: A,
    root: R,
    outcome: Option<(u64, Seq<(usize, usize)>)>,
) {
    if !(is_base(x_size, y_size, radius) || factor < 2 || radius < 0) {
        lemma_coarse_size(x_size, factor);
    }
}

/// The path of an outcome of the approximate alignment has the shape of a
/// warp path, and it starts at the pair `(0, 0)` where the distance is finite
/// and both functions keep infinity.
pub proof fn lemma_fastdtw_path<
    A: Fn(usize, DistanceMode, usize, usize, u64) -> u64,
    R: Fn(u64) -> u64,
>(
    level: usize,
    x_size: usize,
    y_size: usize,
    factor: int,
    radius: int,
    mode: DistanceMode,
    accumulate: A,
    root: R,
    distance: u64,
    path: Seq<(usize, usize)>,
)
    requires
        fastdtw_outcome(
            level as int,
            x_size as int,
            y_size as int,
            factor,
            radius,
            mode,
            accumulate,
            root,
            Some((distance, path)),
        ),
    ensures
        path_shaped(x_size, y_size, path),
        x_size >= 1 && y_size >= 1 && distance < INFINITE_COST && keeps_infinity(
            level,
            mode,
            accumulate,
        ) && root_keeps_infinity(root) ==> path[0] == (0usize, 0usize),
{
    let outcome = Some((distance, path));
    if is_base(x_size as int, y_size as int, radius) || factor < 2 || radius < 0 {
        lemma_outcome_path(
            level,
            x_size,
            y_size,
            grid_from(1, 1, y_size as int, x_size as int),
            mode,
            accumulate,
            root,
            distance,
            path,
        );
    } else {
        let coarse = choose|coarse: Option<(u64, Seq<(usize, usize)>)>|
            #![trigger refined(level as int, x_size as int, y_size as int, factor, radius, mode, accumulate, root, coarse, outcome)]
            fastdtw_outcome(
                level + 1,
                coarse_size(x_size as int, factor),
                coarse_size(y_size as int, factor),
                factor,
                radius,
                mode,
                accumulate,
                root,
                coarse,
            ) && refined(
                level as int,
                x_size as int,
                y_size as int,
                factor,
                radius,
                mode,
                accumulate,
                root,
                coarse,
                outcome,
            );
        let low_res_path = coarse.unwrap().1;
        lemma_outcome_path(
            level,
            x_size,
            y_size,
            band_cells(projection(low_res_path, factor, radius, y_size as int, x_size as int)),
            mode,
            accumulate,
            root,
            distance,
            path,
        );
    }
}

/// Whether the arithmetic overflows at no level.
pub open spec fn always_finite<A: Fn(usize, DistanceMode, usize, usize, u64) -> u64>(
    mode: DistanceMode,
    accumulate: A,
) -> bool {
    forall|level: usize| #[trigger] stays_finite(level, mode, accumulate)
}

/// The approximate alignment finds a path. Where the arithmetic overflows at
/// no level, the approximate alignment of series that are not empty has an
/// outcome at every level: the band that the coarser path projects to is
/// linked, so the way back from the last cell stays in it. The path has the
/// shape of a warp path and starts at the pair `(0, 0)`.
pub proof fn lemma_fastdtw_finds_path<
    A: Fn(usize, DistanceMode, usize, usize, u64) -> u64,
    R: Fn(u64) -> u64,
>(
    level: usize,
    x_size: usize,
    y_size: usize,
    factor: int,
    radius: int,
    mode: DistanceMode,
    accumulate: A,
    root: R,
    outcome: Option<(u64, Seq<(usize, usize)>)>,
)
    requires
        fastdtw_outcome(
            level as int,
            x_size as int,
            y_size as int,
            factor,
            radius,
            mode,
            accumulate,
            root,
            outcome,
        ),
        1 <= x_size < usize::MAX,
        1 <= y_size < usize::MAX,
        level + x_size <= usize::MAX,
        always_finite(mode, accumulate),
    ensures
        outcome.is_some(),
        path_shaped(x_size, y_size, outcome.unwrap().1),
        outcome.unwrap().1[0] == (0usize, 0usize),
    decreases x_size,
{
    assert(stays_finite(level, mode, accumulate));
    if is_base(x_size as int, y_size as int, radius) || factor < 2 || radius < 0 {
        lemma_full_outcome(level, x_size, y_size, mode, accumulate, root, outcome);
        lemma_outcome_path(
            level,
            x_size,
            y_size,
            grid_from(1, 1, y_size as int, x_size as int),
            mode,
            accumulate,
            root,
            outcome.unwrap().0,
            outcome.unwrap().1,
        );
    } else {
        let coarse = choose|coarse: Option<(u64, Seq<(usize, usize)>)>|
            #![trigger refined(level as int, x_size as int, y_size as int, factor, radius, mode, accumulate, root, coarse, outcome)]
            fastdtw_outcome(
                level + 1,
                coarse_size(x_size as int, factor),
                coarse_size(y_size as int, factor),
                factor,
                radius,
                mode,
                accumulate,
                root,
                coarse,
            ) && refined(
                level as int,
                x_size as int,
                y_size as int,
                factor,
                radius,
                mode,
                accumulate,
                root,
                coarse,
                outcome,
            );
        lemma_coarse_size(x_size as int, factor);
        lemma_coarse_size(y_size as int, factor);
        let coarse_x = coarse_size(x_size as int, factor) as usize;
        let coarse_y = coarse_size(y_size as int, factor) as usize;
        lemma_fastdtw_finds_path(
            (level + 1) as usize,
            coarse_x,
            coarse_y,
            factor,
            radius,
            mode,
            accumulate,
            root,
            coarse,
        );
        let low_res_path = coarse.unwrap().1;
        lemma_coarse_path_crosses(x_size, y_size, factor, low_res_path);
        lemma_refined_finds_path(
            level,
            x_size,
            y_size,
            factor,
            radius,
            mode,
            accumulate,
            root,
            low_res_path,
            outcome,
        );
    }
}

/// A warp path between the coarser series leads through the coarse table from
/// its first cell to its last.
pub proof fn lemma_coarse_path_crosses(
    x_size: usize,
    y_size: usize,
    factor: int,
    low_res_path: Seq<(usize, usize)>,
)
    requires
        1 <= x_size,
        1 <= y_size,
        1 <= factor,
        path_shaped(
            coarse_size(x_size as int, factor) as usize,
            coarse_size(y_size as int, factor) as usize,
            low_res_path,
        ),
        low_res_path[0] == (0usize, 0usize),
    ensures
        crosses(low_res_path, factor, y_size as int, x_size as int),
{
    lemma_coarse_size(x_size as int, factor);
    lemma_coarse_size(y_size as int, factor);
    let coarse_x = coarse_size(x_size as int, factor);
    let coarse_y = coarse_size(y_size as int, factor);
    let last = low_res_path.last();
    assert(last == ((coarse_y - 1) as usize, (coarse_x - 1) as usize));
    assert((last.0 + 1) * factor == coarse_y * factor) by (nonlinear_arith)
        requires
            last.0 + 1 == coarse_y,
    ;
    assert((last.1 + 1) * factor == coarse_x * factor) by (nonlinear_arith)
        requires
            last.1 + 1 == coarse_x,
    ;
    assert(last.0 * factor == (coarse_y - 1) * factor) by (nonlinear_arith)
        requires
            last.0 == coarse_y - 1,
    ;
    assert(last.1 * factor == (coarse_x - 1) * factor) by (nonlinear_arith)
        requires
            last.1 == coarse_x - 1,
    ;
}

/// The alignment over the band of a coarser path that leads through the
/// coarse table finds a path, where the arithmetic does not overflow.
pub proof fn lemma_refined_finds_path<
    A: Fn(usize, DistanceMode, usize, usize, u64) -> u64,
    R: Fn(u64) -> u64,
>(
    level: usize,
    x_size: usize,
    y_size: usize,
    factor: int,
    radius: int,
    mode: DistanceMode,
    accumulate: A,
    root: R,
    low_res_path: Seq<(usize, usize)>,
    outcome: Option<(u64, Seq<(usize, usize)>)>,
)
    requires
        dtw_outcome(
            level,
            x_size,
            y_size,
            band_cells(projection(low_res_path, factor, radius, y_size as int, x_size as int)),
            mode,
            accumulate,
            root,
            outcome,
        ),
        crosses(low_res_path, factor, y_size as int, x_size as int),
        1 <= x_size < usize::MAX,
        1 <= y_size < usize::MAX,
        1 <= factor,
        0 <= radius,
        stays_finite(level, mode, accumulate),
    ensures
        outcome.is_some(),
        path_shaped(x_size, y_size, outcome.unwrap().1),
        outcome.unwrap().1[0] == (0usize, 0usize),
{
    lemma_projection_linked(low_res_path, factor, radius, y_size as int, x_size as int);
    let bounds = projection(low_res_path, factor, radius, y_size as int, x_size as int);
    lemma_projection_length(low_res_path, low_res_path.len(), factor, y_size as int, x_size as int);
    lemma_band_cells(bounds, x_size as int);
    lemma_linked_outcome(
        level,
        x_size,
        y_size,
        band_cells(bounds),
        bounds,
        mode,
        accumulate,
        root,
        outcome,
    );
    lemma_outcome_path(
        level,
        x_size,
        y_size,
        band_cells(bounds),
        mode,
        accumulate,
        root,
        outcome.unwrap().0,
        outcome.unwrap().1,
    );
}

/// The bounds of a projection have one entry per row and one for the boundary.
pub proof fn lemma_projection_length(
    path: Seq<(usize, usize)>,
    count: nat,
    factor: int,
    rows: int,
    columns: int,
)
    requires
        rows >= 0,
        count <= path.len(),
    ensures
        projected(path, count, factor, rows, columns).len() == rows + 1,
        count == path.len() ==> forall|radius: int|
            (#[trigger] projection(path, factor, radius, rows, columns)).len() == rows + 1,
    decreases count,
{
    if count > 0 {
        lemma_projection_length(path, (count - 1) as nat, factor, rows, columns);
    }
}

/// Aligns the series of `level`, and before them the coarser ones.
fn descend<A: Fn(usize, DistanceMode, usize, usize, u64) -> u64, R: Fn(u64) -> u64>(
    level: usize,
    x_size: usize,
    y_size: usize,
    resolution_factor: usize,
    search_radius: usize,
    distance_mode: DistanceMode,
    accumulate: &A,
    root: &R,
    config: &StorageConfig,
) -> (result: Option<(u64, PairArray)>)
    requires
        sizes_fit(x_size as int, y_size as int),
        level + x_size <= usize::MAX,
        resolution_factor >= 2 || is_base(x_size as int, y_size as int, search_radius as int),
        levels_defined(
            level as int,
            x_size as int,
            y_size as int,
            resolution_factor as int,
            search_radius as int,
            distance_mode,
            *accumulate,
            *root,
        ),
    ensures
        fastdtw_outcome(
            level as int,
            x_size as int,
            y_size as int,
            resolution_factor as int,
            search_radius as int,
            distance_mode,
            *accumulate,
            *root,
            outcome_of(result),
        ),
        is_base(x_size as int, y_size as int, search_radius as int) ==> result.is_some(),
    decreases x_size,
{
    if is_base_case(x_size, y_size, search_radius) {
        // base case: very short series are aligned over the full window
        let window = FullWindow::new(y_size, x_size);
        let result = align(level, x_size, y_size, window, distance_mode, accumulate, root, config);
        proof {
            lemma_grid_covers(y_size as int, x_size as int);
            lemma_covered_outcome(
                level,
                x_size,
                y_size,
                grid_from(1, 1, y_size as int, x_size as int),
                distance_mode,
                *accumulate,
                *root,
                outcome_of(result),
            );
        }
        result
    } else {
        // recursive case: the warp path of the coarser series is projected onto
        // this resolution, and the series are aligned along it only, and
        // `search_radius` cells to its sides
        proof {
            lemma_coarse_size(x_size as int, resolution_factor as int);
            lemma_coarse_size(y_size as int, resolution_factor as int);
        }
        let coarse_x = coarse_len(x_size, resolution_factor);
        let coarse_y = coarse_len(y_size, resolution_factor);
        let coarse = descend(
            level + 1,
            coarse_x,
            coarse_y,
            resolution_factor,
            search_radius,
            distance_mode,
            accumulate,
            root,
            config,
        );
        let ghost coarse_outcome = outcome_of(coarse);
        match coarse {
            Some((_, low_res_path)) => {
                let constrained_window = ConstrainedWindow::from_low_res_path(
                    low_res_path,
                    resolution_factor,
                    search_radius,
                    y_size,
                    x_size,
                );
                let result = align(
                    level,
                    x_size,
                    y_size,
                    constrained_window,
                    distance_mode,
                    accumulate,
                    root,
                    config,
                );
                proof {
                    assert(refined(
                        level as int,
                        x_size as int,
                        y_size as int,
                        resolution_factor as int,
                        search_radius as int,
                        distance_mode,
                        *accumulate,
                        *root,
                        coarse_outcome,
                        outcome_of(result),
                    ));
                }
                result
            },
            None => {
                proof {
                    assert(refined(
                        level as int,
                        x_size as int,
                        y_size as int,
                        resolution_factor as int,
                        search_radius as int,
                        distance_mode,
                        *accumulate,
                        *root,
                        coarse_outcome,
                        None,
                    ));
                }
                None
            },
        }
    }
}

/// Aligns a series X of `x_size` samples to a series Y of `y_size` samples
/// approximately. Series of which one has at most `search_radius + 2` samples
/// are aligned over the full window. Longer ones are coarsened by
/// `resolution_factor`, the coarser ones are aligned in the same way, and
/// their warp path, widened by `search_radius`, constrains the window of the
/// alignment. Returns the distance and the warp path, or `None` where the way
/// back from the last cell of some level leaves its window.
pub fn fastdtw_ex<A: Fn(usize, DistanceMode, usize, usize, u64) -> u64, R: Fn(u64) -> u64>(
    x_size: usize,
    y_size: usize,
    resolution_factor: usize,
    search_radius: usize,
    distance_mode: DistanceMode,
    accumulate: &A,
    root: &R,
    config: &StorageConfig,
) -> (result: Option<(u64, PairArray)>)
    requires
        sizes_fit(x_size as int, y_size as int),
        resolution_factor >= 2 || is_base(x_size as int, y_size as int, search_radius as int),
        levels_defined(
            0,
            x_size as int,
            y_size as int,
            resolution_factor as int,
            search_radius as int,
            distance_mode,
            *accumulate,
            *root,
        ),
    ensures
        fastdtw_outcome(
            0,
            x_size as int,
            y_size as int,
            resolution_factor as int,
            search_radius as int,
            distance_mode,
            *accumulate,
            *root,
            outcome_of(result),
        ),
        is_base(x_size as int, y_size as int, search_radius as int) ==> result.is_some(),
        x_size >= 1 && y_size >= 1 && always_finite(distance_mode, *accumulate)
            ==> result.is_some(),
        result matches Some((distance, path)) ==> {
            &&& path_shaped(x_size, y_size, path@)
            &&& x_size >= 1 && y_size >= 1 && always_finite(distance_mode, *accumulate)
                ==> path@[0] == (0usize, 0usize)
            &&& x_size >= 1 && y_size >= 1 && distance < INFINITE_COST && keeps_infinity(
                0,
                distance_mode,
                *accumulate,
            ) && root_keeps_infinity(*root) ==> path@[0] == (0usize, 0usize)
        },
{
    let result = descend(
        0,
        x_size,
        y_size,
        resolution_factor,
        search_radius,
        distance_mode,
        accumulate,
        root,
        config,
    );
    proof {
        if let Some(outcome) = outcome_of(result) {
            lemma_fastdtw_path(
                0,
                x_size,
                y_size,
                resolution_factor as int,
                search_radius as int,
                distance_mode,
                *accumulate,
                *root,
                outcome.0,
                outcome.1,
            );
        }
        if x_size >= 1 && y_size >= 1 && always_finite(distance_mode, *accumulate) {
            lemma_fastdtw_finds_path(
                0,
                x_size,
                y_size,
                resolution_factor as int,
                search_radius as int,
                distance_mode,
                *accumulate,
                *root,
                outcome_of(result),
            );
        }
    }
    result
}

/// Aligns the series approximately with the resolution factor 2 and the
/// search radius 1, under the Euclidean mode.
pub fn fastdtw<A: Fn(usize, DistanceMode, usize, usize, u64) -> u64, R: Fn(u64) -> u64>(
    x_size: usize,
    y_size: usize,
    accumulate: &A,
    root: &R,
    config: &StorageConfig,
) -> (result: Option<(u64, PairArray)>)
    requires
        sizes_fit(x_size as int, y_size as int),
        levels_defined(
            0,
            x_size as int,
            y_size as int,
            2,
            1,
            DistanceMode::Euclidean,
            *accumulate,
            *root,
        ),
    ensures
        fastdtw_outcome(
            0,
            x_size as int,
            y_size as int,
            2,
            1,
            DistanceMode::Euclidean,
            *accumulate,
            *root,
            outcome_of(result),
        ),
        x_size >= 1 && y_size >= 1 && always_finite(DistanceMode::Euclidean, *accumulate)
            ==> result.is_some(),
        result matches Some((distance, path)) ==> {
            &&& path_shaped(x_size, y_size, path@)
            &&& x_size >= 1 && y_size >= 1 && always_finite(DistanceMode::Euclidean, *accumulate)
                ==> path@[0] == (0usize, 0usize)
        },
{
    fastdtw_ex(x_size, y_size, 2, 1, DistanceMode::Euclidean, accumulate, root, config)
}

} // verus!
