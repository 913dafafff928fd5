use dtw::{
    coarse_block, coarse_len, config_max_cost_storage_matrix, dtw_ex, fastdtw, fastdtw_ex,
    is_base_case, minimum, Action, ConstrainedWindow, DistanceMode, FullWindow, PairArray,
    StorageConfig, INFINITE_COST,
};

/// The series of every level: the series as given and its coarser versions.
fn levels(series: &[f64], other_len: usize, factor: usize, radius: usize) -> Vec<Vec<f64>> {
    let mut all = vec![series.to_vec()];
    let mut other = other_len;
    while !is_base_case(all.last().unwrap().len(), other, radius) {
        let fine = all.last().unwrap();
        let coarse_size = coarse_len(fine.len(), factor);
        let mut coarse = Vec::new();
        for index in 0..coarse_size {
            let (start, end) = coarse_block(index, factor, fine.len());
            let sum: f64 = fine[start..end].iter().sum();
            coarse.push(sum / (end - start) as f64);
        }
        other = coarse_len(other, factor);
        all.push(coarse);
    }
    all
}

fn accumulate_over(
    x: Vec<Vec<f64>>,
    y: Vec<Vec<f64>>,
) -> impl Fn(usize, DistanceMode, usize, usize, u64) -> u64 {
    move |level, mode, row, column, predecessor| {
        let difference = x[level][column - 1] - y[level][row - 1];
        let local = match mode {
            DistanceMode::Manhattan => difference.abs(),
            DistanceMode::Euclidean => difference * difference,
        };
        (local + f64::from_bits(predecessor)).to_bits()
    }
}

fn root(cost: u64) -> u64 {
    f64::from_bits(cost).sqrt().to_bits()
}

fn exact(x: &[f64], y: &[f64], mode: DistanceMode) -> (f64, Vec<(usize, usize)>) {
    let accumulate = accumulate_over(vec![x.to_vec()], vec![y.to_vec()]);
    let window = FullWindow::new(y.len(), x.len());
    let config = StorageConfig::new();
    let (distance, path) =
        dtw_ex(x.len(), y.len(), window, mode, &accumulate, &root, &config).unwrap();
    (f64::from_bits(distance), path.to_vec())
}

fn fast(
    x: &[f64],
    y: &[f64],
    factor: usize,
    radius: usize,
    mode: DistanceMode,
) -> (f64, Vec<(usize, usize)>) {
    let accumulate =
        accumulate_over(levels(x, y.len(), factor, radius), levels(y, x.len(), factor, radius));
    let config = StorageConfig::new();
    let (distance, path) =
        fastdtw_ex(x.len(), y.len(), factor, radius, mode, &accumulate, &root, &config).unwrap();
    (f64::from_bits(distance), path.to_vec())
}

fn check_shape(path: &[(usize, usize)], x_size: usize, y_size: usize) {
    assert_eq!(path.first(), Some(&(0, 0)));
    assert_eq!(path.last(), Some(&(y_size - 1, x_size - 1)));
    for pair in path.windows(2) {
        let step = (pair[1].0 - pair[0].0, pair[1].1 - pair[0].1);
        assert!(step == (1, 0) || step == (0, 1) || step == (1, 1));
    }
}

const WAVE_X: [f64; 20] = [
    0.0, 1.0, 2.0, 3.0, 5.0, 8.0, 13.0, 8.0, 5.0, 3.0, 2.0, 1.0, 0.0, 0.0, 4.0, 9.0, 4.0, 1.0,
    0.0, 2.0,
];
const WAVE_Y: [f64; 19] = [
    0.0, 0.0, 1.0, 3.0, 3.0, 6.0, 9.0, 12.0, 9.0, 4.0, 2.0, 2.0, 1.0, 0.0, 5.0, 8.0, 5.0, 0.0,
    1.0,
];

fn wave_path() -> Vec<(usize, usize)> {
    vec![
        (0, 0), (1, 0), (2, 1), (3, 2), (4, 3), (5, 4), (6, 5), (7, 6), (8, 7), (9, 8), (10, 9),
        (11, 10), (12, 11), (13, 12), (13, 13), (14, 14), (15, 15), (16, 16), (17, 17), (17, 18),
        (18, 19),
    ]
}

const SHORT_X: [f64; 10] = [1.0, 3.0, 4.0, 9.0, 8.0, 2.0, 1.0, 5.0, 7.0, 3.0];
const SHORT_Y: [f64; 10] = [1.0, 6.0, 2.0, 3.0, 0.0, 9.0, 4.0, 3.0, 6.0, 3.0];

fn short_path() -> Vec<(usize, usize)> {
    vec![
        (0, 0), (1, 1), (2, 1), (3, 1), (4, 2), (5, 3), (5, 4), (6, 5), (7, 6), (8, 7), (8, 8),
        (9, 9),
    ]
}

#[test]
fn minimum_prefers_the_strictly_smallest() {
    assert_eq!(minimum(1, 2, 3), (1, Action::Inserted));
    assert_eq!(minimum(2, 1, 3), (1, Action::Deleted));
    assert_eq!(minimum(3, 2, 1), (1, Action::Matched));
    assert_eq!(minimum(2, 3, 1), (1, Action::Matched));
}

#[test]
fn minimum_breaks_ties() {
    // insertion before deletion
    assert_eq!(minimum(1, 1, 2), (1, Action::Inserted));
    // match before insertion and before deletion
    assert_eq!(minimum(1, 2, 1), (1, Action::Matched));
    assert_eq!(minimum(2, 1, 1), (1, Action::Matched));
    assert_eq!(minimum(1, 1, 1), (1, Action::Matched));
    assert_eq!(
        minimum(INFINITE_COST, INFINITE_COST, INFINITE_COST),
        (INFINITE_COST, Action::Matched)
    );
    assert_eq!(minimum(INFINITE_COST, INFINITE_COST, 0), (0, Action::Matched));
    assert_eq!(minimum(0, INFINITE_COST, INFINITE_COST), (0, Action::Inserted));
    assert_eq!(minimum(INFINITE_COST, 0, INFINITE_COST), (0, Action::Deleted));
}

#[test]
fn equal_series_have_distance_zero_and_the_diagonal_path() {
    let (distance, path) = exact(&[1.0, 1.0, 1.0], &[1.0, 1.0, 1.0], DistanceMode::Euclidean);
    assert_eq!(distance, 0.0);
    assert_eq!(path, vec![(0, 0), (1, 1), (2, 2)]);
}

#[test]
fn one_differing_sample_costs_its_squared_difference_once() {
    let x = [0.0, 0.0, 0.0];
    let y = [0.0, 2.0, 0.0];
    // the accumulated cost of the last cell is 4; the distance is its root
    let (distance, path) = exact(&x, &y, DistanceMode::Euclidean);
    assert_eq!(distance, 2.0);
    assert_eq!(path, vec![(0, 0), (1, 1), (2, 2)]);
    let (distance, path) = exact(&x, &y, DistanceMode::Manhattan);
    assert_eq!(distance, 2.0);
    assert_eq!(path, vec![(0, 0), (1, 1), (2, 2)]);
    let accumulate = accumulate_over(vec![x.to_vec()], vec![y.to_vec()]);
    let keep = |cost: u64| cost;
    let (cost, _) = dtw::dtw(3, 3, &accumulate, &keep, &StorageConfig::new());
    assert_eq!(f64::from_bits(cost), 4.0);
}

#[test]
fn test_dtw() {
    let (distance, path) = exact(&SHORT_X, &SHORT_Y, DistanceMode::Euclidean);
    assert_eq!(distance, 6.082762530298219);
    assert_eq!(path, short_path());
    let (distance, path) = exact(&SHORT_X, &SHORT_Y, DistanceMode::Manhattan);
    assert_eq!(distance, 15.0);
    assert_eq!(path, short_path());
    let (distance, path) = exact(&WAVE_X, &WAVE_Y, DistanceMode::Euclidean);
    assert_eq!(distance, 3.4641016151377544);
    assert_eq!(path, wave_path());
    let (distance, path) = exact(&WAVE_X, &WAVE_Y, DistanceMode::Manhattan);
    assert_eq!(distance, 12.0);
    assert_eq!(path, wave_path());
    let (distance, path) = exact(
        &[0.0, 1.0, 1.0, 2.0, 3.0, 2.0, 1.0],
        &[0.0, 1.0, 2.0, 3.0, 3.0, 2.0, 1.0, 0.0],
        DistanceMode::Manhattan,
    );
    assert_eq!(distance, 1.0);
    assert_eq!(
        path,
        vec![(0, 0), (1, 1), (1, 2), (2, 3), (3, 4), (4, 4), (5, 5), (6, 6), (7, 6)]
    );
}

#[test]
fn test_fast_dtw() {
    let (distance, path) = fast(&SHORT_X, &SHORT_Y, 2, 10, DistanceMode::Euclidean);
    assert_eq!(distance, 6.082762530298219);
    assert_eq!(path, short_path());
    let (distance, path) = fast(&SHORT_X, &SHORT_Y, 2, 10, DistanceMode::Manhattan);
    assert_eq!(distance, 15.0);
    assert_eq!(path, short_path());
    let (distance, path) = fast(&WAVE_X, &WAVE_Y, 2, 10, DistanceMode::Euclidean);
    assert_eq!(distance, 3.4641016151377544);
    assert_eq!(path, wave_path());
    let (distance, path) = fast(&WAVE_X, &WAVE_Y, 2, 10, DistanceMode::Manhattan);
    assert_eq!(distance, 12.0);
    assert_eq!(path, wave_path());
}

#[test]
fn dtw_takes_the_euclidean_mode() {
    let accumulate = accumulate_over(vec![SHORT_X.to_vec()], vec![SHORT_Y.to_vec()]);
    let (distance, path) = dtw::dtw(10, 10, &accumulate, &root, &StorageConfig::new());
    assert_eq!(f64::from_bits(distance), 6.082762530298219);
    assert_eq!(path.to_vec(), short_path());
}

#[test]
fn fastdtw_takes_factor_2_radius_1_and_the_euclidean_mode() {
    let accumulate =
        accumulate_over(levels(&WAVE_X, 19, 2, 1), levels(&WAVE_Y, 20, 2, 1));
    let (distance, path) = fastdtw(20, 19, &accumulate, &root, &StorageConfig::new()).unwrap();
    assert_eq!(f64::from_bits(distance), 3.4641016151377544);
    assert_eq!(path.to_vec(), wave_path());
    assert_eq!(
        (f64::from_bits(distance), path.to_vec()),
        fast(&WAVE_X, &WAVE_Y, 2, 1, DistanceMode::Euclidean)
    );
}

#[test]
fn fast_dtw_through_narrow_windows() {
    for radius in 0..3 {
        let (distance, path) = fast(&WAVE_X, &WAVE_Y, 2, radius, DistanceMode::Manhattan);
        assert_eq!(distance, 12.0);
        assert_eq!(path, wave_path());
    }
    let (distance, path) = fast(&WAVE_X, &WAVE_Y, 3, 1, DistanceMode::Euclidean);
    assert_eq!(distance, 3.4641016151377544);
    assert_eq!(path, wave_path());
}

#[test]
fn fast_dtw_is_an_approximation() {
    let x = [9.0, 1.0, 3.0, 9.0, 0.0, 9.0, 9.0, 6.0];
    let y = [0.0, 3.0, 0.0, 8.0, 2.0, 4.0, 6.0, 2.0, 8.0, 1.0, 9.0, 4.0, 8.0, 2.0];
    let (distance, path) = exact(&x, &y, DistanceMode::Manhattan);
    assert_eq!(distance, 33.0);
    assert_eq!(
        path,
        vec![
            (0, 0), (1, 1), (2, 1), (3, 2), (4, 2), (5, 2), (6, 2), (7, 2), (8, 3), (9, 4),
            (10, 5), (10, 6), (11, 7), (12, 7), (13, 7),
        ]
    );
    let (distance, path) = fast(&x, &y, 2, 0, DistanceMode::Manhattan);
    assert_eq!(distance, 48.0);
    assert_eq!(
        path,
        vec![
            (0, 0), (1, 1), (2, 1), (3, 1), (4, 1), (5, 1), (6, 1), (7, 1), (8, 1), (9, 2),
            (10, 3), (11, 4), (12, 5), (12, 6), (13, 7),
        ]
    );
    check_shape(&path, 8, 14);
}

#[test]
fn fast_dtw_on_long_series_stays_close_to_the_exact_distance() {
    let x: Vec<f64> = (0..60).map(|i| (i as f64 * 0.2).sin() * 10.0).collect();
    let y: Vec<f64> = (0..55).map(|i| (i as f64 * 0.2 + 0.5).sin() * 10.0).collect();
    let (exact_distance, exact_path) = exact(&x, &y, DistanceMode::Euclidean);
    let (distance, path) = fast(&x, &y, 2, 10, DistanceMode::Euclidean);
    check_shape(&exact_path, 60, 55);
    check_shape(&path, 60, 55);
    assert!(distance >= exact_distance);
    assert!(distance <= exact_distance * 1.5);
    let (distance, path) = fast(&x, &y, 2, 1, DistanceMode::Euclidean);
    check_shape(&path, 60, 55);
    assert!(distance >= exact_distance);
    assert!(distance <= exact_distance * 1.5);
}

#[test]
fn distance_is_symmetric() {
    for mode in [DistanceMode::Euclidean, DistanceMode::Manhattan] {
        assert_eq!(exact(&WAVE_X, &WAVE_Y, mode).0, exact(&WAVE_Y, &WAVE_X, mode).0);
        assert_eq!(exact(&SHORT_X, &SHORT_Y, mode).0, exact(&SHORT_Y, &SHORT_X, mode).0);
        assert_eq!(exact(&SHORT_X, &WAVE_Y, mode).0, exact(&WAVE_Y, &SHORT_X, mode).0);
    }
    assert_eq!(exact(&[3.0, 1.0, 0.0], &[0.0, 1.0, 3.0], DistanceMode::Manhattan).0, 6.0);
    assert_eq!(exact(&[0.0, 1.0, 3.0], &[3.0, 1.0, 0.0], DistanceMode::Manhattan).0, 6.0);
}

#[test]
fn a_series_aligned_to_itself() {
    for mode in [DistanceMode::Euclidean, DistanceMode::Manhattan] {
        let (distance, path) = exact(&WAVE_X, &WAVE_X, mode);
        assert_eq!(distance, 0.0);
        assert_eq!(path, (0..20).map(|i| (i, i)).collect::<Vec<_>>());
    }
}

#[test]
fn paths_advance_step_by_step_between_the_corners() {
    for mode in [DistanceMode::Euclidean, DistanceMode::Manhattan] {
        check_shape(&exact(&WAVE_X, &WAVE_Y, mode).1, 20, 19);
        check_shape(&exact(&SHORT_X, &WAVE_Y, mode).1, 10, 19);
        check_shape(&exact(&WAVE_X, &SHORT_Y, mode).1, 20, 10);
        check_shape(&exact(&[1.0], &WAVE_Y, mode).1, 1, 19);
        check_shape(&exact(&WAVE_X, &[1.0], mode).1, 20, 1);
    }
}

#[test]
fn single_samples() {
    let (distance, path) = exact(&[3.0], &[7.0], DistanceMode::Euclidean);
    assert_eq!(distance, 4.0);
    assert_eq!(path, vec![(0, 0)]);
    let (distance, path) = exact(&[3.0], &[7.0], DistanceMode::Manhattan);
    assert_eq!(distance, 4.0);
    assert_eq!(path, vec![(0, 0)]);
}

#[test]
fn ties_between_insertion_and_deletion_go_to_insertion() {
    let (distance, path) = exact(&[0.0, 5.0], &[0.0, 5.0, 5.0], DistanceMode::Manhattan);
    assert_eq!(distance, 0.0);
    assert_eq!(path, vec![(0, 0), (1, 1), (2, 1)]);
}

#[test]
fn empty_series_have_an_empty_path_and_an_infinite_distance() {
    let accumulate = accumulate_over(vec![vec![]], vec![vec![1.0, 2.0]]);
    let (distance, path) = dtw::dtw(0, 2, &accumulate, &root, &StorageConfig::new());
    assert_eq!(f64::from_bits(distance), f64::INFINITY);
    assert_eq!(path.len(), 0);
    let accumulate = accumulate_over(vec![vec![1.0]], vec![vec![]]);
    let (distance, path) = dtw::dtw(1, 0, &accumulate, &root, &StorageConfig::new());
    assert_eq!(f64::from_bits(distance), f64::INFINITY);
    assert_eq!(path.len(), 0);
    // both empty: the last cell is the origin
    let accumulate = accumulate_over(vec![vec![]], vec![vec![]]);
    let (distance, path) = dtw::dtw(0, 0, &accumulate, &root, &StorageConfig::new());
    assert_eq!(f64::from_bits(distance), 0.0);
    assert_eq!(path.len(), 0);
}

#[test]
fn costs_that_overflow_leave_a_path_that_misses_the_origin() {
    let (distance, path) = exact(&[1e200, 0.0], &[0.0], DistanceMode::Euclidean);
    assert_eq!(distance, f64::INFINITY);
    assert_eq!(path, vec![(0, 1)]);
}

#[test]
fn a_window_that_misses_the_last_cell_gives_no_path() {
    let x = vec![1.0, 2.0, 3.0];
    let accumulate = accumulate_over(vec![x.clone()], vec![x.clone()]);
    // the band of a coarse path that stops short of the last block
    let window =
        ConstrainedWindow::from_low_res_path(PairArray::from_vec(vec![(0, 0)]), 1, 0, 3, 3);
    let config = StorageConfig::new();
    let result = dtw_ex(3, 3, window, DistanceMode::Euclidean, &accumulate, &root, &config);
    assert!(result.is_none());
}

#[test]
fn a_constrained_window_that_holds_the_path_gives_the_exact_result() {
    let accumulate = accumulate_over(vec![WAVE_X.to_vec()], vec![WAVE_Y.to_vec()]);
    let coarse: Vec<(usize, usize)> = (0..10).map(|i| (i, i)).collect();
    let window = ConstrainedWindow::from_low_res_path(PairArray::from_vec(coarse), 2, 1, 19, 20);
    let config = StorageConfig::new();
    let (distance, path) =
        dtw_ex(20, 19, window, DistanceMode::Manhattan, &accumulate, &root, &config).unwrap();
    assert_eq!(f64::from_bits(distance), 12.0);
    assert_eq!(path.to_vec(), wave_path());
}

#[test]
fn the_storage_makes_no_difference() {
    let accumulate = accumulate_over(vec![WAVE_X.to_vec()], vec![WAVE_Y.to_vec()]);
    let mut config = StorageConfig::new();
    let mut results = Vec::new();
    // dense, sparse, and the same limit set twice
    for limit in [usize::MAX, 0, 0, 20 * 19 * 8, 20 * 19 * 8 + 1] {
        config_max_cost_storage_matrix(&mut config, limit);
        for _ in 0..2 {
            let (distance, path) = dtw::dtw(20, 19, &accumulate, &root, &config);
            results.push((distance, path.to_vec()));
        }
    }
    for result in &results {
        assert_eq!(result, &results[0]);
    }
    assert_eq!(f64::from_bits(results[0].0), 3.4641016151377544);

    let accumulate = accumulate_over(levels(&WAVE_X, 19, 2, 1), levels(&WAVE_Y, 20, 2, 1));
    config_max_cost_storage_matrix(&mut config, 0);
    let sparse = fastdtw(20, 19, &accumulate, &root, &config).unwrap();
    let dense = fastdtw(20, 19, &accumulate, &root, &StorageConfig::new()).unwrap();
    assert_eq!(sparse.0, dense.0);
    assert_eq!(sparse.1.to_vec(), dense.1.to_vec());
}

#[test]
fn coarse_series_have_one_sample_per_block() {
    assert_eq!(coarse_len(0, 2), 0);
    assert_eq!(coarse_len(1, 2), 1);
    assert_eq!(coarse_len(10, 2), 5);
    assert_eq!(coarse_len(11, 2), 6);
    assert_eq!(coarse_len(20, 3), 7);
    assert_eq!(coarse_len(7, 1), 7);
    assert_eq!(coarse_len(3, 10), 1);
    assert_eq!(coarse_len(usize::MAX, 2), usize::MAX / 2 + 1);
    assert_eq!(coarse_block(0, 2, 5), (0, 2));
    assert_eq!(coarse_block(1, 2, 5), (2, 4));
    assert_eq!(coarse_block(2, 2, 5), (4, 5));
    assert_eq!(coarse_block(6, 3, 20), (18, 20));
    assert_eq!(coarse_block(0, 10, 3), (0, 3));
    assert_eq!(
        levels(&WAVE_X, 100, 2, 7)[1],
        vec![0.5, 2.5, 6.5, 10.5, 4.0, 1.5, 0.0, 6.5, 2.5, 1.0]
    );
    assert_eq!(
        levels(&WAVE_X, 100, 3, 4)[1],
        vec![1.0, 16.0 / 3.0, 26.0 / 3.0, 2.0, 4.0 / 3.0, 14.0 / 3.0, 1.0]
    );
}

#[test]
fn short_series_are_the_base_case() {
    assert!(is_base_case(3, 100, 1));
    assert!(is_base_case(100, 3, 1));
    assert!(!is_base_case(4, 4, 1));
    assert!(is_base_case(0, 0, 0));
    assert!(is_base_case(2, 9, 0));
    assert!(!is_base_case(3, 3, 0));
    assert!(is_base_case(12, 50, 10));
    assert!(!is_base_case(13, 50, 10));
    assert!(is_base_case(usize::MAX, usize::MAX, usize::MAX));
    assert!(is_base_case(usize::MAX, usize::MAX, usize::MAX - 2));
    assert!(!is_base_case(usize::MAX, usize::MAX, usize::MAX - 3));
}

#[test]
fn series_that_fit_the_machine() {
    assert!(dtw::can_align(0, 0));
    assert!(dtw::can_align(1000, 2000));
    assert!(!dtw::can_align(usize::MAX, 1));
    assert!(!dtw::can_align(1, usize::MAX));
    let limit = isize::MAX as usize;
    assert!(!dtw::can_align(0, limit / 64 + 1));
    assert!(dtw::can_align(0, limit / 64));
    assert!(!dtw::can_align(limit / 16, 0));
    assert!(dtw::can_align(limit / 16 - 1, 0));
}

/// The least that accumulates along any warp path from the first pair to the
/// pair `(row, column)`, found by trying them all.
fn cheapest(x: &[f64], y: &[f64], row: usize, column: usize, mode: DistanceMode) -> f64 {
    let difference = x[column] - y[row];
    let local = match mode {
        DistanceMode::Manhattan => difference.abs(),
        DistanceMode::Euclidean => difference * difference,
    };
    if row == 0 && column == 0 {
        return local;
    }
    let mut best = f64::INFINITY;
    if row > 0 {
        best = best.min(cheapest(x, y, row - 1, column, mode));
    }
    if column > 0 {
        best = best.min(cheapest(x, y, row, column - 1, mode));
    }
    if row > 0 && column > 0 {
        best = best.min(cheapest(x, y, row - 1, column - 1, mode));
    }
    best + local
}

#[test]
fn no_warp_path_is_cheaper() {
    let x = [3.0, 1.0, 4.0, 1.0, 5.0, 9.0];
    let y = [2.0, 7.0, 1.0, 8.0, 2.0];
    let (distance, path) = exact(&x, &y, DistanceMode::Manhattan);
    assert_eq!(distance, cheapest(&x, &y, 4, 5, DistanceMode::Manhattan));
    // the path attains the distance
    let along: f64 = path.iter().map(|&(row, column)| (x[column] - y[row]).abs()).sum();
    assert_eq!(along, distance);
    let (distance, path) = exact(&x, &y, DistanceMode::Euclidean);
    assert_eq!(distance, cheapest(&x, &y, 4, 5, DistanceMode::Euclidean).sqrt());
    let along: f64 = path.iter().map(|&(row, column)| (x[column] - y[row]).powi(2)).sum();
    assert_eq!(along.sqrt(), distance);
}
