use dtw::{ConstrainedWindow, FullWindow, PairArray, Window};

fn drain<W: Window>(mut window: W) -> Vec<(usize, usize)> {
    let mut cells = Vec::new();
    while let Some(cell) = window.next() {
        cells.push(cell);
    }
    assert_eq!(window.next(), None);
    cells
}

/// The cells of a band, given for each row from 1 on its first and last column.
fn band(bounds: &[(usize, usize)]) -> Vec<(usize, usize)> {
    let mut cells = Vec::new();
    for (index, &(low, high)) in bounds.iter().enumerate() {
        for column in low..=high {
            cells.push((index + 1, column));
        }
    }
    cells
}

fn project(
    path: &[(usize, usize)],
    factor: usize,
    radius: usize,
    rows: usize,
    columns: usize,
) -> Vec<(usize, usize)> {
    let path = PairArray::from_vec(path.to_vec());
    drain(ConstrainedWindow::from_low_res_path(path, factor, radius, rows, columns))
}

#[test]
fn full_window_visits_every_cell_row_by_row() {
    let cells = drain(FullWindow::new(2, 3));
    assert_eq!(cells, vec![(1, 1), (1, 2), (1, 3), (2, 1), (2, 2), (2, 3)]);
}

#[test]
fn full_window_of_a_single_cell() {
    assert_eq!(drain(FullWindow::new(1, 1)), vec![(1, 1)]);
}

#[test]
fn full_window_without_rows_or_columns_is_empty() {
    assert_eq!(drain(FullWindow::new(0, 3)), vec![]);
    assert_eq!(drain(FullWindow::new(3, 0)), vec![]);
    assert_eq!(drain(FullWindow::new(0, 0)), vec![]);
}

#[test]
fn pair_array_round_trip() {
    let array = PairArray::from_vec(vec![(0, 0), (1, 2)]);
    assert_eq!(array.len(), 2);
    assert_eq!(array.get(0), Some((0, 0)));
    assert_eq!(array.get(1), Some((1, 2)));
    assert_eq!(array.get(2), None);
    assert_eq!(array.to_vec(), vec![(0, 0), (1, 2)]);
    assert_eq!(PairArray::from_vec(Vec::new()).len(), 0);
}

#[test]
fn test_window_projection() {
    // a diagonal path, factor 2, radius 1
    assert_eq!(
        project(&[(0, 0), (1, 1), (2, 2)], 2, 1, 6, 6),
        band(&[(1, 4), (1, 5), (1, 6), (1, 6), (2, 6), (3, 6)])
    );
    // a path with a step to the right, factor 3, radius 1, a table that the
    // last blocks stick out of
    assert_eq!(
        project(&[(0, 0), (0, 1), (1, 2), (2, 2)], 3, 1, 8, 9),
        band(&[(1, 9), (1, 9), (1, 9), (1, 9), (4, 9), (4, 9), (6, 9), (6, 9)])
    );
}

#[test]
fn projection_without_radius_marks_blocks_and_corner_patches() {
    // factor 2: the blocks meet at a corner, and one cell on either side of
    // the corner joins them
    assert_eq!(
        project(&[(0, 0), (1, 1)], 2, 0, 4, 4),
        band(&[(1, 2), (1, 3), (2, 4), (3, 4)])
    );
    // factor 3: the patches have two rows and two columns
    assert_eq!(
        project(&[(0, 0), (1, 1), (2, 2)], 3, 0, 7, 8),
        band(&[(1, 3), (1, 5), (1, 5), (2, 6), (2, 8), (4, 8), (5, 8)])
    );
}

#[test]
fn projection_of_a_straight_path_has_no_patches() {
    assert_eq!(project(&[(0, 0), (0, 1)], 2, 0, 2, 4), band(&[(1, 4), (1, 4)]));
    assert_eq!(project(&[(0, 0), (1, 0)], 2, 0, 4, 2), band(&[(1, 2), (1, 2), (1, 2), (1, 2)]));
}

#[test]
fn projection_of_an_empty_path_is_empty() {
    assert_eq!(project(&[], 2, 1, 4, 4), vec![]);
}

#[test]
fn projection_skips_rows_that_the_path_does_not_come_near() {
    // only the first coarse cell is given: rows 1 and 2 are marked, row 3 is
    // reached by the radius, rows 4 to 6 stay empty
    assert_eq!(project(&[(0, 0)], 2, 1, 6, 6), band(&[(1, 3), (1, 3), (1, 1)]));
}

#[test]
fn projection_onto_a_table_without_columns_is_empty() {
    assert_eq!(project(&[(0, 0)], 2, 1, 2, 0), vec![]);
    assert_eq!(project(&[(0, 0)], 2, 1, 0, 2), vec![]);
}

#[test]
fn projection_ignores_cells_outside_the_table() {
    assert_eq!(project(&[(5, 5)], 2, 0, 4, 4), vec![]);
    assert_eq!(project(&[(usize::MAX, usize::MAX)], usize::MAX, 0, 2, 2), vec![]);
    assert_eq!(project(&[(0, 0), (7, 7)], 2, 0, 2, 2), band(&[(1, 2), (1, 2)]));
}

#[test]
fn projection_with_a_huge_radius_reaches_every_row() {
    // the marked row reaches to the last column; the rows below it take its
    // reach to the left, which is the first column
    assert_eq!(
        project(&[(0, 0)], 1, usize::MAX, 3, 3),
        band(&[(1, 3), (1, 1), (1, 1)])
    );
}

#[test]
fn constrained_window_cells_are_row_major_and_in_the_table() {
    let cells = project(&[(0, 0), (1, 1), (1, 2), (2, 3)], 2, 1, 6, 8);
    assert!(!cells.is_empty());
    for pair in cells.windows(2) {
        assert!(pair[0] < pair[1]);
    }
    for &(row, column) in &cells {
        assert!(1 <= row && row <= 6);
        assert!(1 <= column && column <= 8);
    }
    assert_eq!(cells.first(), Some(&(1, 1)));
    assert_eq!(cells.last(), Some(&(6, 8)));
}

#[test]
fn windows_know_their_tables() {
    assert_eq!(FullWindow::new(3, 5).dimensions(), (3, 5));
    assert_eq!(FullWindow::new(0, 0).dimensions(), (0, 0));
    let path = PairArray::from_vec(vec![(0, 0)]);
    assert_eq!(ConstrainedWindow::from_low_res_path(path, 2, 1, 4, 7).dimensions(), (4, 7));
}

#[test]
fn constrained_window_stays_between_the_bounds_of_each_row() {
    let path = PairArray::from_vec(vec![(0, 0), (1, 1), (1, 2), (2, 3)]);
    let mut window = ConstrainedWindow::from_low_res_path(path, 2, 1, 6, 8);
    assert_eq!(window.row_bounds(0), Some((usize::MAX, 0)));
    assert_eq!(window.row_bounds(1), Some((1, 4)));
    assert_eq!(window.row_bounds(6), Some((5, 8)));
    assert_eq!(window.row_bounds(7), None);
    let mut count = 0;
    while let Some((row, column)) = window.next() {
        let (low, high) = window.row_bounds(row).unwrap();
        assert!(low <= column && column <= high);
        count += 1;
    }
    let mut expected = 0;
    for row in 1..=6 {
        let (low, high) = window.row_bounds(row).unwrap();
        expected += high - low + 1;
    }
    assert_eq!(count, expected);
}

#[test]
fn band_of_a_warp_path_is_linked() {
    let coarse = vec![(0, 0), (1, 0), (2, 1), (2, 2), (3, 3), (4, 3)];
    for radius in 0..4 {
        for factor in 1..5 {
            let rows = 5 * factor - (factor - 1);
            let columns = 4 * factor;
            let path = PairArray::from_vec(coarse.clone());
            let window = ConstrainedWindow::from_low_res_path(path, factor, radius, rows, columns);
            let bounds: Vec<(usize, usize)> =
                (1..=rows).map(|row| window.row_bounds(row).unwrap()).collect();
            assert_eq!(bounds[0].0, 1);
            assert_eq!(bounds[rows - 1].1, columns);
            for pair in bounds.windows(2) {
                let (above, below) = (pair[0], pair[1]);
                assert!(above.0 <= above.1);
                assert!(above.0 <= below.0 && below.0 <= above.1 + 1);
                assert!(above.1 <= below.1);
            }
        }
    }
}
