use dtw::{
    apply, config_max_cost_storage_matrix, cost_storage, Action, CostCache, CostMatrix,
    CostStorage, Storage, StorageConfig, Write, DEFAULT_MAX_COST_STORAGE_MATRIX, INFINITE_COST,
};

fn check_boundary<S: CostStorage>(storage: &S, rows: usize, columns: usize) {
    assert_eq!(storage.get_cost(0, 0), 0);
    for column in 1..=columns {
        assert_eq!(storage.get_cost(0, column), INFINITE_COST);
    }
    for row in 1..=rows {
        assert_eq!(storage.get_cost(row, 0), INFINITE_COST);
    }
}

#[test]
fn infinite_cost_is_the_bit_pattern_of_infinity() {
    assert_eq!(INFINITE_COST, f64::INFINITY.to_bits());
    assert_eq!(0u64, 0.0f64.to_bits());
}

#[test]
fn boundary_of_a_fresh_storage() {
    check_boundary(&CostMatrix::new(3, 4), 3, 4);
    check_boundary(&CostCache::new(3), 3, 4);
}

#[test]
fn boundary_stays_after_writes() {
    let mut dense = CostMatrix::new(2, 2);
    let mut sparse = CostCache::new(2);
    dense.set_cost(1, 1, 7);
    sparse.set_cost(1, 1, 7);
    dense.set_cost(2, 2, 9);
    sparse.set_cost(2, 2, 9);
    check_boundary(&dense, 2, 2);
    check_boundary(&sparse, 2, 2);
}

#[test]
fn unwritten_cells_read_as_infinite_and_unknown() {
    let dense = CostMatrix::new(2, 3);
    let sparse = CostCache::new(2);
    for row in 1..=2 {
        for column in 1..=3 {
            assert_eq!(dense.get_cost(row, column), INFINITE_COST);
            assert_eq!(sparse.get_cost(row, column), INFINITE_COST);
            assert_eq!(dense.get_action(row, column), Action::Unknown);
            assert_eq!(sparse.get_action(row, column), Action::Unknown);
        }
    }
}

#[test]
fn written_cells_read_back() {
    let mut dense = CostMatrix::new(2, 3);
    dense.set_cost(2, 3, 42);
    dense.set_action(2, 3, Action::Deleted);
    dense.set_cost(1, 1, 5);
    assert_eq!(dense.get_cost(2, 3), 42);
    assert_eq!(dense.get_action(2, 3), Action::Deleted);
    assert_eq!(dense.get_cost(1, 1), 5);
    assert_eq!(dense.get_action(1, 1), Action::Unknown);
    assert_eq!(dense.get_cost(1, 3), INFINITE_COST);
    dense.set_cost(2, 3, 43);
    assert_eq!(dense.get_cost(2, 3), 43);

    let mut sparse = CostCache::new(2);
    sparse.set_cost(2, 3, 42);
    sparse.set_action(2, 3, Action::Inserted);
    assert_eq!(sparse.get_cost(2, 3), 42);
    assert_eq!(sparse.get_action(2, 3), Action::Inserted);
    assert_eq!(sparse.get_cost(2, 2), INFINITE_COST);
    assert_eq!(sparse.get_cost(1, 3), INFINITE_COST);
    sparse.set_action(2, 3, Action::Matched);
    assert_eq!(sparse.get_action(2, 3), Action::Matched);
    // the sparse storage takes any column
    sparse.set_cost(1, 1_000_000, 1);
    assert_eq!(sparse.get_cost(1, 1_000_000), 1);
}

#[test]
fn dense_and_sparse_agree_after_the_same_writes() {
    let writes = vec![
        Write::Cost { row: 1, column: 1, cost: 3 },
        Write::Action { row: 1, column: 1, action: Action::Matched },
        Write::Cost { row: 2, column: 3, cost: 8 },
        Write::Action { row: 3, column: 2, action: Action::Inserted },
        Write::Cost { row: 1, column: 1, cost: 4 },
        Write::Action { row: 1, column: 1, action: Action::Deleted },
        Write::Cost { row: 3, column: 4, cost: INFINITE_COST },
    ];
    let mut dense = CostMatrix::new(3, 4);
    let mut sparse = CostCache::new(3);
    for write in writes {
        match write {
            Write::Cost { row, column, cost } => {
                apply(&mut dense, Write::Cost { row, column, cost });
                apply(&mut sparse, Write::Cost { row, column, cost });
            }
            Write::Action { row, column, action } => {
                apply(&mut dense, Write::Action { row, column, action });
                apply(&mut sparse, Write::Action { row, column, action });
            }
        }
        for row in 0..=3 {
            for column in 0..=4 {
                assert_eq!(dense.get_cost(row, column), sparse.get_cost(row, column));
                if row > 0 && column > 0 {
                    assert_eq!(dense.get_action(row, column), sparse.get_action(row, column));
                }
            }
        }
    }
    assert_eq!(dense.get_cost(1, 1), 4);
    assert_eq!(dense.get_action(1, 1), Action::Deleted);
    assert_eq!(sparse.get_action(3, 2), Action::Inserted);
}

#[test]
fn default_action_is_unknown() {
    assert_eq!(Action::default(), Action::Unknown);
}

#[test]
fn default_limit_is_32_gib() {
    assert_eq!(DEFAULT_MAX_COST_STORAGE_MATRIX, 32 * 1024 * 1024 * 1024);
    let config = StorageConfig::new();
    assert_eq!(config.max_cost_storage_matrix() as u64, DEFAULT_MAX_COST_STORAGE_MATRIX);
}

#[test]
fn setting_the_limit_twice_is_setting_it_once() {
    let mut once = StorageConfig::new();
    config_max_cost_storage_matrix(&mut once, 4096);
    let mut twice = StorageConfig::new();
    config_max_cost_storage_matrix(&mut twice, 4096);
    config_max_cost_storage_matrix(&mut twice, 4096);
    assert_eq!(once.max_cost_storage_matrix(), 4096);
    assert_eq!(twice.max_cost_storage_matrix(), 4096);
}

#[test]
fn a_limit_beyond_any_allocation_is_capped() {
    let mut config = StorageConfig::new();
    config_max_cost_storage_matrix(&mut config, usize::MAX);
    assert_eq!(config.max_cost_storage_matrix(), isize::MAX as usize);
    config_max_cost_storage_matrix(&mut config, 0);
    assert_eq!(config.max_cost_storage_matrix(), 0);
}

#[test]
fn factory_chooses_dense_strictly_under_the_limit() {
    let mut config = StorageConfig::new();
    // 3 x 4 cells of 8 bytes are 96 bytes
    config_max_cost_storage_matrix(&mut config, 97);
    assert!(matches!(cost_storage(3, 4, &config), Storage::Matrix(_)));
    config_max_cost_storage_matrix(&mut config, 96);
    assert!(matches!(cost_storage(3, 4, &config), Storage::Cache(_)));
    config_max_cost_storage_matrix(&mut config, 95);
    assert!(matches!(cost_storage(3, 4, &config), Storage::Cache(_)));
    config_max_cost_storage_matrix(&mut config, 0);
    assert!(matches!(cost_storage(0, 0, &config), Storage::Cache(_)));
    config_max_cost_storage_matrix(&mut config, 1);
    assert!(matches!(cost_storage(0, 5, &config), Storage::Matrix(_)));
    assert!(matches!(cost_storage(3, 4, &StorageConfig::new()), Storage::Matrix(_)));
}

#[test]
fn factory_storage_is_blank_and_writable() {
    let mut config = StorageConfig::new();
    for limit in [0usize, 1 << 20] {
        config_max_cost_storage_matrix(&mut config, limit);
        let mut storage = cost_storage(2, 2, &config);
        check_boundary(&storage, 2, 2);
        assert_eq!(storage.get_cost(2, 2), INFINITE_COST);
        assert_eq!(storage.get_action(2, 2), Action::Unknown);
        storage.set_cost(2, 2, 11);
        storage.set_action(2, 2, Action::Matched);
        assert_eq!(storage.get_cost(2, 2), 11);
        assert_eq!(storage.get_action(2, 2), Action::Matched);
        assert_eq!(storage.get_cost(1, 2), INFINITE_COST);
    }
}
