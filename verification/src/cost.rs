//! Where the accumulated costs and the chosen actions of a cost table are kept.
//!
//! The table has one row per sample of Y and one column per sample of X, both
//! counted from 1; row 0 and column 0 stand for the boundary. Costs are ordered
//! 64-bit keys: the bit patterns of non-negative IEEE 754 doubles, which sort as
//! the doubles do.
use crate::arrays::{
    action_grid_rows, action_rows_maps, cost_grid_rows, cost_rows_maps, fits, grid_fits,
    ActionGrid, ActionRows, CostGrid, CostRows,
};
use crate::enums::Action;
use vstd::prelude::*;

verus! {

/// The cost of a cell that cannot be reached: positive infinity.
pub const INFINITE_COST: u64 = 0x7FF0_0000_0000_0000;

/// The limit that a storage configuration starts with: 32 GiB.
pub const DEFAULT_MAX_COST_STORAGE_MATRIX: u64 = 0x8_0000_0000;

/// What a cost storage holds: for each cell its accumulated cost and its action.
pub struct CostTable {
    pub cells: Map<(int, int), (u64, Action)>,
}

impl CostTable {
    /// The table in which nothing has been written.
    pub open spec fn blank() -> CostTable {
        CostTable { cells: Map::total(|cell: (int, int)| (INFINITE_COST, Action::Unknown)) }
    }

    /// The cost read at a cell: 0 at the origin, infinite on the rest of the
    /// boundary, else what was written last, and infinite if nothing was.
    pub open spec fn cost_at(self, row: int, column: int) -> u64 {
        if row == 0 && column == 0 {
            0
        } else if row <= 0 || column <= 0 {
            INFINITE_COST
        } else {
            self.cells[(row, column)].0
        }
    }

    /// The action read at a cell: what was written last, and `Unknown` if
    /// nothing was.
    pub open spec fn action_at(self, row: int, column: int) -> Action {
        if row <= 0 || column <= 0 {
            Action::Unknown
        } else {
            self.cells[(row, column)].1
        }
    }

    /// The table after `cost` is written at a cell.
    pub open spec fn with_cost(self, row: int, column: int, cost: u64) -> CostTable {
        CostTable { cells: self.cells.insert((row, column), (cost, self.cells[(row, column)].1)) }
    }

    /// The table after `action` is written at a cell.
    pub open spec fn with_action(self, row: int, column: int, action: Action) -> CostTable {
        CostTable { cells: self.cells.insert((row, column), (self.cells[(row, column)].0, action)) }
    }
}

/// A surface on which the costs and actions of a cost table accumulate.
pub trait CostStorage {
    /// The invariant of the storage.
    spec fn wf(&self) -> bool;

    /// The number of the last row that can be read and written.
    spec fn rows(&self) -> int;

    /// The number of the last column that can be read and written.
    spec fn columns(&self) -> int;

    /// What the storage holds.
    spec fn table(&self) -> CostTable;

    /// The cost of a cell: 0 at `(0, 0)`, infinite where exactly one of `row`
    /// and `column` is 0, else the cost written last, or infinite.
    fn get_cost(&self, row: usize, column: usize) -> (cost: u64)
        requires
            self.wf(),
            row <= self.rows(),
            column <= self.columns(),
        ensures
            cost == self.table().cost_at(row as int, column as int),
            row == 0 && column == 0 ==> cost == 0,
            (row == 0) != (column == 0) ==> cost == INFINITE_COST,
    ;

    /// Writes the cost of a cell off the boundary.
    fn set_cost(&mut self, row: usize, column: usize, cost: u64)
        requires
            old(self).wf(),
            1 <= row <= old(self).rows(),
            1 <= column <= old(self).columns(),
        ensures
            final(self).wf(),
            final(self).rows() == old(self).rows(),
            final(self).columns() == old(self).columns(),
            final(self).table() == old(self).table().with_cost(row as int, column as int, cost),
    ;

    /// The action of a cell off the boundary: the action written last, or
    /// `Unknown`.
    fn get_action(&self, row: usize, column: usize) -> (action: Action)
        requires
            self.wf(),
            1 <= row <= self.rows(),
            1 <= column <= self.columns(),
        ensures
            action == self.table().action_at(row as int, column as int),
    ;

    /// Writes the action of a cell off the boundary.
    fn set_action(&mut self, row: usize, column: usize, action: Action)
        requires
            old(self).wf(),
            1 <= row <= old(self).rows(),
            1 <= column <= old(self).columns(),
        ensures
            final(self).wf(),
            final(self).rows() == old(self).rows(),
            final(self).columns() == old(self).columns(),
            final(self).table() == old(self).table().with_action(
                row as int,
                column as int,
                action,
            ),
    ;
}

/// The dense storage: two tables of `rows` x `columns` cells, allocated at once.
pub struct CostMatrix {
    cost_matrix: CostGrid,
    actions_matrix: ActionGrid,
    rows: usize,
    columns: usize,
}

impl CostMatrix {
    /// A dense storage for a table of `rows` rows and `columns` columns, with
    /// nothing written.
    pub fn new(rows: usize, columns: usize) -> (storage: Self)
        requires
            grid_fits(rows as int, columns as int, 8),
        ensures
            storage.wf(),
            storage.rows() == rows,
            storage.columns() == columns,
            storage.table() == CostTable::blank(),
    {
        assert(rows * columns * 1 <= rows * columns * 8) by (nonlinear_arith)
            requires
                0 <= rows,
                0 <= columns,
        ;
        let storage = Self {
            cost_matrix: CostGrid::filled(rows, columns, INFINITE_COST),
            actions_matrix: ActionGrid::filled(rows, columns, Action::Unknown),
            rows,
            columns,
        };
        assert(storage.table().cells =~= CostTable::blank().cells);
        storage
    }

    /// Whether the cell lies off the boundary and in the table.
    closed spec fn holds(&self, cell: (int, int)) -> bool {
        1 <= cell.0 <= self.rows && 1 <= cell.1 <= self.columns
    }
}

impl CostStorage for CostMatrix {
    closed spec fn wf(&self) -> bool {
        &&& cost_grid_rows(self.cost_matrix).len() == self.rows
        &&& action_grid_rows(self.actions_matrix).len() == self.rows
        &&& forall|row: int|
            0 <= row < self.rows ==> (#[trigger] cost_grid_rows(self.cost_matrix)[row]).len()
                == self.columns
        &&& forall|row: int|
            0 <= row < self.rows ==> (#[trigger] action_grid_rows(self.actions_matrix)[row]).len()
                == self.columns
    }

    closed spec fn rows(&self) -> int {
        self.rows as int
    }

    closed spec fn columns(&self) -> int {
        self.columns as int
    }

    closed spec fn table(&self) -> CostTable {
        CostTable {
            cells: Map::total(
                |cell: (int, int)|
                    if self.holds(cell) {
                        (
                            cost_grid_rows(self.cost_matrix)[cell.0 - 1][cell.1 - 1],
                            action_grid_rows(self.actions_matrix)[cell.0 - 1][cell.1 - 1],
                        )
                    } else {
                        (INFINITE_COST, Action::Unknown)
                    },
            ),
        }
    }

    fn get_cost(&self, row: usize, column: usize) -> (cost: u64) {
        if row == 0 && column == 0 {
            return 0;
        } else if row == 0 || column == 0 {
            return INFINITE_COST;
        }
        assert(self.holds((row as int, column as int)));
        self.cost_matrix.get(row - 1, column - 1)
    }

    fn set_cost(&mut self, row: usize, column: usize, cost: u64) {
        assert(self.holds((row as int, column as int)));
        self.cost_matrix.set(row - 1, column - 1, cost);
        assert(self.table().cells =~= old(self).table().with_cost(
            row as int,
            column as int,
            cost,
        ).cells);
    }

    fn get_action(&self, row: usize, column: usize) -> (action: Action) {
        assert(self.holds((row as int, column as int)));
        self.actions_matrix.get(row - 1, column - 1)
    }

    fn set_action(&mut self, row: usize, column: usize, action: Action) {
        assert(self.holds((row as int, column as int)));
        self.actions_matrix.set(row - 1, column - 1, action);
        assert(self.table().cells =~= old(self).table().with_action(
            row as int,
            column as int,
            action,
        ).cells);
    }
}

/// The sparse storage: one map per row, from a column to what was written
/// there. It takes memory only for the cells that are written.
pub struct CostCache {
    cost_cache: CostRows,
    actions_cache: ActionRows,
}

impl CostCache {
    /// A sparse storage for a table of `rows` rows, with nothing written.
    pub fn new(rows: usize) -> (storage: Self)
        requires
            fits(rows as int, 64),
        ensures
            storage.wf(),
            storage.rows() == rows,
            storage.columns() == usize::MAX,
            storage.table() == CostTable::blank(),
    {
        let storage = Self { cost_cache: CostRows::empty(rows), actions_cache: ActionRows::empty(rows) };
        assert(storage.table().cells =~= CostTable::blank().cells);
        storage
    }

    /// Whether the cell lies off the boundary and in the table.
    closed spec fn holds(&self, cell: (int, int)) -> bool {
        1 <= cell.0 <= cost_rows_maps(self.cost_cache).len() && 1 <= cell.1 <= usize::MAX
    }

    /// The cost kept for a cell of the table.
    closed spec fn kept_cost(&self, cell: (int, int)) -> u64 {
        let map = cost_rows_maps(self.cost_cache)[cell.0 - 1];
        if map.contains_key((cell.1 - 1) as usize) {
            map[(cell.1 - 1) as usize]
        } else {
            INFINITE_COST
        }
    }

    /// The action kept for a cell of the table.
    closed spec fn kept_action(&self, cell: (int, int)) -> Action {
        let map = action_rows_maps(self.actions_cache)[cell.0 - 1];
        if map.contains_key((cell.1 - 1) as usize) {
            map[(cell.1 - 1) as usize]
        } else {
            Action::Unknown
        }
    }
}

impl CostStorage for CostCache {
    closed spec fn wf(&self) -> bool {
        cost_rows_maps(self.cost_cache).len() == action_rows_maps(self.actions_cache).len()
    }

    closed spec fn rows(&self) -> int {
        cost_rows_maps(self.cost_cache).len() as int
    }

    closed spec fn columns(&self) -> int {
        usize::MAX as int
    }

    closed spec fn table(&self) -> CostTable {
        CostTable {
            cells: Map::total(
                |cell: (int, int)|
                    if self.holds(cell) {
                        (self.kept_cost(cell), self.kept_action(cell))
                    } else {
                        (INFINITE_COST, Action::Unknown)
                    },
            ),
        }
    }

    fn get_cost(&self, row: usize, column: usize) -> (cost: u64) {
        broadcast use vstd::std_specs::hash::group_hash_axioms;

        if row == 0 && column == 0 {
            return 0;
        } else if row == 0 || column == 0 {
            return INFINITE_COST;
        }
        assert(self.holds((row as int, column as int)));
        let key = column - 1;
        match self.cost_cache.row(row - 1).get(&key) {
            Some(cost) => *cost,
            None => INFINITE_COST,
        }
    }

    fn set_cost(&mut self, row: usize, column: usize, cost: u64) {
        broadcast use vstd::std_specs::hash::group_hash_axioms;

        assert(self.holds((row as int, column as int)));
        self.cost_cache.row_mut(row - 1).insert(column - 1, cost);
        assert forall|cell: (int, int)|
            self.table().cells[cell] == #[trigger] old(self).table().with_cost(
                row as int,
                column as int,
                cost,
            ).cells[cell] by {
            if self.holds(cell) {
                assert(old(self).holds(cell));
            }
        }
        assert(self.table().cells =~= old(self).table().with_cost(
            row as int,
            column as int,
            cost,
        ).cells);
    }

    fn get_action(&self, row: usize, column: usize) -> (action: Action) {
        broadcast use vstd::std_specs::hash::group_hash_axioms;

        assert(self.holds((row as int, column as int)));
        let key = column - 1;
        match self.actions_cache.row(row - 1).get(&key) {
            Some(action) => *action,
            None => Action::Unknown,
        }
    }

    fn set_action(&mut self, row: usize, column: usize, action: Action) {
        broadcast use vstd::std_specs::hash::group_hash_axioms;

        assert(self.holds((row as int, column as int)));
        self.actions_cache.row_mut(row - 1).insert(column - 1, action);
        assert forall|cell: (int, int)|
            self.table().cells[cell] == #[trigger] old(self).table().with_action(
                row as int,
                column as int,
                action,
            ).cells[cell] by {
            if self.holds(cell) {
                assert(old(self).holds(cell));
            }
        }
        assert(self.table().cells =~= old(self).table().with_action(
            row as int,
            column as int,
            action,
        ).cells);
    }
}

/// The storage that a computation works on: dense or sparse.
pub enum Storage {
    Matrix(CostMatrix),
    Cache(CostCache),
}

impl CostStorage for Storage {
    open spec fn wf(&self) -> bool {
        match self {
            Storage::Matrix(matrix) => matrix.wf(),
            Storage::Cache(cache) => cache.wf(),
        }
    }

    open spec fn rows(&self) -> int {
        match self {
            Storage::Matrix(matrix) => matrix.rows(),
            Storage::Cache(cache) => cache.rows(),
        }
    }

    open spec fn columns(&self) -> int {
        match self {
            Storage::Matrix(matrix) => matrix.columns(),
            Storage::Cache(cache) => cache.columns(),
        }
    }

    open spec fn table(&self) -> CostTable {
        match self {
            Storage::Matrix(matrix) => matrix.table(),
            Storage::Cache(cache) => cache.table(),
        }
    }

    fn get_cost(&self, row: usize, column: usize) -> (cost: u64) {
        match self {
            Storage::Matrix(matrix) => matrix.get_cost(row, column),
            Storage::Cache(cache) => cache.get_cost(row, column),
        }
    }

    fn set_cost(&mut self, row: usize, column: usize, cost: u64) {
        match self {
            Storage::Matrix(matrix) => matrix.set_cost(row, column, cost),
            Storage::Cache(cache) => cache.set_cost(row, column, cost),
        }
    }

    fn get_action(&self, row: usize, column: usize) -> (action: Action) {
        match self {
            Storage::Matrix(matrix) => matrix.get_action(row, column),
            Storage::Cache(cache) => cache.get_action(row, column),
        }
    }

    fn set_action(&mut self, row: usize, column: usize, action: Action) {
        match self {
            Storage::Matrix(matrix) => matrix.set_action(row, column, action),
            Storage::Cache(cache) => cache.set_action(row, column, action),
        }
    }
}

/// The memory budget that decides between the dense and the sparse storage.
pub struct StorageConfig {
    /// The number of bytes that the costs of a dense storage must stay under.
    max_cost_storage_matrix: usize,
}

impl StorageConfig {
    #[verifier::type_invariant]
    spec fn within_reach(&self) -> bool {
        self.max_cost_storage_matrix <= isize::MAX
    }

    /// The limit in bytes. No table of more than `isize::MAX` bytes can be
    /// allocated, so the limit is never higher.
    pub closed spec fn limit(&self) -> int {
        self.max_cost_storage_matrix as int
    }

    /// The configuration with the default limit of 32 GiB.
    pub fn new() -> (config: Self)
        ensures
            config.limit() == vstd::math::min(
                DEFAULT_MAX_COST_STORAGE_MATRIX as int,
                isize::MAX as int,
            ),
    {
        if (isize::MAX as u64) < DEFAULT_MAX_COST_STORAGE_MATRIX {
            Self { max_cost_storage_matrix: isize::MAX as usize }
        } else {
            Self { max_cost_storage_matrix: DEFAULT_MAX_COST_STORAGE_MATRIX as usize }
        }
    }

    /// The limit in bytes.
    pub fn max_cost_storage_matrix(&self) -> (max: usize)
        ensures
            max == self.limit(),
            max <= isize::MAX,
    {
        proof {
            use_type_invariant(self);
        }
        self.max_cost_storage_matrix
    }
}

/// Sets the limit under which the dense storage is chosen. A limit above
/// `isize::MAX` is taken as `isize::MAX`.
pub fn config_max_cost_storage_matrix(config: &mut StorageConfig, max: usize)
    ensures
        final(config).limit() == vstd::math::min(max as int, isize::MAX as int),
{
    if max > isize::MAX as usize {
        config.max_cost_storage_matrix = isize::MAX as usize;
    } else {
        config.max_cost_storage_matrix = max;
    }
}

/// The number of bytes that the costs of a dense storage take.
pub open spec fn dense_bytes(rows: int, columns: int) -> int {
    rows * columns * 8
}

/// Whether the storages for a table of `rows` rows and `columns` columns can
/// be allocated: both counts fit an `isize`, and so do the bytes of the row
/// maps of the sparse storage.
pub open spec fn table_fits(rows: int, columns: int) -> bool {
    &&& 0 <= rows <= isize::MAX
    &&& 0 <= columns <= isize::MAX
    &&& fits(rows, 64)
}

/// A fresh storage for a table of `rows` rows and `columns` columns: the dense
/// one if the bytes of its costs stay strictly under the limit, else the
/// sparse one.
pub fn cost_storage(rows: usize, columns: usize, config: &StorageConfig) -> (storage: Storage)
    requires
        table_fits(rows as int, columns as int),
    ensures
        storage.wf(),
        storage.rows() == rows,
        storage.columns() >= columns,
        storage.table() == CostTable::blank(),
        storage is Matrix <==> dense_bytes(rows as int, columns as int) < config.limit(),
{
    let limit = config.max_cost_storage_matrix();
    assert(rows * columns <= 0x4000_0000_0000_0000_0000_0000_0000_0000) by (nonlinear_arith)
        requires
            0 <= rows <= 0x8000_0000_0000_0000,
            0 <= columns <= 0x8000_0000_0000_0000,
    ;
    let cells: u128 = rows as u128 * columns as u128;
    if cells <= limit as u128 / 8 && cells * 8 < limit as u128 {
        Storage::Matrix(CostMatrix::new(rows, columns))
    } else {
        Storage::Cache(CostCache::new(rows))
    }
}

/// One write to a cost storage.
pub enum Write {
    Cost { row: usize, column: usize, cost: u64 },
    Action { row: usize, column: usize, action: Action },
}

/// The table after the writes have been made to it, in order.
pub open spec fn written(table: CostTable, writes: Seq<Write>) -> CostTable
    decreases writes.len(),
{
    if writes.len() == 0 {
        table
    } else {
        let before = written(table, writes.drop_last());
        match writes.last() {
            Write::Cost { row, column, cost } => before.with_cost(row as int, column as int, cost),
            Write::Action { row, column, action } => before.with_action(
                row as int,
                column as int,
                action,
            ),
        }
    }
}

/// Makes one write to a storage.
pub fn apply<S: CostStorage>(storage: &mut S, write: Write)
    requires
        old(storage).wf(),
        match write {
            Write::Cost { row, column, cost } => 1 <= row <= old(storage).rows() && 1 <= column
                <= old(storage).columns(),
            Write::Action { row, column, action } => 1 <= row <= old(storage).rows() && 1
                <= column <= old(storage).columns(),
        },
    ensures
        final(storage).wf(),
        final(storage).rows() == old(storage).rows(),
        final(storage).columns() == old(storage).columns(),
        final(storage).table() == written(old(storage).table(), seq![write]),
{
    proof {
        assert(seq![write].drop_last() =~= Seq::<Write>::empty());
        assert(written(storage.table(), seq![write].drop_last()) == storage.table());
    }
    match write {
        Write::Cost { row, column, cost } => storage.set_cost(row, column, cost),
        Write::Action { row, column, action } => storage.set_action(row, column, action),
    }
}

/// Storage equivalence. A dense and a sparse storage that have taken the same
/// writes since they were made give the same cost and the same action for
/// every cell.
pub proof fn lemma_storage_equivalence(dense: CostMatrix, sparse: CostCache, writes: Seq<Write>)
    requires
        dense.table() == written(CostTable::blank(), writes),
        sparse.table() == written(CostTable::blank(), writes),
    ensures
        forall|row: int, column: int|
            dense.table().cost_at(row, column) == sparse.table().cost_at(row, column)
                && dense.table().action_at(row, column) == sparse.table().action_at(row, column),
{
}

/// Boundary correctness. Whatever has been written, the cost at the origin is
/// 0 and the cost on the rest of the boundary is infinite.
pub proof fn lemma_boundary(table: CostTable, index: int)
    requires
        index > 0,
    ensures
        table.cost_at(0, 0) == 0,
        table.cost_at(0, index) == INFINITE_COST,
        table.cost_at(index, 0) == INFINITE_COST,
{
}

/// Setting the limit is idempotent: the limit after a call depends on the
/// value handed over alone, so a second call with the same value changes
/// nothing.
pub proof fn lemma_config_idempotent(once: StorageConfig, twice: StorageConfig, max: usize)
    requires
        once.limit() == vstd::math::min(max as int, isize::MAX as int),
        twice.limit() == vstd::math::min(max as int, isize::MAX as int),
    ensures
        once == twice,
{
}

} // verus!
