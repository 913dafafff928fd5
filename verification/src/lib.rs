//! Dynamic time warping over series whose samples stay with the caller.
//!
//! The crate decides which cells of the cost table are visited, which
//! predecessor each cell builds on, where costs and actions are kept, how the
//! warp path is read back, and how the approximate algorithm descends to
//! coarser series and comes back. The arithmetic on samples is supplied by the
//! caller as two functions; costs travel as ordered 64-bit keys, the bit
//! patterns of non-negative doubles.
//!
//! * `enums`: the actions and the distance modes
//! * `arrays`: the `ndarray` containers, behind contracts taken on trust
//! * `cells`, `window`, `projection`: the windows and the band of the
//!   constrained window
//! * `cost`: the dense and the sparse cost storage and their factory
//! * `dtw`: the engine; `fastdtw`: the approximate algorithm
//! * `laws`, `band`, `linking`, `optimal`: what holds of every alignment
pub mod arrays;
pub mod band;
pub mod cells;
pub mod cost;
pub mod dtw;
pub mod enums;
pub mod fastdtw;
pub mod laws;
pub mod linking;
pub mod optimal;
pub mod projection;
pub mod window;

pub use crate::arrays::PairArray;
pub use crate::cost::{
    apply, config_max_cost_storage_matrix, cost_storage, CostCache, CostMatrix, CostStorage,
    CostTable, Storage, StorageConfig, Write, DEFAULT_MAX_COST_STORAGE_MATRIX, INFINITE_COST,
};
pub use crate::dtw::{can_align, dtw, dtw_ex, minimum};
pub use crate::enums::{Action, DistanceMode};
pub use crate::fastdtw::{coarse_block, coarse_len, fastdtw, fastdtw_ex, is_base_case};
pub use crate::window::{ConstrainedWindow, FullWindow, Window};
