//! Core of a barrier-driven streaming engine: the epoch/barrier protocol,
//! the create-materialized-view progress tracker on the meta side, and the
//! hash-aggregation operator with its indexed LRU cache, per-group aggregate
//! state, sort buffer and epoch-scoped state tables.

use vstd::prelude::*;

pub mod agg;
pub mod cache;
pub mod catalog;
pub mod hash_agg;
pub mod parquet;
pub mod progress;
pub mod risedev;
pub mod rows;
pub mod sort_buffer;
pub mod sql_server;
pub mod state_table;
pub mod text;
pub mod tracker;
pub mod vec_map;

pub use catalog::ColumnId;
pub use parquet::ParquetParser;
pub use progress::{ActorId, BackfillState, ConsumedRows, Progress, TableId};
pub use tracker::{CreateMviewProgressTracker, RecoveredTrackingJob, TrackingCommand, TrackingJob};
pub use vec_map::VecMap;

verus! {

} // verus!
