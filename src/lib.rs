//! Materialized state for a streaming dataflow node: rows indexed by one or more
//! key column sets, fully or partially materialized, with holes that replays fill
//! and eviction that bounds memory.

pub mod capability;
pub mod laws;
pub mod memory_state;
pub mod single_state;
pub mod types;

pub use capability::State;
pub use memory_state::{LookupResult, MemoryState, RecordResult};
pub use single_state::SingleState;
pub use types::{DataType, KeyType, Record, Records, Row, Tag};
