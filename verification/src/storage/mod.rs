//! The shared state of robots and tasks.

pub mod laws;
pub mod memory_store;
pub mod tables;

pub use memory_store::{MemoryStore, ReclaimOutcome, StoreError, TrailPoint};
