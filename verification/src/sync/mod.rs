//! The sync engine: what to write next, what to compact, what to delete, and how
//! to rebuild a database from its LTX chain.
//!
//! Each sync writes one L0 file at the next TXID; the first is a snapshot, later
//! ones hold the changed pages. Every decision is a function from plain values
//! to plain values. The caller lists, reads, writes and uploads.

pub mod apply;
pub mod capture;
pub mod chain;
pub mod checkpoint;
pub mod compaction;
pub mod disk;
pub mod driver;
pub mod error;
pub mod fidelity;
pub mod history;
pub mod image;
pub mod level;
pub mod plan;
pub mod position;
pub mod reader;
pub mod replication;
pub mod restore;
pub mod retention;
pub mod schedule;
pub mod staging;
pub mod upkeep;

pub use error::{LevelFault, SyncError};
pub use level::{CompactionLevel, CompactionLevels, SNAPSHOT_LEVEL};
pub use position::{Plan, Position, SyncOutcome};
pub use compaction::CompactionInfo;
pub use driver::{Driver, Tick, TickAction, TickEvent, TickReport};
pub use apply::{DeltaShape, Marker};
pub use restore::{CatchUp, FallbackReason, RestoreResult};
