//! An embedded key-value store that keeps its index in memory and makes every
//! write durable through an append-only log with periodic snapshots.
//!
//! The library decides and computes; it performs no I/O itself. Each
//! operation that touches the disk returns the [`DiskOp`]s to perform, in the
//! order in which they have to reach the disk.

pub mod codec;
pub mod decimal;
pub mod disk;
pub mod engine;
pub mod error;
pub mod laws;
pub mod lines;
pub mod paths;
pub mod table;

pub use disk::DiskOp;
pub use engine::DbOptions;
pub use error::Error;
