//! A minimal log-structured merge key-value engine.
//!
//! The engine buffers writes in a sorted in-memory table, logs every accepted
//! write ahead of applying it, flushes the table to immutable sorted segment
//! files and merges all segments into one on request.
//!
//! The library performs no I/O of its own. Files are handled as byte images,
//! and the engine is a state machine that tells its driver which file
//! operation to perform next and is told how it went.

pub mod codec;
pub mod compaction;
pub mod disk;
pub mod error;
pub mod history;
pub mod laws;
pub mod lsm;
pub mod memtable;
pub mod naming;
pub mod order;
pub mod protocol;
pub mod sstable;
pub mod table;
pub mod wal;

pub use error::Error;
pub use lsm::LsmTree;
pub use memtable::Memtable;
pub use protocol::{Reply, Step};
pub use sstable::SSTable;
pub use wal::Wal;
