//! A minimal persistent key-value store built on a single append-only log.
//!
//! The log file is the single source of truth: every `set` and `delete`
//! appends one binary record, and an in-memory index maps each key to the
//! offset of its most recent record. The modules mirror the components:
//!
//! - [`format`]: the binary record codec (a fixed 16-byte header followed by
//!   the key and value bytes);
//! - [`replay`]: the specification of scanning a log from offset 0, the
//!   derived key index and the live key-value map;
//! - [`log`]: the append log holding the raw bytes;
//! - [`index`]: the in-memory key index, rebuilt by replaying the log;
//! - [`engine`]: the storage engine composing the above into `set`, `get`,
//!   `delete`, recovery and compaction.
//!
//! File I/O lives outside this crate: callers hand the engine the bytes of an
//! existing log and persist the bytes the engine appends.

pub mod engine;
pub mod format;
pub mod index;
pub mod log;
pub mod replay;

pub use engine::StorageEngine;
pub use format::LogEntry;
pub use format::WalError;
