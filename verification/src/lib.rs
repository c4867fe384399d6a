//! Z1KV: an embedded MVCC key-value engine.
//!
//! - MVCC at record level: every version is
//!   `(column family, key, transaction) -> value | tombstone`
//! - strict snapshot isolation, with conflict detection at commit
//! - three storage layers: L1 in memory, L2 disk patches, L3 frozen patches
//! - a write-ahead log and crash-safe checkpoints
//!
//! The library decides; it touches no file, clock aside. What is to be
//! written, read or deleted it hands to its caller as plain values, and takes
//! the outcome back.
//!
//! What holds of it as a whole is stated and proved beside the code, in the
//! proof functions whose names begin with `law_`:
//!
//! - what is committed is read, and is there after a crash; what is not
//!   committed is never read
//! - a compaction changes no read of an active transaction; a transaction that
//!   has ended stays refused
//! - a write goes to the WAL before it goes to memory
//! - the WAL is durable before any L2 patch is written
//! - the WAL is truncated only when the data and the checkpoint are durable
//! - a transaction that the history does not list is invisible
//! - the history is evicted by insertion time, never by commit timestamp, and
//!   what recovery restores keeps the insertion time that the WAL carries
//! - what leaves L1 stays readable in the recent-flush cache until L2 has it,
//!   and a flush writes exactly that
//! - of two transactions that touch the same key, one of them writing, the one
//!   that commits while the other is active is refused, and nobody else is
//! - a read gives the newest version that its snapshot sees, of all that any
//!   layer holds, loaded or not; a scan lists the keys of its range and no others
//! - a compaction reclaims every version that a newer committed one hides
//! - a commit stays in the history for the configured time and number
//! - a patch is found by its real keys
//! - a changed byte of a payload or of its checksum is noticed
//! - a file takes its final name only after its contents were synced

use vstd::prelude::*;

pub mod bytes;
pub mod codec;
pub mod config;
pub mod durable_writer;
pub mod error;
pub mod maps;
pub mod metrics;
pub mod mvcc;
pub mod sort;
pub mod store;
pub mod text;
pub mod txn;
pub mod wal;

pub use error::{Result, Z1Error};
pub use mvcc::{IsolationLevel, TxnSnapshot, VisFilter, VisibilityManager};
pub use txn::Z1Kv;

verus! {

/// Transaction id: WAL records, versions and conflict checks all go by it.
pub type TxnId = u64;

} // verus!
