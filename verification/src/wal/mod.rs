//! Write-ahead log.
//!
//! Segment files `wal.{seq:08}` hold records one after the other; a segment
//! that would grow over `max_file_size` is sealed and the next one begun.

pub mod checkpoint;
pub mod checkpoint_laws;
pub mod laws;
pub mod names;
pub mod record;
pub mod recovery;
pub mod recovery_laws;
pub mod replay;
pub mod writer;

pub use checkpoint::{CheckpointManager, CheckpointState};
pub use record::{WalEntry, WalRecord};
pub use recovery::{replay_committed_ops, RecoveryResult};
pub use replay::replay_all;
pub use writer::{
    is_non_fatal_sync_error, GroupCommitConfig, SyncPolicy, WalConfig, WalPosition, WalWriter,
};
