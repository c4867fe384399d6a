//! WAL synchronization policy for L1 writes.

use vstd::prelude::*;

verus! {

/// Synchronization level for L1 writes.
#[derive(Debug, Clone, Copy, PartialEq, Eq, Structural)]
pub enum SyncLevel {
    /// Every write is synced immediately.
    Immediate,
    /// Synced after `ms` milliseconds or `max_pending` writes, whichever
    /// comes first.
    Batch { ms: u64, max_pending: usize },
    /// Written without syncing.
    Async,
}

} // verus!
