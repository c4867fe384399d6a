//! Multi-version concurrency control.
//!
//! Visibility rules work directly on version records.

pub mod cache;
pub mod history;
pub mod keyset;
pub mod laws;
pub mod visibility;

pub use cache::SnapshotCache;
pub use visibility::{IsolationLevel, TxnSnapshot, VisFilter, VisibilityManager};
