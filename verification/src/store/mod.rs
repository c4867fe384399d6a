//! Storage kernel: a versioned store in three layers.

pub mod config;
pub mod disk;
pub mod flush;
pub mod gc;
pub mod gc_exact;
pub mod gc_laws;
pub mod jobs;
pub mod laws;
pub mod mem;
pub mod recent_flush_cache;
pub mod select;
pub mod types;
pub mod version_map;

pub use config::SyncLevel;
pub use disk::{DiskLayer, L2Disk, L3Frozen};
pub use flush::FlushEngine;
pub use gc::{gc_entries, GcStats};
pub use mem::MemStore;
pub use recent_flush_cache::RecentFlushCache;
pub use types::{
    PatchEntry, PatchZoneMap, StoreCheckpointState, Z1Entry, Z1Key, Z1Patch, Z1PatchFormatV4,
};
