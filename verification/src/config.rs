//! Configuration.

use vstd::prelude::*;

verus! {

/// Top-level engine configuration: start from `Z1Config::default()` and
/// change it with the `with_*` methods.
#[derive(Debug)]
#[non_exhaustive]
pub struct Z1Config {
    pub visibility: VisibilityConfig,
    /// Strict mode: every `Severity::Degrade` error is escalated to `Fatal`.
    /// On by default; `false` lets a degraded operation continue.
    pub strict_mode: bool,
    /// WAL size in bytes from which a commit triggers a checkpoint; `0`
    /// disables automatic checkpoints.
    pub checkpoint_wal_size_threshold: u64,
    /// Number of L2 patches from which a commit triggers a compaction; `0`
    /// disables automatic compaction.
    pub l2_compaction_threshold: usize,
}

impl Default for Z1Config {
    fn default() -> (r: Self)
        ensures
            r.visibility.max_history_entries == 100_000,
            r.visibility.history_ttl_secs == 3600,
            r.strict_mode,
            r.checkpoint_wal_size_threshold == 64 * 1024 * 1024,
            r.l2_compaction_threshold == 64,
    {
        Z1Config {
            visibility: VisibilityConfig::default(),
            strict_mode: true,
            checkpoint_wal_size_threshold: 64 * 1024 * 1024,
            l2_compaction_threshold: 64,
        }
    }
}

impl Z1Config {
    /// Set `strict_mode`.
    pub fn with_strict_mode(self, strict: bool) -> (r: Self)
        ensures
            r == (Z1Config { strict_mode: strict, ..self }),
    {
        let mut c = self;
        c.strict_mode = strict;
        c
    }

    /// Set `checkpoint_wal_size_threshold` in bytes; `0` disables automatic
    /// checkpoints.
    pub fn with_checkpoint_wal_size_threshold(self, bytes: u64) -> (r: Self)
        ensures
            r == (Z1Config { checkpoint_wal_size_threshold: bytes, ..self }),
    {
        let mut c = self;
        c.checkpoint_wal_size_threshold = bytes;
        c
    }

    /// Set `l2_compaction_threshold`; `0` disables automatic compaction.
    pub fn with_l2_compaction_threshold(self, n: usize) -> (r: Self)
        ensures
            r == (Z1Config { l2_compaction_threshold: n, ..self }),
    {
        let mut c = self;
        c.l2_compaction_threshold = n;
        c
    }

    /// Replace the visibility configuration.
    pub fn with_visibility(self, visibility: VisibilityConfig) -> (r: Self)
        ensures
            r == (Z1Config { visibility, ..self }),
    {
        let mut c = self;
        c.visibility = visibility;
        c
    }
}

impl Clone for Z1Config {
    fn clone(&self) -> (r: Self)
        ensures
            r == *self,
    {
        Z1Config {
            visibility: self.visibility.clone(),
            strict_mode: self.strict_mode,
            checkpoint_wal_size_threshold: self.checkpoint_wal_size_threshold,
            l2_compaction_threshold: self.l2_compaction_threshold,
        }
    }
}

/// Configuration of the visibility manager.
#[derive(Debug)]
#[non_exhaustive]
pub struct VisibilityConfig {
    /// Number of entries to keep in the committed history; when it is
    /// exceeded, the oldest are evicted down to four fifths of it.
    ///
    /// `0` is legal and extreme: the history is emptied by every commit, and
    /// since a transaction without history is invisible, every read behaves
    /// as if no key existed.
    pub max_history_entries: usize,
    /// Time-to-live of committed history entries, in seconds.
    pub history_ttl_secs: u64,
}

impl Default for VisibilityConfig {
    fn default() -> (r: Self)
        ensures
            r.max_history_entries == 100_000,
            r.history_ttl_secs == 3600,
    {
        VisibilityConfig { max_history_entries: 100_000, history_ttl_secs: 3600 }
    }
}

impl VisibilityConfig {
    /// Set `max_history_entries`.
    pub fn with_max_history_entries(self, n: usize) -> (r: Self)
        ensures
            r == (VisibilityConfig { max_history_entries: n, ..self }),
    {
        let mut c = self;
        c.max_history_entries = n;
        c
    }

    /// Set `history_ttl_secs`.
    pub fn with_history_ttl_secs(self, secs: u64) -> (r: Self)
        ensures
            r == (VisibilityConfig { history_ttl_secs: secs, ..self }),
    {
        let mut c = self;
        c.history_ttl_secs = secs;
        c
    }
}

impl Clone for VisibilityConfig {
    fn clone(&self) -> (r: Self)
        ensures
            r == *self,
    {
        VisibilityConfig {
            max_history_entries: self.max_history_entries,
            history_ttl_secs: self.history_ttl_secs,
        }
    }
}

} // verus!
