//! L1: the memstore.
//!
//! Writes go to the hot buffer. A flush takes the whole hot buffer out in one
//! step and leaves it readable as the snapshot, so that readers inside the
//! flush window still see its versions. Reads merge hot, cold and snapshot.

use crate::bytes::copy_bytes;
use crate::error::Result;
use crate::sort::{stable_sort, stably_sorted, Ranked};
use crate::store::config::SyncLevel;
use crate::store::select::{
    collect_key, collect_range, end_model, first_newest, first_newest_index, kept,
    lemma_kept_concat, list_model, newest_listed, newest_per_key, Pick, Sight, Span,
};
use crate::store::types::{entry_models, EntryModel, Z1Entry};
use crate::store::version_map::{upserted, VersionMap};
use crate::wal::record::{RecordModel, WalRecord};
use crate::wal::writer::capped_sum;
use crate::TxnId;
use std::collections::{HashMap, HashSet};
use vstd::prelude::*;

verus! {

/// By transaction.
impl Ranked for Z1Entry {
    open spec fn ranks_le(self, other: Self) -> bool {
        self.txn_id <= other.txn_id
    }

    proof fn ranks_total(a: Self, b: Self) {
    }

    proof fn ranks_transitive(a: Self, b: Self, c: Self) {
    }

    fn is_le(&self, other: &Self) -> (r: bool) {
        self.txn_id <= other.txn_id
    }
}

/// How a write is to be logged.
#[derive(Debug, Clone, Copy, PartialEq, Eq, Structural)]
pub enum LogMode {
    /// Durably, before the write counts.
    Durable,
    /// Appended; synced when a batch is due.
    Lazy,
    /// Appended; an I/O failure is passed over.
    BestEffort,
}

pub open spec fn log_mode(level: SyncLevel) -> LogMode {
    match level {
        SyncLevel::Immediate => LogMode::Durable,
        SyncLevel::Batch { .. } => LogMode::Lazy,
        SyncLevel::Async => LogMode::BestEffort,
    }
}

/// The record of a write.
pub open spec fn put_record(e: EntryModel) -> RecordModel {
    RecordModel::Put { cf: e.key.cf, key: e.key.key, value: e.value }
}

/// Estimated size of a version in memory.
pub open spec fn estimated(e: EntryModel) -> u64 {
    let value_len = match e.value {
        Some(v) => v.len(),
        None => 0,
    };
    capped_sum(capped_sum(34, e.key.key.len()), value_len)
}

/// L1 in-memory versioned store.
#[derive(Debug)]
pub struct MemStore {
    /// Accepts new writes.
    pub hot: VersionMap,
    pub cold: VersionMap,
    /// What the last flush took out of `hot`.
    pub snapshot: VersionMap,
    /// Estimated size of `hot` in bytes, wrapping.
    pub hot_size_bytes: u64,
    pub flush_threshold: usize,
    pub sync_level: SyncLevel,
    /// Whether writes are logged.
    pub wal_attached: bool,
    /// Writes since the last sync of a batch, wrapping.
    pub batch_pending: u64,
}

/// What a reader of L1 sees before visibility is decided.
pub open spec fn l1_versions(m: MemStore) -> Seq<EntryModel> {
    m.hot@ + m.cold@ + m.snapshot@
}

/// What a snapshot sees, from its parts.
pub open spec fn sight(
    snapshot_txn: TxnId,
    commits: Map<TxnId, u64>,
    active: Set<TxnId>,
) -> Option<Sight> {
    Some(Sight { snapshot: snapshot_txn, commits, active })
}

fn estimate_size(entry: &Z1Entry) -> (r: u64)
    ensures
        r == estimated(entry@),
{
    let base: u64 = 34;
    let with_key: u64 = base.saturating_add(entry.key.key.len() as u64);
    match &entry.value {
        Some(v) => with_key.saturating_add(v.len() as u64),
        None => with_key,
    }
}

impl MemStore {
    pub open spec fn wf(&self) -> bool {
        self.hot.wf() && self.cold.wf() && self.snapshot.wf()
    }

    pub fn new(flush_threshold: usize, sync_level: SyncLevel) -> (r: Self)
        ensures
            r.wf(),
            l1_versions(r) == Seq::<EntryModel>::empty(),
            r.hot@.len() == 0,
            r.cold@.len() == 0,
            r.snapshot@.len() == 0,
            r.hot_size_bytes == 0,
            r.flush_threshold == flush_threshold,
            r.sync_level == sync_level,
            !r.wal_attached,
            r.batch_pending == 0,
    {
        let r = MemStore {
            hot: VersionMap::new(),
            cold: VersionMap::new(),
            snapshot: VersionMap::new(),
            hot_size_bytes: 0,
            flush_threshold,
            sync_level,
            wal_attached: false,
            batch_pending: 0,
        };
        assert(l1_versions(r) =~= Seq::<EntryModel>::empty());
        r
    }

    /// Log writes from now on.
    pub fn set_wal(&mut self)
        ensures
            *final(self) == (MemStore { wal_attached: true, ..*old(self) }),
    {
        self.wal_attached = true;
    }

    /// How a write is to be logged, before it goes to memory; nothing where
    /// no WAL is attached.
    pub fn log_request(&mut self, entry: &Z1Entry) -> (r: Option<(WalRecord, LogMode)>)
        ensures
            match r {
                Some((record, mode)) => old(self).wal_attached && record@ == put_record(entry@)
                    && mode == log_mode(old(self).sync_level),
                None => !old(self).wal_attached,
            },
            *final(self) == (MemStore {
                batch_pending: if old(self).wal_attached && old(self).sync_level is Batch {
                    old(self).batch_pending.wrapping_add(1)
                } else {
                    old(self).batch_pending
                },
                ..*old(self)
            }),
    {
        if !self.wal_attached {
            return None;
        }
        let value: Option<Vec<u8>> = match &entry.value {
            Some(v) => Some(copy_bytes(v.as_slice())),
            None => None,
        };
        let record = WalRecord::Put {
            cf: entry.key.cf,
            key: copy_bytes(entry.key.key.as_slice()),
            value,
        };
        assert(record@ =~= put_record(entry@));
        let mode = match self.sync_level {
            SyncLevel::Immediate => LogMode::Durable,
            SyncLevel::Batch { .. } => {
                self.batch_pending = self.batch_pending.wrapping_add(1);
                LogMode::Lazy
            },
            SyncLevel::Async => LogMode::BestEffort,
        };
        Some((record, mode))
    }

    /// Whether a batch is due for syncing: enough writes are pending, or
    /// enough time has passed since the last sync.
    pub fn sync_due(&self, ms_since_last_flush: u64) -> (r: bool)
        ensures
            r == (self.sync_level matches SyncLevel::Batch { ms, max_pending } && (
            self.batch_pending >= max_pending || ms_since_last_flush >= ms)),
    {
        match self.sync_level {
            SyncLevel::Batch { ms, max_pending } => self.batch_pending >= max_pending as u64
                || ms_since_last_flush >= ms,
            _ => false,
        }
    }

    /// A batch has been synced.
    pub fn synced(&mut self)
        ensures
            *final(self) == (MemStore { batch_pending: 0, ..*old(self) }),
    {
        self.batch_pending = 0;
    }

    /// Insert a version that has been logged.
    pub fn put(&mut self, entry: Z1Entry) -> (r: Result<()>)
        requires
            old(self).wf(),
        ensures
            r is Ok,
            final(self).wf(),
            final(self).hot@ == upserted(old(self).hot@, entry@),
            final(self).hot_size_bytes == old(self).hot_size_bytes.wrapping_add(
                estimated(entry@),
            ),
            *final(self) == (MemStore {
                hot: final(self).hot,
                hot_size_bytes: final(self).hot_size_bytes,
                ..*old(self)
            }),
    {
        self.replay_put(entry);
        Ok(())
    }

    /// Insert a version during recovery: memory only, since it comes from the
    /// WAL.
    pub fn replay_put(&mut self, entry: Z1Entry)
        requires
            old(self).wf(),
        ensures
            final(self).wf(),
            final(self).hot@ == upserted(old(self).hot@, entry@),
            final(self).hot_size_bytes == old(self).hot_size_bytes.wrapping_add(
                estimated(entry@),
            ),
            *final(self) == (MemStore {
                hot: final(self).hot,
                hot_size_bytes: final(self).hot_size_bytes,
                ..*old(self)
            }),
    {
        let est: u64 = estimate_size(&entry);
        self.hot.insert(entry);
        self.hot_size_bytes = self.hot_size_bytes.wrapping_add(est);
    }

    /// Whether the hot buffer has outgrown the threshold.
    pub fn should_flush(&self) -> (r: bool)
        ensures
            r == (self.hot_size_bytes > self.flush_threshold),
    {
        self.hot_size_bytes > self.flush_threshold as u64
    }

    /// Take the hot buffer out in one step. Returns its versions; they stay
    /// readable as the snapshot.
    pub fn swap_and_drain(&mut self) -> (r: Vec<Z1Entry>)
        requires
            old(self).wf(),
        ensures
            final(self).wf(),
            entry_models(r@) == old(self).hot@,
            final(self).hot@.len() == 0,
            final(self).snapshot@ == old(self).hot@,
            final(self).hot_size_bytes == 0,
            *final(self) == (MemStore {
                hot: final(self).hot,
                snapshot: final(self).snapshot,
                hot_size_bytes: 0,
                ..*old(self)
            }),
    {
        let mut taken = VersionMap::new();
        core::mem::swap(&mut taken, &mut self.hot);
        let drained = taken.to_vec();
        self.hot_size_bytes = 0;
        self.snapshot = taken;
        drained
    }

    /// All versions of a key that a snapshot sees.
    fn visible_versions(
        &self,
        cf: u16,
        key: &[u8],
        snapshot_txn: TxnId,
        commit_ts_by_txn: &HashMap<TxnId, u64>,
        active_txns: &HashSet<TxnId>,
    ) -> (r: Vec<Z1Entry>)
        ensures
            entry_models(r@) == kept(
                l1_versions(*self),
                Pick {
                    cf,
                    span: Span::Key(key@),
                    sight: sight(snapshot_txn, commit_ts_by_txn@, active_txns@),
                },
            ),
    {
        let mut out: Vec<Z1Entry> = Vec::new();
        let ghost p = Pick {
            cf,
            span: Span::Key(key@),
            sight: sight(snapshot_txn, commit_ts_by_txn@, active_txns@),
        };
        assert(entry_models(out@) =~= Seq::<EntryModel>::empty());
        collect_key(
            &mut out,
            &self.hot.entries,
            cf,
            key,
            snapshot_txn,
            commit_ts_by_txn,
            active_txns,
        );
        collect_key(
            &mut out,
            &self.cold.entries,
            cf,
            key,
            snapshot_txn,
            commit_ts_by_txn,
            active_txns,
        );
        collect_key(
            &mut out,
            &self.snapshot.entries,
            cf,
            key,
            snapshot_txn,
            commit_ts_by_txn,
            active_txns,
        );
        proof {
            lemma_kept_concat(self.hot@, self.cold@, p);
            lemma_kept_concat(self.hot@ + self.cold@, self.snapshot@, p);
            assert(entry_models(out@) =~= kept(l1_versions(*self), p));
        }
        out
    }

    /// The newest version of a key that a snapshot sees. Of several versions
    /// written by one transaction the one in the hot buffer counts.
    pub fn get_visible(
        &self,
        cf: u16,
        key: &[u8],
        snapshot_txn: TxnId,
        commit_ts_by_txn: &HashMap<TxnId, u64>,
        active_txns: &HashSet<TxnId>,
    ) -> (r: Option<Z1Entry>)
        ensures
            ({
                let all = kept(
                    l1_versions(*self),
                    Pick {
                        cf,
                        span: Span::Key(key@),
                        sight: sight(snapshot_txn, commit_ts_by_txn@, active_txns@),
                    },
                );
                match r {
                    Some(e) => first_newest(all) == Some(e@),
                    None => all.len() == 0,
                }
            }),
    {
        let all = self.visible_versions(cf, key, snapshot_txn, commit_ts_by_txn, active_txns);
        assert(entry_models(all@).len() == all@.len());
        match first_newest_index(&all) {
            Some(i) => Some(all[i].clone()),
            None => None,
        }
    }

    /// All versions of a key that a snapshot sees, by ascending transaction.
    pub fn get_versions(
        &self,
        cf: u16,
        key: &[u8],
        snapshot_txn: TxnId,
        commit_ts_by_txn: &HashMap<TxnId, u64>,
        active_txns: &HashSet<TxnId>,
    ) -> (r: Vec<Z1Entry>)
        ensures
            exists|all: Seq<Z1Entry>|
                entry_models(all) == kept(
                    l1_versions(*self),
                    Pick {
                        cf,
                        span: Span::Key(key@),
                        sight: sight(snapshot_txn, commit_ts_by_txn@, active_txns@),
                    },
                ) && #[trigger] stably_sorted(all, r@),
    {
        let all = self.visible_versions(cf, key, snapshot_txn, commit_ts_by_txn, active_txns);
        let ghost before = all@;
        let sorted = stable_sort(all);
        assert(stably_sorted(before, sorted@));
        sorted
    }

    /// Number of versions in the hot buffer.
    pub fn len(&self) -> (r: usize)
        ensures
            r == self.hot@.len(),
    {
        self.hot.len()
    }

    /// Whether the hot buffer is empty.
    pub fn is_empty(&self) -> (r: bool)
        ensures
            r == (self.hot@.len() == 0),
    {
        self.hot.len() == 0
    }

    /// Append the versions of a key range that a snapshot sees.
    pub fn collect_visible(
        &self,
        out: &mut Vec<Z1Entry>,
        cf: u16,
        start: &[u8],
        end: Option<&[u8]>,
        snapshot_txn: TxnId,
        commit_ts_by_txn: &HashMap<TxnId, u64>,
        active_txns: &HashSet<TxnId>,
    )
        ensures
            entry_models(final(out)@) == entry_models(old(out)@) + kept(
                l1_versions(*self),
                Pick {
                    cf,
                    span: Span::Range(start@, end_model(end)),
                    sight: sight(snapshot_txn, commit_ts_by_txn@, active_txns@),
                },
            ),
    {
        let ghost p = Pick {
            cf,
            span: Span::Range(start@, end_model(end)),
            sight: sight(snapshot_txn, commit_ts_by_txn@, active_txns@),
        };
        let ghost before = entry_models(out@);
        collect_range(
            out,
            &self.hot.entries,
            cf,
            start,
            end,
            snapshot_txn,
            commit_ts_by_txn,
            active_txns,
        );
        collect_range(
            out,
            &self.cold.entries,
            cf,
            start,
            end,
            snapshot_txn,
            commit_ts_by_txn,
            active_txns,
        );
        collect_range(
            out,
            &self.snapshot.entries,
            cf,
            start,
            end,
            snapshot_txn,
            commit_ts_by_txn,
            active_txns,
        );
        proof {
            lemma_kept_concat(self.hot@, self.cold@, p);
            lemma_kept_concat(self.hot@ + self.cold@, self.snapshot@, p);
            assert(entry_models(out@) =~= before + kept(l1_versions(*self), p));
        }
    }

    /// The keys of a column family in `[start, end)`, ascending, each with
    /// the newest version that a snapshot sees; no end means unbounded.
    pub fn range_visible(
        &self,
        cf: u16,
        start: &[u8],
        end: Option<&[u8]>,
        snapshot_txn: TxnId,
        commit_ts_by_txn: &HashMap<TxnId, u64>,
        active_txns: &HashSet<TxnId>,
    ) -> (r: Vec<(Vec<u8>, Z1Entry)>)
        ensures
            newest_listed(
                kept(
                    l1_versions(*self),
                    Pick {
                        cf,
                        span: Span::Range(start@, end_model(end)),
                        sight: sight(snapshot_txn, commit_ts_by_txn@, active_txns@),
                    },
                ),
                list_model(r@),
            ),
    {
        let mut all: Vec<Z1Entry> = Vec::new();
        self.collect_visible(
            &mut all,
            cf,
            start,
            end,
            snapshot_txn,
            commit_ts_by_txn,
            active_txns,
        );
        let ghost p = Pick {
            cf,
            span: Span::Range(start@, end_model(end)),
            sight: sight(snapshot_txn, commit_ts_by_txn@, active_txns@),
        };
        assert(entry_models(all@) =~= kept(l1_versions(*self), p));
        newest_per_key(&all)
    }

    /// Estimated size of the hot buffer in bytes.
    pub fn size_bytes(&self) -> (r: u64)
        ensures
            r == self.hot_size_bytes,
    {
        self.hot_size_bytes
    }
}

impl Default for MemStore {
    fn default() -> (r: Self)
        ensures
            r.wf(),
            r.hot@.len() == 0,
            r.cold@.len() == 0,
            r.snapshot@.len() == 0,
            r.hot_size_bytes == 0,
            r.batch_pending == 0,
            r.flush_threshold == 64 * 1024 * 1024,
            r.sync_level == (SyncLevel::Batch { ms: 100, max_pending: 1000 }),
            !r.wal_attached,
    {
        Self::new(64 * 1024 * 1024, SyncLevel::Batch { ms: 100, max_pending: 1000 })
    }
}

/// A flush takes nothing away from readers: what was in the hot buffer is
/// readable as the snapshot, and is handed out for the cache and the patches.
pub proof fn law_drained_versions_stay_readable(
    before: MemStore,
    after: MemStore,
    drained: Seq<EntryModel>,
    e: EntryModel,
)
    requires
        drained == before.hot@,
        after.snapshot@ == before.hot@,
        before.hot@.contains(e),
    ensures
        drained.contains(e),
        l1_versions(after).contains(e),
{
    let i = choose|i: int| 0 <= i < before.hot@.len() && before.hot@[i] == e;
    let k = after.hot@.len() + after.cold@.len() + i;
    assert(l1_versions(after)[k] == e);
}

} // verus!
