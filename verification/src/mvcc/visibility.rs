//! The visibility manager.
//!
//! A transaction without an entry in the commit history is invisible. Entries
//! evicted from the history (by count or by age) therefore make old versions
//! invisible; there is no weaker fallback.
//!
//! The manager tracks active transactions, takes consistent snapshots,
//! detects conflicts between concurrent transactions by their read and write
//! sets, and bounds the committed history.

use crate::codec::timestamp::{current_timestamp_millis, MonotonicClock};
use crate::config::VisibilityConfig;
use crate::error::{Result, Z1Error};
use crate::maps::sorted_keys;
use crate::mvcc::history::{
    collect_commits, commit_times, commits_up_to, evict_expired, evict_oldest, max_commit_ts,
    not_older, oldest_evicted,
};
use crate::mvcc::keyset::KeySet;
use crate::text::{copy_str, decimal, push_decimal};
use crate::TxnId;
use std::collections::{BTreeMap, BTreeSet, HashMap};
use std::sync::Arc;
use vstd::prelude::*;

verus! {

broadcast use {
    vstd::std_specs::btree::group_btree_axioms,
    vstd::std_specs::hash::group_hash_axioms,
    vstd::laws_cmp::group_laws_cmp,
};

/// The visibility rules of strict Snapshot Isolation, for a row created by
/// `created` and possibly deleted by `deleted`:
///
/// 1. `created` is not a future transaction
/// 2. `created` is not active
/// 3. `created` has committed, not after the snapshot
/// 4. `deleted` is active, has not committed, or has committed after the
///    snapshot
pub open spec fn row_visible(
    snapshot_id: TxnId,
    created: TxnId,
    deleted: Option<TxnId>,
    active: Set<TxnId>,
    commits: Map<TxnId, u64>,
) -> bool {
    &&& created <= snapshot_id
    &&& !active.contains(created)
    &&& commits.contains_key(created)
    &&& commits[created] <= snapshot_id
    &&& match deleted {
        Some(del) => active.contains(del) || !commits.contains_key(del) || commits[del]
            > snapshot_id,
        None => true,
    }
}

/// Visibility filter: every visibility decision follows the same rules.
pub trait VisFilter: Send + Sync {
    /// Whether a row created by `created_txn` and possibly deleted by
    /// `deleted_txn` is visible in the snapshot `snapshot_id`.
    fn is_row_visible(
        &self,
        snapshot_id: TxnId,
        created_txn: TxnId,
        deleted_txn: Option<TxnId>,
        active_txns: &BTreeSet<TxnId>,
        commit_ts_map: &HashMap<TxnId, u64>,
    ) -> (r: bool)
        ensures
            r == row_visible(
                snapshot_id,
                created_txn,
                deleted_txn,
                active_txns@,
                commit_ts_map@,
            ),
    ;
}

/// Transaction status.
#[derive(Debug, Clone, Copy, PartialEq, Eq, Structural)]
pub enum TxnStatus {
    Active,
    Committed,
    Aborted,
}

/// What is tracked of a transaction.
#[derive(Debug)]
pub struct TxnMeta {
    pub begin_ts: u64,
    /// Commit timestamp (wall clock), set on commit.
    pub commit_ts: Option<u64>,
    pub status: TxnStatus,
    /// Keys read by this transaction.
    pub read_keys: KeySet,
    /// Keys written by this transaction.
    pub written_keys: KeySet,
}

/// A transaction as a mathematical value.
#[verifier::ext_equal]
pub struct MetaModel {
    pub begin_ts: u64,
    pub commit_ts: Option<u64>,
    pub status: TxnStatus,
    pub reads: Set<Seq<u8>>,
    pub writes: Set<Seq<u8>>,
}

impl View for TxnMeta {
    type V = MetaModel;

    open spec fn view(&self) -> MetaModel {
        MetaModel {
            begin_ts: self.begin_ts,
            commit_ts: self.commit_ts,
            status: self.status,
            reads: self.read_keys@,
            writes: self.written_keys@,
        }
    }
}

/// A transaction that has just begun.
pub open spec fn fresh_meta(begin_ts: u64) -> MetaModel {
    MetaModel {
        begin_ts,
        commit_ts: None,
        status: TxnStatus::Active,
        reads: Set::empty(),
        writes: Set::empty(),
    }
}

impl TxnMeta {
    pub open spec fn wf(&self) -> bool {
        self.read_keys.wf() && self.written_keys.wf()
    }

    pub fn new(begin_ts: u64) -> (r: Self)
        ensures
            r.wf(),
            r@ == fresh_meta(begin_ts),
    {
        TxnMeta {
            begin_ts,
            commit_ts: None,
            status: TxnStatus::Active,
            read_keys: KeySet::new(),
            written_keys: KeySet::new(),
        }
    }

    pub fn record_read(&mut self, key: Vec<u8>)
        requires
            old(self).wf(),
        ensures
            final(self).wf(),
            final(self)@ == (MetaModel { reads: old(self)@.reads.insert(key@), ..old(self)@ }),
    {
        self.read_keys.insert(key);
    }

    pub fn record_write(&mut self, key: Vec<u8>)
        requires
            old(self).wf(),
        ensures
            final(self).wf(),
            final(self)@ == (MetaModel { writes: old(self)@.writes.insert(key@), ..old(self)@ }),
    {
        self.written_keys.insert(key);
    }

    pub fn commit(&mut self, commit_ts: u64)
        ensures
            old(self).wf() ==> final(self).wf(),
            final(self)@ == (MetaModel {
                status: TxnStatus::Committed,
                commit_ts: Some(commit_ts),
                ..old(self)@
            }),
    {
        self.status = TxnStatus::Committed;
        self.commit_ts = Some(commit_ts);
    }
}

impl Clone for TxnMeta {
    fn clone(&self) -> (r: Self)
        ensures
            r@ == self@,
            self.wf() ==> r.wf(),
    {
        TxnMeta {
            begin_ts: self.begin_ts,
            commit_ts: self.commit_ts,
            status: self.status,
            read_keys: self.read_keys.clone(),
            written_keys: self.written_keys.clone(),
        }
    }
}

/// Isolation level.
#[derive(Debug, Clone, Copy, PartialEq, Eq, Structural)]
pub enum IsolationLevel {
    ReadCommitted,
    RepeatableRead,
    Snapshot,
}

impl Default for IsolationLevel {
    fn default() -> (r: Self)
        ensures
            r == IsolationLevel::ReadCommitted,
    {
        IsolationLevel::ReadCommitted
    }
}

/// A snapshot: what a reader may see.
#[derive(Debug)]
pub struct TxnSnapshot {
    pub snapshot_id: TxnId,
    pub active_txns: BTreeSet<TxnId>,
    pub isolation: IsolationLevel,
    /// Commit timestamps of the transactions that committed by the snapshot.
    pub commit_ts_map: HashMap<TxnId, u64>,
}

/// A snapshot as a mathematical value.
#[verifier::ext_equal]
pub struct SnapshotModel {
    pub snapshot_id: TxnId,
    pub active: Set<TxnId>,
    pub isolation: IsolationLevel,
    pub commits: Map<TxnId, u64>,
}

impl View for TxnSnapshot {
    type V = SnapshotModel;

    open spec fn view(&self) -> SnapshotModel {
        SnapshotModel {
            snapshot_id: self.snapshot_id,
            active: self.active_txns@,
            isolation: self.isolation,
            commits: self.commit_ts_map@,
        }
    }
}

impl SnapshotModel {
    /// Whether a version written by `txn` is visible in this snapshot.
    pub open spec fn sees(self, txn: TxnId) -> bool {
        crate::store::types::visible_at(txn, self.snapshot_id, self.commits, self.active)
    }
}

impl TxnSnapshot {
    /// A snapshot without commit history.
    pub fn new(
        snapshot_id: TxnId,
        active_txns: BTreeSet<TxnId>,
        isolation: IsolationLevel,
    ) -> (r: Self)
        ensures
            r@ == (SnapshotModel {
                snapshot_id,
                active: active_txns@,
                isolation,
                commits: Map::empty(),
            }),
    {
        TxnSnapshot { snapshot_id, active_txns, isolation, commit_ts_map: HashMap::new() }
    }
}

impl Clone for TxnSnapshot {
    fn clone(&self) -> (r: Self)
        ensures
            r@ == self@,
    {
        TxnSnapshot {
            snapshot_id: self.snapshot_id,
            active_txns: self.active_txns.clone(),
            isolation: self.isolation,
            commit_ts_map: self.commit_ts_map.clone(),
        }
    }
}

/// Decide by the visibility rules.
fn decide(
    snapshot_id: TxnId,
    created_txn: TxnId,
    deleted_txn: Option<TxnId>,
    active_txns: &BTreeSet<TxnId>,
    commit_ts_map: &HashMap<TxnId, u64>,
) -> (r: bool)
    ensures
        r == row_visible(snapshot_id, created_txn, deleted_txn, active_txns@, commit_ts_map@),
{
    // Rule 1: not a future transaction.
    if created_txn > snapshot_id {
        return false;
    }
    // Rule 2: not created by an active transaction.
    if active_txns.contains(&created_txn) {
        return false;
    }
    // Rule 3: committed, and not after the snapshot.
    match commit_ts_map.get(&created_txn) {
        Some(commit_ts) => {
            if *commit_ts > snapshot_id {
                return false;
            }
        },
        None => {
            return false;
        },
    }
    // Rule 4: not deleted by a transaction that committed by the snapshot.
    if let Some(del) = deleted_txn {
        if !active_txns.contains(&del) {
            if let Some(del_commit_ts) = commit_ts_map.get(&del) {
                if *del_commit_ts <= snapshot_id {
                    return false;
                }
            }
        }
    }
    true
}

impl VisFilter for TxnSnapshot {
    fn is_row_visible(
        &self,
        snapshot_id: TxnId,
        created_txn: TxnId,
        deleted_txn: Option<TxnId>,
        active_txns: &BTreeSet<TxnId>,
        commit_ts_map: &HashMap<TxnId, u64>,
    ) -> (r: bool) {
        decide(snapshot_id, created_txn, deleted_txn, active_txns, commit_ts_map)
    }
}

impl VisFilter for VisibilityManager {
    fn is_row_visible(
        &self,
        snapshot_id: TxnId,
        created_txn: TxnId,
        deleted_txn: Option<TxnId>,
        active_txns: &BTreeSet<TxnId>,
        commit_ts_map: &HashMap<TxnId, u64>,
    ) -> (r: bool) {
        decide(snapshot_id, created_txn, deleted_txn, active_txns, commit_ts_map)
    }
}

impl<T: VisFilter> VisFilter for Arc<T> {
    fn is_row_visible(
        &self,
        snapshot_id: TxnId,
        created_txn: TxnId,
        deleted_txn: Option<TxnId>,
        active_txns: &BTreeSet<TxnId>,
        commit_ts_map: &HashMap<TxnId, u64>,
    ) -> (r: bool) {
        (**self).is_row_visible(snapshot_id, created_txn, deleted_txn, active_txns, commit_ts_map)
    }
}

/// The visibility manager.
#[derive(Debug)]
pub struct VisibilityManager {
    pub committed_txn: u64,
    /// The largest insertion time among the transactions recovered from the
    /// WAL.
    pub replay_watermark: u64,
    pub active_txns: BTreeMap<TxnId, TxnMeta>,
    /// Committed transaction -> (commit timestamp, insertion time). The commit
    /// timestamp decides visibility, the insertion time decides eviction.
    pub committed_history: BTreeMap<TxnId, (u64, u64)>,
    /// The commit timestamps of `committed_history`, kept in step with it.
    pub committed_ts_shadow: HashMap<TxnId, u64>,
    /// Number of commits, wrapping.
    pub commit_seq: u64,
    /// `commit_seq` at the last age-based eviction.
    pub last_ttl_check_seq: u64,
    /// Wall-clock milliseconds of the last age-based eviction.
    pub last_ttl_check_ms: u64,
    pub config: VisibilityConfig,
    pub clock: MonotonicClock,
}

/// The visibility manager as a mathematical value.
#[verifier::ext_equal]
pub struct ManagerModel {
    pub committed_txn: u64,
    pub replay_watermark: u64,
    pub active: Map<TxnId, MetaModel>,
    pub history: Map<TxnId, (u64, u64)>,
    pub commit_seq: u64,
    pub last_ttl_check_seq: u64,
    pub last_ttl_check_ms: u64,
    pub config: VisibilityConfig,
}

impl View for VisibilityManager {
    type V = ManagerModel;

    open spec fn view(&self) -> ManagerModel {
        ManagerModel {
            committed_txn: self.committed_txn,
            replay_watermark: self.replay_watermark,
            active: self.active_txns@.map_values(|m: TxnMeta| m@),
            history: self.committed_history@,
            commit_seq: self.commit_seq,
            last_ttl_check_seq: self.last_ttl_check_seq,
            last_ttl_check_ms: self.last_ttl_check_ms,
            config: self.config,
        }
    }
}

/// The clone has the same transactions, history and settings, and goes on from
/// the same time.
impl Clone for VisibilityManager {
    fn clone(&self) -> (r: Self)
        ensures
            r@ == self@,
            r.clock == self.clock,
            self.wf() ==> r.wf(),
    {
        let ids = sorted_keys(&self.active_txns);
        let mut active_txns: BTreeMap<TxnId, TxnMeta> = BTreeMap::new();
        let mut i: usize = 0;
        while i < ids.len()
            invariant
                i <= ids@.len(),
                ids@.no_duplicates(),
                forall|t: TxnId| ids@.contains(t) <==> #[trigger] self.active_txns@.contains_key(t),
                forall|t: TxnId| #[trigger]
                    active_txns@.contains_key(t) <==> ids@.take(i as int).contains(t),
                forall|t: TxnId| #[trigger]
                    active_txns@.contains_key(t) ==> active_txns@[t]@ == self.active_txns@[t]@ && (
                    self.active_txns@[t].wf() ==> active_txns@[t].wf()),
            decreases ids@.len() - i,
        {
            let t: TxnId = ids[i];
            assert(ids@.contains(t));
            assert(self.active_txns@.contains_key(t));
            assert(ids@.take(i + 1) =~= ids@.take(i as int).push(t));
            match self.active_txns.get(&t) {
                Some(m) => {
                    active_txns.insert(t, m.clone());
                },
                None => {
                    assert(false);
                },
            }
            proof {
                let before = ids@.take(i as int);
                let now = ids@.take(i + 1);
                assert forall|u: TxnId| #[trigger] now.contains(u) <==> before.contains(u) || u
                    == t by {
                    if before.contains(u) {
                        let j = choose|j: int| 0 <= j < before.len() && before[j] == u;
                        assert(now[j] == u);
                    }
                    if u == t {
                        assert(now[i as int] == u);
                    }
                }
            }
            i = i + 1;
        }
        let r = VisibilityManager {
            committed_txn: self.committed_txn,
            replay_watermark: self.replay_watermark,
            active_txns,
            committed_history: self.committed_history.clone(),
            committed_ts_shadow: self.committed_ts_shadow.clone(),
            commit_seq: self.commit_seq,
            last_ttl_check_seq: self.last_ttl_check_seq,
            last_ttl_check_ms: self.last_ttl_check_ms,
            config: self.config.clone(),
            clock: self.clock,
        };
        proof {
            assert(ids@.take(ids@.len() as int) =~= ids@);
            assert forall|t: TxnId| #[trigger] r.active_txns@.contains_key(t)
                <==> self.active_txns@.contains_key(t) by {}
            assert(r@.active =~= self@.active);
        }
        r
    }
}

/// `id` is the snapshot id of a manager: the largest of the committed
/// transaction ids and the commit timestamps.
pub open spec fn is_snapshot_id(m: ManagerModel, id: u64) -> bool {
    is_highest(m.committed_txn, m.history, id)
}

/// `id` is the largest of a transaction id and the commit timestamps of a
/// history.
pub open spec fn is_highest(floor: TxnId, history: Map<TxnId, (u64, u64)>, id: u64) -> bool {
    &&& floor <= id
    &&& forall|t: TxnId| #[trigger] history.contains_key(t) ==> history[t].0 <= id
    &&& id == floor || exists|t: TxnId| #[trigger] history.contains_key(t) && history[t].0 == id
}

pub open spec fn highest(floor: TxnId, history: Map<TxnId, (u64, u64)>) -> u64 {
    choose|id: u64| is_highest(floor, history, id)
}

/// The snapshot id of a manager.
pub open spec fn snapshot_id_of(m: ManagerModel) -> u64 {
    highest(m.committed_txn, m.history)
}

/// The snapshot that a manager takes.
pub open spec fn snapshot_of(m: ManagerModel, isolation: IsolationLevel) -> SnapshotModel {
    SnapshotModel {
        snapshot_id: snapshot_id_of(m),
        active: m.active.dom(),
        isolation,
        commits: commits_up_to(m.history, snapshot_id_of(m)),
    }
}

/// The snapshot of the state as of `txn_id`.
pub open spec fn snapshot_as_of(
    m: ManagerModel,
    txn_id: TxnId,
    isolation: IsolationLevel,
) -> SnapshotModel {
    SnapshotModel {
        snapshot_id: txn_id,
        active: Set::new(|t: TxnId| m.active.contains_key(t) && m.active[t].begin_ts <= txn_id),
        isolation,
        commits: commits_up_to(m.history, txn_id),
    }
}

/// Another active transaction `o` writes `key`.
pub open spec fn other_writes(m: ManagerModel, t: TxnId, o: TxnId, key: Seq<u8>) -> bool {
    o != t && m.active.contains_key(o) && m.active[o].writes.contains(key)
}

/// Another active transaction `o` has read `key`.
pub open spec fn other_reads(m: ManagerModel, t: TxnId, o: TxnId, key: Seq<u8>) -> bool {
    o != t && m.active.contains_key(o) && m.active[o].reads.contains(key)
}

/// Another active transaction `o` has read or writes `key`.
pub open spec fn other_touches(m: ManagerModel, t: TxnId, o: TxnId, key: Seq<u8>) -> bool {
    other_reads(m, t, o, key) || other_writes(m, t, o, key)
}

/// Committing `t` meets a read-write conflict with `o`: `o` writes a key that
/// `t` has read.
pub open spec fn rw_conflict_with(m: ManagerModel, t: TxnId, o: TxnId) -> bool {
    exists|key: Seq<u8>| m.active[t].reads.contains(key) && #[trigger] other_writes(m, t, o, key)
}

/// Committing `t` meets a read-write conflict.
pub open spec fn rw_conflict(m: ManagerModel, t: TxnId) -> bool {
    exists|o: TxnId| #[trigger] rw_conflict_with(m, t, o)
}

/// Committing `t` meets a write conflict over `key`: another active
/// transaction has read or writes it.
pub open spec fn ww_conflict_on(m: ManagerModel, t: TxnId, key: Seq<u8>) -> bool {
    &&& m.active[t].writes.contains(key)
    &&& exists|o: TxnId| #[trigger] other_touches(m, t, o, key)
}

/// Committing `t` meets a write conflict.
pub open spec fn ww_conflict(m: ManagerModel, t: TxnId) -> bool {
    exists|key: Seq<u8>| #[trigger] ww_conflict_on(m, t, key)
}

/// `o` is the transaction that a write conflict of `t` is reported with: it
/// has read a key that `t` writes, or, where nobody has, writes it.
pub open spec fn ww_reported(m: ManagerModel, t: TxnId, o: TxnId) -> bool {
    exists|key: Seq<u8>| #[trigger]
        m.active[t].writes.contains(key) && (other_reads(m, t, o, key) || (other_writes(
            m,
            t,
            o,
            key,
        ) && forall|p: TxnId| !other_reads(m, t, p, key)))
}

/// The text of a conflict.
pub open spec fn conflict_text(t: TxnId, o: TxnId, rw: bool) -> Seq<char> {
    "SSI conflict: txn "@ + decimal(t as nat) + " conflicts with active txn "@ + decimal(o as nat)
        + (if rw {
        " (rw=true, ww=false)"@
    } else {
        " (rw=false, ww=true)"@
    })
}

/// The text about a transaction in a state that does not admit the request.
pub open spec fn txn_text(t: TxnId, what: Seq<char>) -> Seq<char> {
    "transaction "@ + decimal(t as nat) + what
}

/// How many history entries a count-based eviction keeps.
pub open spec fn history_keep(max_entries: usize) -> nat {
    (max_entries * 4 / 5) as nat
}

/// `kept` is what the count-based eviction leaves of a history.
pub open spec fn evicted_by_count(
    h: Map<TxnId, (u64, u64)>,
    max_entries: usize,
    kept: Map<TxnId, (u64, u64)>,
) -> bool {
    if h.len() > max_entries {
        oldest_evicted(h, history_keep(max_entries), kept)
    } else {
        kept == h
    }
}

/// Whether the age-based eviction runs: every 256 commits, or when a second
/// has passed since the last one.
pub open spec fn ttl_due(m: ManagerModel, now_ms: u64) -> bool {
    m.commit_seq.wrapping_sub(m.last_ttl_check_seq) >= 256 || now_ms - m.last_ttl_check_ms >= 1000
}

/// Entries inserted before this time are older than the time-to-live. It goes
/// by insertion time, so a recovered entry ages by the time its commit was
/// logged, and is not evicted earlier than it would have been without a
/// restart.
pub open spec fn ttl_cutoff(m: ManagerModel, now_ms: u64) -> u64 {
    if now_ms <= m.config.history_ttl_secs * 1000 {
        0
    } else {
        (now_ms - m.config.history_ttl_secs * 1000) as u64
    }
}

/// The manager after the age-based eviction.
pub open spec fn after_ttl(m: ManagerModel, now_ms: u64) -> ManagerModel {
    if ttl_due(m, now_ms) {
        ManagerModel {
            history: not_older(m.history, ttl_cutoff(m, now_ms)),
            last_ttl_check_seq: m.commit_seq,
            last_ttl_check_ms: now_ms,
            ..m
        }
    } else {
        m
    }
}

/// `after` is the manager after its history was pruned: first by count, then
/// by age.
pub open spec fn pruned(before: ManagerModel, now_ms: u64, after: ManagerModel) -> bool {
    exists|kept: Map<TxnId, (u64, u64)>| #[trigger]
        evicted_by_count(before.history, before.config.max_history_entries, kept) && after
            == after_ttl(ManagerModel { history: kept, ..before }, now_ms)
}

/// The manager with `t` entered in its history and not yet pruned.
pub open spec fn entered(m: ManagerModel, t: TxnId, commit_ts: u64, inserted_at: u64) -> ManagerModel {
    ManagerModel {
        committed_txn: if t > m.committed_txn {
            t
        } else {
            m.committed_txn
        },
        active: m.active.remove(t),
        history: m.history.insert(t, (commit_ts, inserted_at)),
        commit_seq: m.commit_seq.wrapping_add(1),
        ..m
    }
}

/// The manager without the active transaction `t`.
pub open spec fn without_active(m: ManagerModel, t: TxnId) -> ManagerModel {
    ManagerModel { active: m.active.remove(t), ..m }
}

/// What checking `t` for conflicts does: an unknown transaction is refused,
/// and one that conflicts is aborted.
pub open spec fn check_outcome(
    before: ManagerModel,
    t: TxnId,
    r: Result<()>,
    after: ManagerModel,
) -> bool {
    if !before.active.contains_key(t) {
        &&& r matches Err(Z1Error::MvccConflict(m)) && m@ == txn_text(t, " not active"@)
        &&& after == before
    } else if rw_conflict(before, t) {
        &&& r matches Err(Z1Error::MvccConflict(m)) && exists|o: TxnId| #[trigger]
            rw_conflict_with(before, t, o) && m@ == conflict_text(t, o, true)
        &&& after == without_active(before, t)
    } else if ww_conflict(before, t) {
        &&& r matches Err(Z1Error::MvccConflict(m)) && exists|o: TxnId| #[trigger]
            ww_reported(before, t, o) && m@ == conflict_text(t, o, false)
        &&& after == without_active(before, t)
    } else {
        &&& r is Ok
        &&& after == before
    }
}

/// What committing `t` does: an unknown transaction is refused; a conflict
/// aborts it; otherwise it is entered in the history, the history is pruned,
/// and the snapshot of the new state is returned.
pub open spec fn commit_outcome(
    before: ManagerModel,
    t: TxnId,
    inserted_at: u64,
    commit_ts: u64,
    now_ms: u64,
    r: Result<TxnSnapshot>,
    after: ManagerModel,
) -> bool {
    if !before.active.contains_key(t) {
        &&& r matches Err(Z1Error::MvccConflict(m)) && m@ == txn_text(t, " not active"@)
        &&& after == before
    } else if rw_conflict(before, t) {
        &&& r matches Err(Z1Error::MvccConflict(m)) && exists|o: TxnId| #[trigger]
            rw_conflict_with(before, t, o) && m@ == conflict_text(t, o, true)
        &&& after == without_active(before, t)
    } else if ww_conflict(before, t) {
        &&& r matches Err(Z1Error::MvccConflict(m)) && exists|o: TxnId| #[trigger]
            ww_reported(before, t, o) && m@ == conflict_text(t, o, false)
        &&& after == without_active(before, t)
    } else {
        &&& pruned(entered(before, t, commit_ts, inserted_at), now_ms, after)
        &&& r matches Ok(s) && s@ == snapshot_of(after, IsolationLevel::Snapshot)
    }
}

/// The insertion time of a recovered entry: the one the WAL carries, or the
/// current time.
pub open spec fn recovered_time(wal: Map<TxnId, u64>, t: TxnId, now_ms: u64) -> u64 {
    if wal.contains_key(t) {
        wal[t]
    } else {
        now_ms
    }
}

/// The history recovered from a list of (transaction, commit timestamp); a
/// later entry of a transaction replaces an earlier one.
pub open spec fn recovered_history(
    list: Seq<(TxnId, u64)>,
    wal: Map<TxnId, u64>,
    now_ms: u64,
) -> Map<TxnId, (u64, u64)>
    decreases list.len(),
{
    if list.len() == 0 {
        Map::empty()
    } else {
        let (t, ts) = list.last();
        recovered_history(list.drop_last(), wal, now_ms).insert(
            t,
            (ts, recovered_time(wal, t, now_ms)),
        )
    }
}

/// The largest of `floor` and the transactions of a list.
pub open spec fn max_txn_of(list: Seq<(TxnId, u64)>, floor: TxnId) -> TxnId
    decreases list.len(),
{
    if list.len() == 0 {
        floor
    } else {
        let rest = max_txn_of(list.drop_last(), floor);
        if list.last().0 > rest {
            list.last().0
        } else {
            rest
        }
    }
}

/// The manager after its history was recovered.
pub open spec fn recovered(
    m: ManagerModel,
    list: Seq<(TxnId, u64)>,
    config: Option<VisibilityConfig>,
    wal: Map<TxnId, u64>,
    now_ms: u64,
) -> ManagerModel {
    ManagerModel {
        history: recovered_history(list, wal, now_ms),
        committed_txn: max_txn_of(list, m.committed_txn),
        config: match config {
            Some(c) => c,
            None => m.config,
        },
        ..m
    }
}

/// There is only one snapshot id.
pub proof fn lemma_snapshot_id_unique(m: ManagerModel, id: u64)
    requires
        is_snapshot_id(m, id),
    ensures
        snapshot_id_of(m) == id,
{
    let other = snapshot_id_of(m);
    assert(is_snapshot_id(m, other));
}

fn txn_message(t: TxnId, what: &str) -> (r: String)
    ensures
        r@ == txn_text(t, what@),
{
    let mut m = copy_str("transaction ");
    push_decimal(&mut m, t);
    m.append(what);
    m
}

impl VisibilityManager {
    /// Every active transaction is registered under the id it began with, and
    /// the shadow holds the commit timestamps of the history.
    pub open spec fn wf(&self) -> bool {
        &&& forall|t: TxnId| #[trigger]
            self.active_txns@.contains_key(t) ==> self.active_txns@[t].wf()
                && self.active_txns@[t].begin_ts == t
        &&& self.committed_ts_shadow@ == commit_times(self.committed_history@)
    }

    pub fn new() -> (r: Self)
        ensures
            r.wf(),
            r@ == fresh_manager(r.config),
            r.config.max_history_entries == 100_000,
            r.config.history_ttl_secs == 3600,
    {
        Self::new_with_config(VisibilityConfig::default())
    }

    pub fn new_with_config(config: VisibilityConfig) -> (r: Self)
        ensures
            r.wf(),
            r@ == fresh_manager(config),
            r.clock.last_valid == 0,
    {
        let r = VisibilityManager {
            committed_txn: 0,
            replay_watermark: 0,
            active_txns: BTreeMap::new(),
            committed_history: BTreeMap::new(),
            committed_ts_shadow: HashMap::new(),
            commit_seq: 0,
            last_ttl_check_seq: 0,
            last_ttl_check_ms: 0,
            config,
            clock: MonotonicClock::new(),
        };
        proof {
            assert(commit_times(r.committed_history@) =~= Map::<TxnId, u64>::empty());
            assert(r@ =~= fresh_manager(config));
        }
        r
    }

    pub fn set_committed_txn(&mut self, txn_id: TxnId)
        ensures
            old(self).wf() ==> final(self).wf(),
            final(self)@ == (ManagerModel { committed_txn: txn_id, ..old(self)@ }),
            final(self).clock == old(self).clock,
    {
        self.committed_txn = txn_id;
    }

    /// Set the WAL replay watermark.
    pub fn set_replay_watermark(&mut self, watermark: u64)
        ensures
            old(self).wf() ==> final(self).wf(),
            final(self)@ == (ManagerModel { replay_watermark: watermark, ..old(self)@ }),
            final(self).clock == old(self).clock,
    {
        self.replay_watermark = watermark;
    }

    /// Register a transaction. An active or already committed id is refused.
    pub fn begin_txn(&mut self, txn_id: TxnId) -> (r: Result<()>)
        requires
            old(self).wf(),
        ensures
            final(self).wf(),
            begin_outcome(old(self)@, txn_id, r, final(self)@),
            final(self).clock == old(self).clock,
    {
        if self.active_txns.contains_key(&txn_id) {
            return Err(Z1Error::MvccConflict(txn_message(txn_id, " already active")));
        }
        if txn_id <= self.committed_txn {
            return Err(Z1Error::MvccConflict(txn_message(txn_id, " already committed")));
        }
        let meta = TxnMeta::new(txn_id);
        self.active_txns.insert(txn_id, meta);
        proof {
            assert(self@.active =~= old(self)@.active.insert(txn_id, fresh_meta(txn_id)));
        }
        Ok(())
    }

    /// Register a transaction and take its snapshot in one step: commits that
    /// come later are not in it, and the transaction itself is active in it.
    pub fn begin_txn_with_snapshot(
        &mut self,
        txn_id: TxnId,
        isolation: IsolationLevel,
    ) -> (r: Result<TxnSnapshot>)
        requires
            old(self).wf(),
        ensures
            final(self).wf(),
            match r {
                Ok(s) => {
                    &&& begin_outcome(old(self)@, txn_id, Ok(()), final(self)@)
                    &&& s@ == snapshot_of(final(self)@, isolation)
                    &&& s@.active.contains(txn_id)
                },
                Err(e) => begin_outcome(old(self)@, txn_id, Err(e), final(self)@),
            },
            final(self).clock == old(self).clock,
    {
        match self.begin_txn(txn_id) {
            Ok(_) => {},
            Err(e) => {
                return Err(e);
            },
        }
        let snap = self.snapshot_with_commit_ts_map(isolation);
        Ok(snap)
    }

    /// Record a read of an active transaction; any other is left alone.
    pub fn record_read(&mut self, txn_id: TxnId, key: &[u8])
        requires
            old(self).wf(),
        ensures
            final(self).wf(),
            final(self)@ == with_read(old(self)@, txn_id, key@),
            old(self)@.active.contains_key(txn_id) ==> final(self)@.active[txn_id].reads == old(
                self,
            )@.active[txn_id].reads.insert(key@),
            final(self).clock == old(self).clock,
    {
        match self.active_txns.remove(&txn_id) {
            Some(meta) => {
                let mut meta = meta;
                meta.record_read(crate::bytes::copy_bytes(key));
                self.active_txns.insert(txn_id, meta);
                proof {
                    assert(self@.active =~= with_read(old(self)@, txn_id, key@).active);
                }
            },
            None => {
                proof {
                    assert(self@.active =~= old(self)@.active);
                }
            },
        }
    }

    /// Record a write of an active transaction; any other is left alone.
    pub fn record_write(&mut self, txn_id: TxnId, key: &[u8])
        requires
            old(self).wf(),
        ensures
            final(self).wf(),
            final(self)@ == with_write(old(self)@, txn_id, key@),
            old(self)@.active.contains_key(txn_id) ==> final(self)@.active[txn_id].writes == old(
                self,
            )@.active[txn_id].writes.insert(key@),
            final(self).clock == old(self).clock,
    {
        match self.active_txns.remove(&txn_id) {
            Some(meta) => {
                let mut meta = meta;
                meta.record_write(crate::bytes::copy_bytes(key));
                self.active_txns.insert(txn_id, meta);
                proof {
                    assert(self@.active =~= with_write(old(self)@, txn_id, key@).active);
                }
            },
            None => {
                proof {
                    assert(self@.active =~= old(self)@.active);
                }
            },
        }
    }

    /// Another active transaction that writes `key`, if there is one.
    fn other_writer(&self, txn_id: TxnId, key: &[u8]) -> (r: Option<TxnId>)
        requires
            self.wf(),
        ensures
            match r {
                Some(o) => other_writes(self@, txn_id, o, key@),
                None => forall|o: TxnId| !other_writes(self@, txn_id, o, key@),
            },
    {
        let ids = sorted_keys(&self.active_txns);
        let mut i: usize = 0;
        while i < ids.len()
            invariant
                self.wf(),
                i <= ids@.len(),
                forall|k: u64| ids@.contains(k) <==> #[trigger] self.active_txns@.contains_key(k),
                forall|j: int| 0 <= j < i ==> !other_writes(self@, txn_id, #[trigger] ids@[j], key@),
            decreases ids@.len() - i,
        {
            let o: TxnId = ids[i];
            assert(ids@.contains(o));
            if o != txn_id {
                if let Some(meta) = self.active_txns.get(&o) {
                    if meta.written_keys.contains(key) {
                        return Some(o);
                    }
                }
            }
            i = i + 1;
        }
        proof {
            assert forall|o: TxnId| !other_writes(self@, txn_id, o, key@) by {
                if self.active_txns@.contains_key(o) {
                    assert(ids@.contains(o));
                    let j = choose|j: int| 0 <= j < ids@.len() && ids@[j] == o;
                    assert(!other_writes(self@, txn_id, ids@[j], key@));
                }
            }
        }
        None
    }

    /// Another active transaction that has read `key`, if there is one.
    fn other_reader(&self, txn_id: TxnId, key: &[u8]) -> (r: Option<TxnId>)
        requires
            self.wf(),
        ensures
            match r {
                Some(o) => other_reads(self@, txn_id, o, key@),
                None => forall|o: TxnId| !other_reads(self@, txn_id, o, key@),
            },
    {
        let ids = sorted_keys(&self.active_txns);
        let mut i: usize = 0;
        while i < ids.len()
            invariant
                self.wf(),
                i <= ids@.len(),
                forall|k: u64| ids@.contains(k) <==> #[trigger] self.active_txns@.contains_key(k),
                forall|j: int| 0 <= j < i ==> !other_reads(self@, txn_id, #[trigger] ids@[j], key@),
            decreases ids@.len() - i,
        {
            let o: TxnId = ids[i];
            assert(ids@.contains(o));
            if o != txn_id {
                if let Some(meta) = self.active_txns.get(&o) {
                    if meta.read_keys.contains(key) {
                        return Some(o);
                    }
                }
            }
            i = i + 1;
        }
        proof {
            assert forall|o: TxnId| !other_reads(self@, txn_id, o, key@) by {
                if self.active_txns@.contains_key(o) {
                    assert(ids@.contains(o));
                    let j = choose|j: int| 0 <= j < ids@.len() && ids@[j] == o;
                    assert(!other_reads(self@, txn_id, ids@[j], key@));
                }
            }
        }
        None
    }

    /// The conflict that committing `txn_id` meets: the other transaction, and
    /// whether it is a read-write conflict.
    fn find_conflict(&self, txn_id: TxnId) -> (r: Option<(TxnId, bool)>)
        requires
            self.wf(),
            self@.active.contains_key(txn_id),
        ensures
            match r {
                Some((o, true)) => rw_conflict_with(self@, txn_id, o),
                Some((o, false)) => !rw_conflict(self@, txn_id) && ww_reported(self@, txn_id, o)
                    && ww_conflict(self@, txn_id),
                None => !rw_conflict(self@, txn_id) && !ww_conflict(self@, txn_id),
            },
    {
        let meta = match self.active_txns.get(&txn_id) {
            Some(meta) => meta,
            None => {
                return None;
            },
        };
        let ghost m = self@;
        assert(m.active[txn_id] == meta@);
        let mut i: usize = 0;
        while i < meta.read_keys.keys.len()
            invariant
                self.wf(),
                m == self@,
                m.active[txn_id] == meta@,
                i <= meta.read_keys.keys@.len(),
                forall|j: int, o: TxnId|
                    0 <= j < i ==> !(#[trigger] other_writes(m, txn_id, o, meta.read_keys.keys@[j]@)),
            decreases meta.read_keys.keys@.len() - i,
        {
            let key = meta.read_keys.keys[i].as_slice();
            match self.other_writer(txn_id, key) {
                Some(o) => {
                    proof {
                        assert(meta.read_keys.keys@[i as int]@ == key@);
                        assert(m.active[txn_id].reads.contains(key@));
                        assert(rw_conflict_with(m, txn_id, o));
                    }
                    return Some((o, true));
                },
                None => {},
            }
            i = i + 1;
        }
        proof {
            assert(!rw_conflict(m, txn_id)) by {
                if rw_conflict(m, txn_id) {
                    let o = choose|o: TxnId| #[trigger] rw_conflict_with(m, txn_id, o);
                    let key = choose|key: Seq<u8>|
                        m.active[txn_id].reads.contains(key) && #[trigger] other_writes(
                            m,
                            txn_id,
                            o,
                            key,
                        );
                    let j = choose|j: int|
                        0 <= j < meta.read_keys.keys@.len() && #[trigger] meta.read_keys.keys@[j]@
                            == key;
                    assert(!other_writes(m, txn_id, o, meta.read_keys.keys@[j]@));
                }
            }
        }
        let mut i: usize = 0;
        while i < meta.written_keys.keys.len()
            invariant
                self.wf(),
                m == self@,
                m.active[txn_id] == meta@,
                !rw_conflict(m, txn_id),
                i <= meta.written_keys.keys@.len(),
                forall|j: int, o: TxnId|
                    0 <= j < i ==> !(#[trigger] other_writes(m, txn_id, o, meta.written_keys.keys@[j]@)),
                forall|j: int, o: TxnId|
                    0 <= j < i ==> !(#[trigger] other_reads(m, txn_id, o, meta.written_keys.keys@[j]@)),
            decreases meta.written_keys.keys@.len() - i,
        {
            let key = meta.written_keys.keys[i].as_slice();
            assert(meta.written_keys.keys@[i as int]@ == key@);
            assert(m.active[txn_id].writes.contains(key@));
            match self.other_reader(txn_id, key) {
                Some(o) => {
                    assert(other_touches(m, txn_id, o, key@));
                    assert(ww_conflict_on(m, txn_id, key@));
                    return Some((o, false));
                },
                None => {},
            }
            match self.other_writer(txn_id, key) {
                Some(o) => {
                    proof {
                        assert(other_touches(m, txn_id, o, key@));
                        assert(ww_conflict_on(m, txn_id, key@));
                    }
                    return Some((o, false));
                },
                None => {},
            }
            i = i + 1;
        }
        proof {
            assert(!ww_conflict(m, txn_id)) by {
                if ww_conflict(m, txn_id) {
                    let key = choose|key: Seq<u8>| #[trigger] ww_conflict_on(m, txn_id, key);
                    let o = choose|o: TxnId| #[trigger] other_touches(m, txn_id, o, key);
                    let j = choose|j: int|
                        0 <= j < meta.written_keys.keys@.len()
                            && #[trigger] meta.written_keys.keys@[j]@ == key;
                    assert(!other_writes(m, txn_id, o, meta.written_keys.keys@[j]@));
                    assert(!other_reads(m, txn_id, o, meta.written_keys.keys@[j]@));
                }
            }
        }
        None
    }

    /// Check whether a transaction can commit. One that conflicts with another
    /// active one is aborted.
    pub fn check_commit(&mut self, txn_id: TxnId) -> (r: Result<()>)
        requires
            old(self).wf(),
        ensures
            final(self).wf(),
            check_outcome(old(self)@, txn_id, r, final(self)@),
            final(self).clock == old(self).clock,
            r is Ok ==> *final(self) == *old(self),
    {
        if !self.active_txns.contains_key(&txn_id) {
            return Err(Z1Error::MvccConflict(txn_message(txn_id, " not active")));
        }
        match self.find_conflict(txn_id) {
            Some((o, rw)) => {
                self.abort_txn(txn_id);
                let mut m = copy_str("SSI conflict: txn ");
                push_decimal(&mut m, txn_id);
                m.append(" conflicts with active txn ");
                push_decimal(&mut m, o);
                if rw {
                    m.append(" (rw=true, ww=false)");
                } else {
                    m.append(" (rw=false, ww=true)");
                }
                proof {
                    assert(m@ == conflict_text(txn_id, o, rw));
                    if rw {
                        assert(rw_conflict(old(self)@, txn_id));
                    }
                }
                Err(Z1Error::MvccConflict(m))
            },
            None => Ok(()),
        }
    }

    /// Commit a transaction at given times: `commit_ts` is its commit
    /// timestamp, `now_ms` the time for the age-based eviction.
    ///
    /// Transactions may commit out of order; `committed_txn` never goes back.
    pub fn commit_txn_at(
        &mut self,
        txn_id: TxnId,
        inserted_at: u64,
        commit_ts: u64,
        now_ms: u64,
    ) -> (r: Result<TxnSnapshot>)
        requires
            old(self).wf(),
        ensures
            final(self).wf(),
            commit_outcome(
                old(self)@,
                txn_id,
                inserted_at,
                commit_ts,
                now_ms,
                r,
                final(self)@,
            ),
            final(self).clock == old(self).clock,
    {
        match self.check_commit(txn_id) {
            Ok(_) => {},
            Err(e) => {
                return Err(e);
            },
        }
        if txn_id > self.committed_txn {
            self.committed_txn = txn_id;
        }
        self.active_txns.remove(&txn_id);
        self.committed_history.insert(txn_id, (commit_ts, inserted_at));
        self.commit_seq = self.commit_seq.wrapping_add(1);
        self.committed_ts_shadow.insert(txn_id, commit_ts);
        proof {
            assert(self.committed_ts_shadow@ =~= commit_times(self.committed_history@));
            assert(self@.active =~= old(self)@.active.remove(txn_id));
            assert(self@ =~= entered(old(self)@, txn_id, commit_ts, inserted_at));
        }
        self.prune_history_at(now_ms);
        let snap = self.snapshot(IsolationLevel::Snapshot);
        Ok(snap)
    }

    /// Commit a transaction. The commit timestamp is taken from the clock, so
    /// it never falls below an earlier one.
    pub fn commit_txn(&mut self, txn_id: TxnId, inserted_at: u64) -> (r: Result<TxnSnapshot>)
        requires
            old(self).wf(),
        ensures
            final(self).wf(),
            exists|commit_ts: u64, now_ms: u64|
                old(self).clock.last_valid <= commit_ts <= now_ms <= final(self).clock.last_valid
                    && #[trigger] commit_outcome(
                    old(self)@,
                    txn_id,
                    inserted_at,
                    commit_ts,
                    now_ms,
                    r,
                    final(self)@,
                ),
    {
        let commit_ts: u64 = current_timestamp_millis(&mut self.clock);
        let now_ms: u64 = current_timestamp_millis(&mut self.clock);
        let r = self.commit_txn_at(txn_id, inserted_at, commit_ts, now_ms);
        proof {
            assert(commit_outcome(
                old(self)@,
                txn_id,
                inserted_at,
                commit_ts,
                now_ms,
                r,
                self@,
            ));
        }
        r
    }

    /// Remove a transaction from the active ones.
    fn abort_txn(&mut self, txn_id: TxnId)
        requires
            old(self).wf(),
        ensures
            final(self).wf(),
            final(self)@ == without_active(old(self)@, txn_id),
            final(self).clock == old(self).clock,
    {
        self.active_txns.remove(&txn_id);
        proof {
            assert(self@.active =~= old(self)@.active.remove(txn_id));
        }
    }

    /// Roll a transaction back: it is no longer active.
    pub fn rollback_txn(&mut self, txn_id: TxnId) -> (r: Result<()>)
        requires
            old(self).wf(),
        ensures
            final(self).wf(),
            r is Ok,
            final(self)@ == without_active(old(self)@, txn_id),
            final(self).clock == old(self).clock,
    {
        self.abort_txn(txn_id);
        Ok(())
    }

    /// Bound the committed history at a given time: by count first, then by
    /// age. Age goes by insertion time, since recovery can insert old commit
    /// timestamps late.
    pub fn prune_history_at(&mut self, now_ms: u64)
        requires
            old(self).wf(),
        ensures
            final(self).wf(),
            pruned(old(self)@, now_ms, final(self)@),
            final(self).clock == old(self).clock,
            // what is no older than the time-to-live stays, if it is not one too many
            old(self)@.history.len() <= old(self)@.config.max_history_entries ==> forall|t: TxnId|
                #[trigger]
                old(self)@.history.contains_key(t) && now_ms - old(self)@.history[t].1 <= old(
                    self,
                )@.config.history_ttl_secs * 1000 ==> final(self)@.history.contains_key(t),
    {
        let max: usize = self.config.max_history_entries;
        let ghost before = self@;
        if self.committed_history.len() > max {
            // max * 4 / 5 without overflow
            let keep: usize = max / 5 * 4 + max % 5 * 4 / 5;
            assert(keep == history_keep(max));
            evict_oldest(&mut self.committed_history, keep);
        }
        let ghost kept = self.committed_history@;
        assert(evicted_by_count(before.history, max, kept));
        let commits_since: u64 = self.commit_seq.wrapping_sub(self.last_ttl_check_seq);
        let since_ms: u64 = now_ms.saturating_sub(self.last_ttl_check_ms);
        if commits_since >= 256 || since_ms >= 1000 {
            self.last_ttl_check_seq = self.commit_seq;
            self.last_ttl_check_ms = now_ms;
            let ttl_ms: u64 = if self.config.history_ttl_secs > u64::MAX / 1000 {
                u64::MAX
            } else {
                self.config.history_ttl_secs * 1000
            };
            let cutoff: u64 = now_ms.saturating_sub(ttl_ms);
            evict_expired(&mut self.committed_history, cutoff);
        }
        self.committed_ts_shadow = collect_commits(&self.committed_history, u64::MAX);
        proof {
            assert(self.committed_ts_shadow@ =~= commit_times(self.committed_history@));
            assert(self@ =~= after_ttl(ManagerModel { history: kept, ..before }, now_ms));
            assert forall|t: TxnId| #[trigger]
                before.history.contains_key(t) && before.history.len()
                    <= before.config.max_history_entries && now_ms - before.history[t].1
                    <= before.config.history_ttl_secs * 1000 implies self@.history.contains_key(
                t,
            ) by {
                crate::mvcc::laws::law_retention_by_age(before, now_ms, self@, t);
            }
        }
    }

    /// Bound the committed history now.
    pub fn prune_history(&mut self, _commit_ts: u64)
        requires
            old(self).wf(),
        ensures
            final(self).wf(),
            exists|now_ms: u64|
                old(self).clock.last_valid <= now_ms <= final(self).clock.last_valid
                    && #[trigger] pruned(old(self)@, now_ms, final(self)@),
    {
        let now_ms: u64 = current_timestamp_millis(&mut self.clock);
        self.prune_history_at(now_ms);
        proof {
            assert(pruned(old(self)@, now_ms, self@));
        }
    }

    /// Take a snapshot with its commit timestamps.
    ///
    /// The snapshot id is the largest of the committed transaction ids and
    /// the commit timestamps, so that it covers every commit so far.
    pub fn snapshot_with_commit_ts_map(&self, isolation: IsolationLevel) -> (r: TxnSnapshot)
        ensures
            r@ == snapshot_of(self@, isolation),
            is_snapshot_id(self@, r.snapshot_id),
    {
        let ids = sorted_keys(&self.active_txns);
        let mut active: BTreeSet<TxnId> = BTreeSet::new();
        let mut i: usize = 0;
        while i < ids.len()
            invariant
                i <= ids@.len(),
                active@ == ids@.take(i as int).to_set(),
            decreases ids@.len() - i,
        {
            active.insert(ids[i]);
            proof {
                assert(ids@.take(i + 1) =~= ids@.take(i as int).push(ids@[i as int]));
                assert(ids@.take(i + 1).to_set() =~= ids@.take(i as int).to_set().insert(
                    ids@[i as int],
                )) by {
                    let a = ids@.take(i as int);
                    let b = ids@.take(i + 1);
                    assert forall|x: u64| b.contains(x) == (a.contains(x) || x == ids@[i as int]) by {
                        if a.contains(x) {
                            let k = choose|k: int| 0 <= k < a.len() && a[k] == x;
                            assert(b[k] == x);
                        }
                        if x == ids@[i as int] {
                            assert(b[i as int] == x);
                        }
                    }
                }
            }
            i = i + 1;
        }
        assert(ids@.take(i as int) =~= ids@);
        let snapshot_id: u64 = max_commit_ts(&self.committed_history, self.committed_txn);
        let commit_ts_map = collect_commits(&self.committed_history, snapshot_id);
        proof {
            assert(is_snapshot_id(self@, snapshot_id));
            lemma_snapshot_id_unique(self@, snapshot_id);
            assert(active@ =~= self@.active.dom());
        }
        let mut snap = TxnSnapshot::new(snapshot_id, active, isolation);
        snap.commit_ts_map = commit_ts_map;
        snap
    }

    /// Take a snapshot of the current state.
    pub fn snapshot(&self, isolation: IsolationLevel) -> (r: TxnSnapshot)
        ensures
            r@ == snapshot_of(self@, isolation),
            is_snapshot_id(self@, r.snapshot_id),
    {
        self.snapshot_with_commit_ts_map(isolation)
    }

    /// The snapshot of the state as of `txn_id`: the transactions that had
    /// begun by then are active, those committed by then are in the history.
    /// A transaction outside the retained history is missing and so invisible.
    pub fn snapshot_at(&self, txn_id: TxnId, isolation: IsolationLevel) -> (r: TxnSnapshot)
        ensures
            r@ == snapshot_as_of(self@, txn_id, isolation),
    {
        let ids = sorted_keys(&self.active_txns);
        let mut active: BTreeSet<TxnId> = BTreeSet::new();
        let mut i: usize = 0;
        while i < ids.len()
            invariant
                i <= ids@.len(),
                forall|k: u64| ids@.contains(k) <==> #[trigger] self.active_txns@.contains_key(k),
                forall|t: TxnId|
                    active@.contains(t) <==> (exists|j: int|
                        0 <= j < i && #[trigger] ids@[j] == t && self@.active[t].begin_ts
                            <= txn_id),
            decreases ids@.len() - i,
        {
            let t: TxnId = ids[i];
            assert(ids@.contains(t));
            let ghost before = active@;
            let begun: bool = match self.active_txns.get(&t) {
                Some(meta) => meta.begin_ts <= txn_id,
                None => false,
            };
            if begun {
                active.insert(t);
            }
            proof {
                assert forall|x: TxnId|
                    active@.contains(x) <==> (exists|j: int|
                        0 <= j < i + 1 && #[trigger] ids@[j] == x && self@.active[x].begin_ts
                            <= txn_id) by {
                    if before.contains(x) {
                        let j = choose|j: int|
                            0 <= j < i && #[trigger] ids@[j] == x && self@.active[x].begin_ts
                                <= txn_id;
                        assert(ids@[j] == x);
                    }
                    if x == t {
                        assert(ids@[i as int] == x);
                    }
                }
            }
            i = i + 1;
        }
        let commit_ts_map = collect_commits(&self.committed_history, txn_id);
        proof {
            let want = snapshot_as_of(self@, txn_id, isolation).active;
            assert forall|t: TxnId| active@.contains(t) == want.contains(t) by {
                if self.active_txns@.contains_key(t) {
                    assert(ids@.contains(t));
                    let j = choose|j: int| 0 <= j < ids@.len() && ids@[j] == t;
                    assert(ids@[j] == t);
                }
                if active@.contains(t) {
                    let j = choose|j: int|
                        0 <= j < i && #[trigger] ids@[j] == t && self@.active[t].begin_ts <= txn_id;
                    assert(ids@.contains(t));
                }
            }
            assert(active@ =~= want);
        }
        TxnSnapshot { snapshot_id: txn_id, active_txns: active, isolation, commit_ts_map }
    }

    /// The largest committed transaction id.
    pub fn committed_txn(&self) -> (r: TxnId)
        ensures
            r == self@.committed_txn,
    {
        self.committed_txn
    }

    /// The smallest begin timestamp among the active transactions, the safe
    /// watermark of GC; `u64::MAX` when nothing is active.
    pub fn oldest_active_begin_ts(&self) -> (r: TxnId)
        ensures
            is_oldest_begin(self@, r),
    {
        let ids = sorted_keys(&self.active_txns);
        let mut r: u64 = u64::MAX;
        let mut i: usize = 0;
        while i < ids.len()
            invariant
                i <= ids@.len(),
                forall|k: u64| ids@.contains(k) <==> #[trigger] self.active_txns@.contains_key(k),
                forall|j: int| 0 <= j < i ==> r <= self@.active[#[trigger] ids@[j]].begin_ts,
                r == u64::MAX || exists|t: TxnId| #[trigger]
                    self@.active.contains_key(t) && self@.active[t].begin_ts == r,
            decreases ids@.len() - i,
        {
            let t: TxnId = ids[i];
            assert(ids@.contains(t));
            match self.active_txns.get(&t) {
                Some(meta) => {
                    assert(self@.active.contains_key(t) && self@.active[t].begin_ts
                        == meta.begin_ts);
                    if meta.begin_ts < r {
                        r = meta.begin_ts;
                    }
                },
                None => {},
            }
            i = i + 1;
        }
        proof {
            assert forall|t: TxnId| #[trigger] self@.active.contains_key(t) implies r
                <= self@.active[t].begin_ts by {
                assert(self.active_txns@.contains_key(t));
                assert(ids@.contains(t));
                let j = choose|j: int| 0 <= j < ids@.len() && ids@[j] == t;
                assert(r <= self@.active[ids@[j]].begin_ts);
            }
        }
        r
    }

    /// The WAL replay watermark.
    pub fn replay_watermark(&self) -> (r: u64)
        ensures
            r == self@.replay_watermark,
    {
        self.replay_watermark
    }

    /// A transaction's (commit timestamp, insertion time).
    pub fn committed_entry(&self, txn_id: TxnId) -> (r: Option<(u64, u64)>)
        ensures
            r == (if self@.history.contains_key(txn_id) {
                Some(self@.history[txn_id])
            } else {
                None
            }),
    {
        match self.committed_history.get(&txn_id) {
            Some(v) => Some((v.0, v.1)),
            None => None,
        }
    }

    /// The begin timestamp of an active transaction.
    pub fn get_begin_ts(&self, txn_id: TxnId) -> (r: Option<u64>)
        ensures
            r == (if self@.active.contains_key(txn_id) {
                Some(self@.active[txn_id].begin_ts)
            } else {
                None
            }),
    {
        match self.active_txns.get(&txn_id) {
            Some(meta) => Some(meta.begin_ts),
            None => None,
        }
    }

    /// Recover the committed history from a list of (transaction, commit
    /// timestamp), with the current time as insertion time.
    pub fn recover_committed_history(&mut self, history: Vec<(TxnId, u64)>)
        requires
            old(self).wf(),
        ensures
            final(self).wf(),
            exists|now_ms: u64|
                old(self).clock.last_valid <= now_ms <= final(self).clock.last_valid && final(self)@ == #[trigger] recovered(
                    old(self)@,
                    history@,
                    None,
                    Map::<TxnId, u64>::empty(),
                    now_ms,
                ),
    {
        let none: HashMap<TxnId, u64> = HashMap::new();
        self.recover_committed_history_with_config(history, None, &none);
    }

    /// Recover the committed history. Entries take the insertion time that the
    /// WAL carries for them, others the current time. Nothing is pruned: the
    /// history converges with the next commit.
    pub fn recover_committed_history_with_config(
        &mut self,
        history: Vec<(TxnId, u64)>,
        config_override: Option<VisibilityConfig>,
        wal_inserted_at: &HashMap<TxnId, u64>,
    )
        requires
            old(self).wf(),
        ensures
            final(self).wf(),
            exists|now_ms: u64|
                old(self).clock.last_valid <= now_ms <= final(self).clock.last_valid && final(self)@ == #[trigger] recovered(
                    old(self)@,
                    history@,
                    config_override,
                    wal_inserted_at@,
                    now_ms,
                ),
    {
        let now: u64 = current_timestamp_millis(&mut self.clock);
        assert(self@ == old(self)@);
        self.recover_committed_history_at(history, config_override, wal_inserted_at, now);
    }

    /// Recover the committed history at a given time.
    pub fn recover_committed_history_at(
        &mut self,
        history: Vec<(TxnId, u64)>,
        config_override: Option<VisibilityConfig>,
        wal_inserted_at: &HashMap<TxnId, u64>,
        now_ms: u64,
    )
        requires
            old(self).wf(),
        ensures
            final(self).wf(),
            final(self)@ == recovered(
                old(self)@,
                history@,
                config_override,
                wal_inserted_at@,
                now_ms,
            ),
            final(self).clock == old(self).clock,
    {
        let ghost before = self@;
        let ghost active = self.active_txns@;
        if let Some(c) = config_override {
            self.config = c;
        }
        self.committed_history.clear();
        let ghost config = self.config;
        let ghost clock = self.clock;
        let mut i: usize = 0;
        assert(history@.take(0) =~= Seq::<(TxnId, u64)>::empty());
        while i < history.len()
            invariant
                i <= history@.len(),
                self.committed_history@ == recovered_history(
                    history@.take(i as int),
                    wal_inserted_at@,
                    now_ms,
                ),
                self.committed_txn == max_txn_of(history@.take(i as int), before.committed_txn),
                self.active_txns@ == active,
                self.config == config,
                self.clock == clock,
                self.replay_watermark == before.replay_watermark,
                self.commit_seq == before.commit_seq,
                self.last_ttl_check_seq == before.last_ttl_check_seq,
                self.last_ttl_check_ms == before.last_ttl_check_ms,
            decreases history@.len() - i,
        {
            let (t, commit_ts) = history[i];
            let inserted_at: u64 = match wal_inserted_at.get(&t) {
                Some(at) => *at,
                None => now_ms,
            };
            self.committed_history.insert(t, (commit_ts, inserted_at));
            if t > self.committed_txn {
                self.committed_txn = t;
            }
            assert(history@.take(i + 1).drop_last() =~= history@.take(i as int));
            i = i + 1;
        }
        assert(history@.take(i as int) =~= history@);
        self.committed_ts_shadow = collect_commits(&self.committed_history, u64::MAX);
        proof {
            assert(self.committed_ts_shadow@ =~= commit_times(self.committed_history@));
        }
    }

    /// The commit timestamp of a committed transaction.
    pub fn get_commit_ts(&self, txn_id: TxnId) -> (r: Option<u64>)
        ensures
            r == (if self@.history.contains_key(txn_id) {
                Some(self@.history[txn_id].0)
            } else {
                None
            }),
    {
        match self.committed_history.get(&txn_id) {
            Some(v) => Some(v.0),
            None => None,
        }
    }

    /// The committed history as (transaction, commit timestamp), ascending by
    /// transaction.
    pub fn committed_history_entries(&self) -> (r: Vec<(TxnId, u64)>)
        ensures
            lists_history(self@.history, r@),
    {
        let ids = sorted_keys(&self.committed_history);
        let mut out: Vec<(TxnId, u64)> = Vec::new();
        let mut i: usize = 0;
        while i < ids.len()
            invariant
                i <= ids@.len(),
                out@.len() == i,
                ids@.len() == self.committed_history@.len(),
                crate::maps::strictly_ascending(ids@),
                forall|k: u64|
                    ids@.contains(k) <==> #[trigger] self.committed_history@.contains_key(k),
                forall|j: int|
                    0 <= j < i ==> (#[trigger] out@[j]).0 == ids@[j] && out@[j].1
                        == self.committed_history@[ids@[j]].0,
            decreases ids@.len() - i,
        {
            let t: TxnId = ids[i];
            assert(ids@.contains(t));
            match self.committed_history.get(&t) {
                Some(v) => {
                    out.push((t, v.0));
                },
                None => {
                    assert(false);
                },
            }
            i = i + 1;
        }
        proof {
            assert forall|j: int| 0 <= j < out@.len() implies self@.history.contains_key(
                (#[trigger] out@[j]).0,
            ) && self@.history[out@[j].0].0 == out@[j].1 by {
                assert(ids@.contains(ids@[j]));
            }
        }
        out
    }

    /// Whether a row is visible in a snapshot.
    pub fn is_visible(
        &self,
        snapshot: &TxnSnapshot,
        created_txn: TxnId,
        deleted_txn: Option<TxnId>,
    ) -> (r: bool)
        ensures
            r == row_visible(
                snapshot@.snapshot_id,
                created_txn,
                deleted_txn,
                snapshot@.active,
                snapshot@.commits,
            ),
    {
        self.is_row_visible(
            snapshot.snapshot_id,
            created_txn,
            deleted_txn,
            &snapshot.active_txns,
            &snapshot.commit_ts_map,
        )
    }
}

impl Default for VisibilityManager {
    fn default() -> (r: Self)
        ensures
            r.wf(),
            r@ == fresh_manager(r.config),
            r.config.max_history_entries == 100_000,
            r.config.history_ttl_secs == 3600,
    {
        Self::new()
    }
}

/// A manager without transactions.
pub open spec fn fresh_manager(config: VisibilityConfig) -> ManagerModel {
    ManagerModel {
        committed_txn: 0,
        replay_watermark: 0,
        active: Map::empty(),
        history: Map::empty(),
        commit_seq: 0,
        last_ttl_check_seq: 0,
        last_ttl_check_ms: 0,
        config,
    }
}

/// What registering `t` does.
pub open spec fn begin_outcome(
    before: ManagerModel,
    t: TxnId,
    r: Result<()>,
    after: ManagerModel,
) -> bool {
    if before.active.contains_key(t) {
        &&& r matches Err(Z1Error::MvccConflict(m)) && m@ == txn_text(t, " already active"@)
        &&& after == before
    } else if t <= before.committed_txn {
        &&& r matches Err(Z1Error::MvccConflict(m)) && m@ == txn_text(t, " already committed"@)
        &&& after == before
    } else {
        &&& r is Ok
        &&& after == (ManagerModel { active: before.active.insert(t, fresh_meta(t)), ..before })
    }
}

/// The manager with a read of an active transaction recorded.
pub open spec fn with_read(m: ManagerModel, t: TxnId, key: Seq<u8>) -> ManagerModel {
    if m.active.contains_key(t) {
        let meta = m.active[t];
        ManagerModel {
            active: m.active.insert(t, MetaModel { reads: meta.reads.insert(key), ..meta }),
            ..m
        }
    } else {
        m
    }
}

/// The manager with a write of an active transaction recorded.
pub open spec fn with_write(m: ManagerModel, t: TxnId, key: Seq<u8>) -> ManagerModel {
    if m.active.contains_key(t) {
        let meta = m.active[t];
        ManagerModel {
            active: m.active.insert(t, MetaModel { writes: meta.writes.insert(key), ..meta }),
            ..m
        }
    } else {
        m
    }
}

/// `ts` is the smallest begin timestamp of an active transaction, or
/// `u64::MAX` when nothing is active.
pub open spec fn is_oldest_begin(m: ManagerModel, ts: u64) -> bool {
    &&& forall|t: TxnId| #[trigger] m.active.contains_key(t) ==> ts <= m.active[t].begin_ts
    &&& ts == u64::MAX || exists|t: TxnId| #[trigger]
        m.active.contains_key(t) && m.active[t].begin_ts == ts
}

/// `list` holds the commit timestamps of a history, ascending by transaction.
pub open spec fn lists_history(h: Map<TxnId, (u64, u64)>, list: Seq<(TxnId, u64)>) -> bool {
    &&& list.len() == h.len()
    &&& forall|i: int, j: int| 0 <= i < j < list.len() ==> (#[trigger] list[i]).0 < (#[trigger] list[j]).0
    &&& forall|i: int|
        0 <= i < list.len() ==> h.contains_key((#[trigger] list[i]).0) && h[list[i].0].0 == list[i].1
}

} // verus!
