//! The engine: multi-version concurrency control, the WAL and the three
//! storage layers behind one interface.
//!
//! The engine decides and keeps all state in memory; the caller performs what
//! touches files. An operation that logs returns a plan for the WAL; a read
//! that needs a patch file says which, and is repeated once the file was
//! handed in.
//!
//! A commit has three steps:
//!
//! 1. [`Z1Kv::commit`] checks for conflicts, and returns the plan that makes
//!    the commit record durable
//! 2. the caller performs it: from here on the transaction counts as
//!    committed for recovery
//! 3. [`Z1Kv::finish_commit`] enters the transaction in the history, and
//!    invalidates the snapshot cache
//!
//! A write is logged before it goes to memory: [`Z1Kv::put`] returns the plan
//! and the version, and [`Z1Kv::apply_write`] takes the version in.

use crate::bytes::{copy_bytes, push_bytes};
use crate::codec::payload::vec_model;
use crate::codec::timestamp::current_timestamp_millis;
use crate::config::Z1Config;
use crate::error::{concat2, Result, Z1Error};
use crate::maps::{sorted_keys, sorted_members, to_hash_set};
use crate::metrics::DegradeCounts;
use crate::mvcc::cache::{cached, fresh_for, is_invalidated, SnapshotCache};
use crate::mvcc::laws::{law_check_is_exact, law_snapshot_covers_history};
use crate::mvcc::visibility::{
    after_ttl, begin_outcome, check_outcome, commit_outcome, entered, evicted_by_count,
    lists_history, pruned, recovered, recovered_history, recovered_time, snapshot_of, with_read,
    with_write, without_active, IsolationLevel, ManagerModel, SnapshotModel, TxnSnapshot,
    VisibilityManager,
};
use crate::store::config::SyncLevel;
use crate::store::disk::{
    holds_patch, is_max_patch, is_top_txn, loaded, missing, others_unchanged, patch_list, readable,
    reports_patch, unlisted, versions_in, DiskLayer, FileRead, KeySpan, LayerRead,
};
use crate::store::flush::{first_free_patch_id, is_first_free_patch, FlushEngine};
use crate::store::mem::{estimated, l1_versions, MemStore};
use crate::store::recent_flush_cache::RecentFlushCache;
use crate::store::select::{
    collect_key, collect_range, end_model, kept, last_newest, last_newest_index, lemma_kept_concat,
    list_model, newest_listed, newest_per_key, sight_of, Pick, Span,
};
use crate::store::types::{entry_models, EntryModel, KeyModel, PatchModel, Z1Entry, Z1Key};
use crate::store::version_map::{all_upserted, upserted};
use crate::text::{copy_str, decimal};
use crate::txn::protocol::{effect_of, runs, CommitApplier, CommitProtocol, Effect, PendingOp};
use crate::wal::checkpoint::CheckpointState;
use crate::wal::record::{
    raw_len, reports, wal_models, RecordModel, WalEntry, WalModel, WalRecord, MAX_WAL_RECORD_LEN,
};
use crate::wal::recovery::{
    lost_model, puts_model, recover_records, recovers, restored, RecoveryResult, ReplayError,
    ReplayErrorKind,
};
use crate::wal::replay::{joined, replay_all, replayed, seg_models, segments_hold};
use crate::wal::writer::{
    after_action, plan_is, planned, with_sync, GroupCommitConfig, SyncPolicy, WalAction, WalConfig,
    WalPlan, WalWriter,
};
use crate::TxnId;
use std::collections::{BTreeMap, HashMap};
use vstd::prelude::*;

verus! {

broadcast use {
    vstd::std_specs::btree::group_btree_axioms,
    vstd::std_specs::hash::group_hash_axioms,
    vstd::laws_cmp::group_laws_cmp,
};

/// How often a transaction id that turns out to be taken is replaced by the
/// next one.
pub const BEGIN_RETRY: usize = 16;

/// Size of the hot buffer from which it is flushed.
pub const FLUSH_THRESHOLD: usize = 64 * 1024 * 1024;

/// A disk layer.
#[derive(Debug, Clone, Copy, PartialEq, Eq, Structural)]
pub enum Layer {
    L2,
    L3,
}

/// The result of a read.
#[derive(Debug)]
pub enum Read<T> {
    Done(T),
    /// The patch file of this name is needed first.
    Need { layer: Layer, cf: u16, name: String },
}

/// A write that is to be logged and then applied.
#[derive(Debug)]
pub struct WritePlan {
    pub entry: Z1Entry,
    pub actions: Vec<WalAction>,
}

/// A commit whose record is to be made durable.
#[derive(Debug)]
pub struct CommitTicket {
    pub txn_id: TxnId,
    pub inserted_at: u64,
    pub plan: WalPlan,
}

/// The Z1Kv engine.
#[derive(Debug)]
pub struct Z1Kv {
    pub data_dir: String,
    pub config: Z1Config,
    pub wal: WalWriter,
    pub mvcc: VisibilityManager,
    pub snapshot_cache: SnapshotCache,
    /// The snapshot of every active transaction, taken when it began.
    pub txn_snapshots: BTreeMap<TxnId, TxnSnapshot>,
    pub store: FlushEngine,
    /// The next transaction id.
    pub txn_counter: u64,
}

/// The two bytes of a column family, most significant first.
pub open spec fn be_u16(cf: u16) -> Seq<u8> {
    seq![(cf / 256) as u8, (cf % 256) as u8]
}

/// The key by which transactions conflict.
pub open spec fn conflict_bytes(cf: u16, key: Seq<u8>) -> Seq<u8> {
    be_u16(cf) + key
}

/// The key by which transactions conflict: column family and key. Only the
/// same key of the same column family conflicts.
pub fn conflict_key(cf: u16, key: &[u8]) -> (r: Vec<u8>)
    ensures
        r@ == conflict_bytes(cf, key@),
{
    let mut out: Vec<u8> = Vec::new();
    out.push((cf / 256) as u8);
    out.push((cf % 256) as u8);
    assert(out@ =~= be_u16(cf));
    push_bytes(&mut out, key);
    out
}

/// What a snapshot sees of these keys, in the order in which the layers are
/// asked: L1, the recent-flush cache, L2, L3.
pub open spec fn candidates(
    st: FlushEngine,
    snap: SnapshotModel,
    cf: u16,
    span: Span,
) -> Seq<EntryModel> {
    let p = Pick { cf, span, sight: Some(sight_of(snap)) };
    kept(l1_versions(st.l1), p) + kept(st.recent_flush.cache@, p) + kept(
        versions_in(cf, patch_list(st.l2, cf), span),
        p,
    ) + kept(versions_in(cf, patch_list(st.l3, cf), span), p)
}

/// The patch file that a read needs first.
pub open spec fn needed(st: FlushEngine, cf: u16, span: Span) -> Option<(Layer, Seq<char>)> {
    match missing(patch_list(st.l2, cf), span) {
        Some(name) => Some((Layer::L2, name)),
        None => match missing(patch_list(st.l3, cf), span) {
            Some(name) => Some((Layer::L3, name)),
            None => None,
        },
    }
}

/// The value that a point read finds: that of the newest version seen; a
/// tombstone has none.
pub open spec fn read_value(c: Seq<EntryModel>) -> Option<Seq<u8>> {
    match last_newest(c) {
        Some(e) => e.value,
        None => None,
    }
}

/// The keys with a value, in order.
pub open spec fn live(list: Seq<(Seq<u8>, EntryModel)>) -> Seq<(Seq<u8>, Seq<u8>)>
    decreases list.len(),
{
    if list.len() == 0 {
        Seq::empty()
    } else {
        match list.last().1.value {
            Some(v) => live(list.drop_last()).push((list.last().0, v)),
            None => live(list.drop_last()),
        }
    }
}

/// `pairs` is what a scan finds: every key with the value of its newest
/// version seen, ascending, deleted keys left out.
pub open spec fn scanned(c: Seq<EntryModel>, pairs: Seq<(Seq<u8>, Seq<u8>)>) -> bool {
    exists|list: Seq<(Seq<u8>, EntryModel)>| #[trigger] newest_listed(c, list) && pairs == live(list)
}

pub open spec fn pairs_model(pairs: Seq<(Vec<u8>, Vec<u8>)>) -> Seq<(Seq<u8>, Seq<u8>)> {
    pairs.map_values(|p: (Vec<u8>, Vec<u8>)| (p.0@, p.1@))
}

/// What beginning a transaction comes to.
pub enum Begun {
    Started(TxnId),
    /// The transaction ids are used up.
    Overflow,
    /// The id is that of an active transaction.
    Active(TxnId),
    /// The id is not above the committed ones.
    Committed(TxnId),
}

/// Begin with the next id; one that is not above the committed ones is
/// replaced by the next, as often as tries are left. Also the counter after.
pub open spec fn begun(m: ManagerModel, counter: u64, tries: nat) -> (Begun, u64)
    decreases tries,
{
    if counter == u64::MAX {
        (Begun::Overflow, counter)
    } else {
        let next = (counter + 1) as u64;
        if m.active.contains_key(counter) {
            (Begun::Active(counter), next)
        } else if counter > m.committed_txn {
            (Begun::Started(counter), next)
        } else if tries <= 1 {
            (Begun::Committed(counter), next)
        } else {
            begun(m, next, (tries - 1) as nat)
        }
    }
}

/// A checkpoint history and what the WAL adds to it: the WAL counts.
pub open spec fn merged_history(
    base: Seq<(TxnId, u64)>,
    wal: Map<TxnId, u64>,
) -> Map<TxnId, u64> {
    listed_map(base).union_prefer_right(wal)
}

/// A list of pairs as a map; a later pair replaces an earlier one.
pub open spec fn listed_map(list: Seq<(TxnId, u64)>) -> Map<TxnId, u64>
    decreases list.len(),
{
    if list.len() == 0 {
        Map::empty()
    } else {
        listed_map(list.drop_last()).insert(list.last().0, list.last().1)
    }
}

pub open spec fn larger(a: u64, b: u64) -> u64 {
    if a >= b {
        a
    } else {
        b
    }
}

/// The version that a replayed write stands for.
pub open spec fn replayed_version(put: (TxnId, RecordModel)) -> EntryModel {
    match put.1 {
        RecordModel::Put { cf, key, value } => EntryModel {
            key: KeyModel { cf, key },
            txn_id: put.0,
            value,
            ts: 0,
        },
        _ => EntryModel {
            key: KeyModel { cf: 0, key: Seq::empty() },
            txn_id: put.0,
            value: None,
            ts: 0,
        },
    }
}

pub open spec fn replayed_versions(puts: Seq<(TxnId, RecordModel)>) -> Seq<EntryModel> {
    puts.map_values(|p: (TxnId, RecordModel)| replayed_version(p))
}

impl CommitApplier for Z1Kv {
    open spec fn ready(&self) -> bool {
        self.mvcc.wf() && self.store.wf()
    }

    open spec fn applied(before: Self, op: Effect, r: Result<()>, after: Self) -> bool {
        match op {
            Effect::MvccCommit { txn_id, inserted_at } => {
                &&& committed(before.mvcc, txn_id, inserted_at, r, after.mvcc)
                &&& r is Ok ==> after.snapshot_cache == before.snapshot_cache
                &&& r is Err ==> is_invalidated(before.snapshot_cache, after.snapshot_cache)
                &&& after == (Z1Kv {
                    mvcc: after.mvcc,
                    snapshot_cache: after.snapshot_cache,
                    ..before
                })
            },
            Effect::SnapshotInvalidate => {
                &&& r is Ok
                &&& is_invalidated(before.snapshot_cache, after.snapshot_cache)
                &&& after == (Z1Kv { snapshot_cache: after.snapshot_cache, ..before })
            },
            _ => r is Ok && after == before,
        }
    }

    /// Enter the transaction in the history, unless it conflicts.
    fn apply_mvcc_commit(&mut self, txn_id: TxnId, inserted_at: u64) -> (r: Result<()>) {
        let ghost before = self.mvcc;
        let got = self.mvcc.commit_txn(txn_id, inserted_at);
        match got {
            Ok(s) => {
                let r: Result<()> = Ok(());
                proof {
                    let (commit_ts, now_ms) = choose|commit_ts: u64, now_ms: u64|
                        before.clock.last_valid <= commit_ts <= now_ms
                            <= self.mvcc.clock.last_valid && #[trigger] commit_outcome(
                            before@,
                            txn_id,
                            inserted_at,
                            commit_ts,
                            now_ms,
                            got,
                            self.mvcc@,
                        );
                    assert(commit_went(
                        before,
                        txn_id,
                        inserted_at,
                        commit_ts,
                        now_ms,
                        got,
                        self.mvcc,
                    ));
                    assert(committed(before, txn_id, inserted_at, r, self.mvcc));
                }
                r
            },
            Err(e) => {
                self.snapshot_cache.invalidate();
                let r: Result<()> = Err(e);
                proof {
                    let (commit_ts, now_ms) = choose|commit_ts: u64, now_ms: u64|
                        before.clock.last_valid <= commit_ts <= now_ms
                            <= self.mvcc.clock.last_valid && #[trigger] commit_outcome(
                            before@,
                            txn_id,
                            inserted_at,
                            commit_ts,
                            now_ms,
                            got,
                            self.mvcc@,
                        );
                    assert(commit_went(
                        before,
                        txn_id,
                        inserted_at,
                        commit_ts,
                        now_ms,
                        got,
                        self.mvcc,
                    ));
                    assert(committed(before, txn_id, inserted_at, r, self.mvcc));
                }
                r
            },
        }
    }

    /// The WAL commit record carries the committed transaction.
    fn apply_put_committed_txn(&mut self, _counter: u64) -> (r: Result<()>) {
        Ok(())
    }

    /// The WAL commit record carries the commit timestamp.
    fn apply_commit_txn_record(&mut self, _txn_id: u64, _commit_ts: u64) -> (r: Result<()>) {
        Ok(())
    }

    fn apply_snapshot_invalidate(&mut self) -> (r: Result<()>) {
        self.snapshot_cache.invalidate();
        Ok(())
    }
}

/// A commit at these times, with this result.
pub open spec fn commit_went(
    before: VisibilityManager,
    txn_id: TxnId,
    inserted_at: u64,
    commit_ts: u64,
    now_ms: u64,
    got: Result<TxnSnapshot>,
    after: VisibilityManager,
) -> bool {
    &&& before.clock.last_valid <= commit_ts <= now_ms <= after.clock.last_valid
    &&& commit_outcome(before@, txn_id, inserted_at, commit_ts, now_ms, got, after@)
}

/// What committing a transaction in the manager comes to, at some times that
/// the clock gives.
pub open spec fn committed(
    before: VisibilityManager,
    txn_id: TxnId,
    inserted_at: u64,
    r: Result<()>,
    after: VisibilityManager,
) -> bool {
    exists|commit_ts: u64, now_ms: u64, got: Result<TxnSnapshot>|
        #[trigger] commit_went(before, txn_id, inserted_at, commit_ts, now_ms, got, after)
            && match (r, got) {
            (Ok(_), Ok(_)) => true,
            (Err(a), Err(b)) => a == b,
            _ => false,
        }
}

/// Pruning changes nothing but the history and the record of evictions.
proof fn lemma_pruned_frame(before: ManagerModel, now_ms: u64, after: ManagerModel)
    requires
        pruned(before, now_ms, after),
    ensures
        after.active == before.active,
        after.committed_txn == before.committed_txn,
        forall|u: TxnId| #[trigger] after.history.contains_key(u) ==> before.history.contains_key(u),
{
    let kept_history = choose|k: Map<TxnId, (u64, u64)>| #[trigger]
        evicted_by_count(before.history, before.config.max_history_entries, k) && after
            == after_ttl(ManagerModel { history: k, ..before }, now_ms);
}

/// A commit, whatever it comes to, takes the transaction from the active
/// ones and leaves the others alone.
pub proof fn lemma_commit_frame(
    before: VisibilityManager,
    txn_id: TxnId,
    inserted_at: u64,
    r: Result<()>,
    after: VisibilityManager,
)
    requires
        committed(before, txn_id, inserted_at, r, after),
    ensures
        after@.active.dom() == before@.active.dom().remove(txn_id),
        forall|u: TxnId| #[trigger]
            after@.history.contains_key(u) ==> before@.history.contains_key(u) || (u == txn_id
                && before@.active.contains_key(u)),
        after@.committed_txn >= before@.committed_txn,
        after@.history.contains_key(txn_id) ==> before@.history.contains_key(txn_id) || txn_id
            <= after@.committed_txn,
{
    let (commit_ts, now_ms, got) = choose|commit_ts: u64, now_ms: u64, got: Result<TxnSnapshot>|
        #[trigger] commit_went(before, txn_id, inserted_at, commit_ts, now_ms, got, after)
            && match (r, got) {
            (Ok(_), Ok(_)) => true,
            (Err(a), Err(b)) => a == b,
            _ => false,
        };
    if got is Ok {
        lemma_pruned_frame(entered(before@, txn_id, commit_ts, inserted_at), now_ms, after@);
    }
    assert(after@.active.dom() =~= before@.active.dom().remove(txn_id));
}

/// The first error of a plan, if it has one.
fn plan_result(plan: WalPlan) -> (r: Result<Vec<WalAction>>)
    ensures
        match r {
            Ok(actions) => plan.error is None && actions == plan.actions,
            Err(e) => plan.error == Some(e),
        },
{
    match plan.error {
        Some(e) => Err(e),
        None => Ok(plan.actions),
    }
}

/// `w` is the smallest transaction that is active, or was when one of the
/// active ones took its snapshot.
pub open spec fn is_gc_watermark(
    active: Set<TxnId>,
    snaps: Map<TxnId, TxnSnapshot>,
    w: TxnId,
) -> bool {
    &&& forall|t: TxnId| #[trigger] active.contains(t) ==> w <= t
    &&& forall|t: TxnId, u: TxnId|
        active.contains(t) && #[trigger] snaps[t]@.active.contains(u) ==> w <= u
    &&& w == u64::MAX || active.contains(w) || exists|t: TxnId|
        active.contains(t) && (#[trigger] snaps[t])@.active.contains(w)
}

/// Transaction ids ascend, and what a pinned snapshot does not see of the
/// committed transactions was active when it was taken, or began later.
pub open spec fn pins_hold(
    m: ManagerModel,
    snaps: Map<TxnId, TxnSnapshot>,
    counter: u64,
) -> bool {
    &&& forall|t: TxnId| #[trigger] m.active.contains_key(t) ==> t < counter
    &&& forall|t: TxnId, u: TxnId| #[trigger]
        m.active.contains_key(t) && #[trigger] m.active.contains_key(u)
            ==> snaps[t]@.active.contains(u) || t < u
    &&& forall|t: TxnId, u: TxnId| #[trigger]
        m.active.contains_key(t) && #[trigger] m.history.contains_key(u) ==> snaps[t]@.sees(u)
            || snaps[t]@.active.contains(u) || t < u
    &&& forall|u: TxnId| #[trigger] m.history.contains_key(u) ==> u <= m.committed_txn
}

/// Pinned snapshots keep what they see while transactions end.
proof fn lemma_pins_stay(
    before: ManagerModel,
    snaps0: Map<TxnId, TxnSnapshot>,
    counter0: u64,
    after: ManagerModel,
    snaps1: Map<TxnId, TxnSnapshot>,
    counter1: u64,
)
    requires
        pins_hold(before, snaps0, counter0),
        counter0 <= counter1,
        forall|t: TxnId| #[trigger]
            after.active.contains_key(t) ==> before.active.contains_key(t) && snaps1[t]
                == snaps0[t],
        forall|u: TxnId| #[trigger]
            after.history.contains_key(u) ==> (before.history.contains_key(u)
                || before.active.contains_key(u)) && u <= after.committed_txn,
    ensures
        pins_hold(after, snaps1, counter1),
{
    assert forall|t: TxnId, u: TxnId| #[trigger]
        after.active.contains_key(t) && #[trigger] after.history.contains_key(u) implies
        snaps1[t]@.sees(u) || snaps1[t]@.active.contains(u) || t < u by {
        assert(before.active.contains_key(t));
        if before.history.contains_key(u) {
        } else {
            assert(before.active.contains_key(u));
        }
    }
}

/// A transaction that begins pins a snapshot of all that has committed.
proof fn lemma_pins_begin(
    before: ManagerModel,
    snaps0: Map<TxnId, TxnSnapshot>,
    counter0: u64,
    id: TxnId,
    after: ManagerModel,
    snap: TxnSnapshot,
    counter1: u64,
)
    requires
        pins_hold(before, snaps0, counter0),
        before.history.dom().finite(),
        counter0 <= id < counter1,
        after == (ManagerModel { active: after.active, ..before }),
        after.active.dom() == before.active.dom().insert(id),
        snap@ == snapshot_of(after, IsolationLevel::Snapshot),
    ensures
        pins_hold(after, snaps0.insert(id, snap), counter1),
{
    let snaps1 = snaps0.insert(id, snap);
    assert forall|t: TxnId| #[trigger] after.active.contains_key(t) implies t == id
        || before.active.contains_key(t) by {
        assert(after.active.dom().contains(t));
    }
    assert forall|t: TxnId, u: TxnId| #[trigger]
        after.active.contains_key(t) && #[trigger] after.active.contains_key(u) implies
        snaps1[t]@.active.contains(u) || t < u by {
        if t == id {
            assert(after.active.dom().contains(u));
        } else if u == id {
            assert(before.active.contains_key(t));
        } else {
            assert(before.active.contains_key(t) && before.active.contains_key(u));
        }
    }
    assert forall|t: TxnId, u: TxnId| #[trigger]
        after.active.contains_key(t) && #[trigger] after.history.contains_key(u) implies
        snaps1[t]@.sees(u) || snaps1[t]@.active.contains(u) || t < u by {
        if t == id {
            if after.active.contains_key(u) {
                assert(after.active.dom().contains(u));
            } else {
                law_snapshot_covers_history(after, IsolationLevel::Snapshot, u);
            }
        } else {
            assert(before.active.contains_key(t));
        }
    }
}

/// A write of `txn` to this key, with its clock reading.
pub open spec fn write_entry(
    cf: u16,
    key: Seq<u8>,
    value: Option<Seq<u8>>,
    txn_id: TxnId,
    ms: u64,
) -> EntryModel {
    EntryModel { key: KeyModel { cf, key }, txn_id, value, ts: ms as i64 }
}

/// What a write comes to: an unknown transaction is refused; otherwise the
/// key enters its write set, and the record is planned for the WAL, unless it
/// is too large for it.
pub open spec fn write_outcome(
    before: Z1Kv,
    cf: u16,
    key: Seq<u8>,
    value: Option<Seq<u8>>,
    txn_id: TxnId,
    r: Result<WritePlan>,
    after: Z1Kv,
) -> bool {
    if !before.mvcc@.active.contains_key(txn_id) {
        r matches Err(Z1Error::TxnNotFound(t)) && t == txn_id && after == before
    } else {
        let plan = planned(
            before.wal.cursor,
            before.wal.config.max_file_size,
            before.wal.config.write_through,
            seq![
                WalModel { txn_id, record: RecordModel::Put { cf, key, value } },
            ],
        );
        &&& after.mvcc@ == with_write(before.mvcc@, txn_id, conflict_bytes(cf, key))
        &&& after == (Z1Kv { mvcc: after.mvcc, ..before })
        &&& after.mvcc.clock.last_valid >= before.mvcc.clock.last_valid
        &&& match r {
            Ok(w) => {
                &&& plan_is(WalPlan { actions: w.actions, error: None }, plan)
                &&& w.entry@ == write_entry(cf, key, value, txn_id, after.mvcc.clock.last_valid)
            },
            Err(e) => {
                &&& plan.stop is Some
                &&& exists|p: WalPlan| #[trigger] plan_is(p, plan) && p.error == Some(e)
            },
        }
    }
}

/// Transaction ids only go up, what has ended is never active again, and an
/// active transaction keeps its pinned snapshot and every key that it has read
/// or written.
pub open spec fn goes_on(before: Z1Kv, after: Z1Kv) -> bool {
    &&& before.txn_counter <= after.txn_counter
    &&& forall|t: TxnId| #[trigger]
        after.mvcc@.active.contains_key(t) && t < before.txn_counter
            ==> before.mvcc@.active.contains_key(t) && after.txn_snapshots@[t]
            == before.txn_snapshots@[t] && before.mvcc@.active[t].reads.subset_of(
            after.mvcc@.active[t].reads,
        ) && before.mvcc@.active[t].writes.subset_of(after.mvcc@.active[t].writes)
}

/// What beginning to commit comes to: an unknown transaction is refused, one
/// that conflicts is aborted, and otherwise the commit record is planned for
/// the WAL.
pub open spec fn commit_begun(
    before: Z1Kv,
    txn_id: TxnId,
    r: Result<CommitTicket>,
    after: Z1Kv,
) -> bool {
    match r {
        Ok(t) => {
            &&& before.mvcc@.active.contains_key(txn_id)
            &&& check_outcome(
                before.mvcc@,
                txn_id,
                Ok::<(), Z1Error>(()),
                before.mvcc@,
            )
            &&& t.txn_id == txn_id
            &&& t.inserted_at >= before.mvcc.clock.last_valid
            &&& t.inserted_at == after.mvcc.clock.last_valid
            &&& plan_is(
                t.plan,
                with_sync(
                    planned(
                        before.wal.cursor,
                        before.wal.config.max_file_size,
                        before.wal.config.write_through,
                        seq![
                            WalModel {
                                txn_id,
                                record: RecordModel::Commit {
                                    commit_ts: txn_id,
                                    inserted_at: t.inserted_at,
                                },
                            },
                        ],
                    ),
                    before.wal.config.write_through,
                ),
            )
            &&& after.mvcc@ == before.mvcc@
            &&& after == (Z1Kv { mvcc: after.mvcc, wal: after.wal, ..before })
            &&& after.wal.cursor == before.wal.cursor
            &&& after.wal.config == before.wal.config
            &&& after.wal.queue == before.wal.queue
        },
        Err(e) => if before.mvcc@.active.contains_key(txn_id) {
            &&& check_outcome(
                before.mvcc@,
                txn_id,
                Err::<(), Z1Error>(e),
                after.mvcc@,
            )
            &&& after.txn_snapshots@ == before.txn_snapshots@.remove(txn_id)
            &&& after.mvcc.clock == before.mvcc.clock
            &&& is_invalidated(before.snapshot_cache, after.snapshot_cache)
            &&& after == (Z1Kv {
                mvcc: after.mvcc,
                snapshot_cache: after.snapshot_cache,
                txn_snapshots: after.txn_snapshots,
                ..before
            })
        } else {
            after == before && (e matches Z1Error::TxnNotFound(t) && t == txn_id)
        },
    }
}

/// What beginning to roll back comes to: an unknown transaction is refused, and
/// otherwise the record is planned for the WAL.
pub open spec fn rollback_begun(
    before: Z1Kv,
    txn_id: TxnId,
    r: Result<WalPlan>,
    after: Z1Kv,
) -> bool {
    match r {
        Ok(plan) => {
            &&& before.mvcc@.active.contains_key(txn_id)
            &&& plan_is(
                plan,
                planned(
                    before.wal.cursor,
                    before.wal.config.max_file_size,
                    before.wal.config.write_through,
                    seq![WalModel { txn_id, record: RecordModel::Rollback }],
                ),
            )
            &&& is_invalidated(before.snapshot_cache, after.snapshot_cache)
            &&& after == (Z1Kv {
                snapshot_cache: after.snapshot_cache,
                ..before
            })
        },
        Err(e) => !before.mvcc@.active.contains_key(txn_id) && after
            == before && (e matches Z1Error::TxnNotFound(t) && t == txn_id),
    }
}

/// What a read within a transaction comes to: an unknown transaction is
/// refused; otherwise the key is read as of the pinned snapshot, and enters
/// the read set.
pub open spec fn read_in_txn(
    before: Z1Kv,
    cf: u16,
    key: Seq<u8>,
    txn_id: TxnId,
    r: Result<Read<Option<Vec<u8>>>>,
    after: Z1Kv,
) -> bool {
    match r {
        Ok(read) => {
            &&& before.mvcc@.active.contains_key(txn_id)
            &&& reads_key(
                before.store,
                before.txn_snapshots@[txn_id]@,
                cf,
                key,
                read,
            )
            &&& after.mvcc@ == with_read(
                before.mvcc@,
                txn_id,
                conflict_bytes(cf, key),
            )
            &&& after.mvcc.clock == before.mvcc.clock
            &&& after == (Z1Kv { mvcc: after.mvcc, ..before })
        },
        Err(e) => !before.mvcc@.active.contains_key(txn_id) && after
            == before && (e matches Z1Error::TxnNotFound(t) && t == txn_id),
    }
}

impl Z1Kv {
    /// Every active transaction has its pinned snapshot, which sees all that
    /// had committed when it was taken; the cached snapshot is up to date, and
    /// writes are logged without syncing.
    pub open spec fn wf(&self) -> bool {
        &&& self.mvcc.wf()
        &&& self.store.wf()
        &&& self.txn_snapshots@.dom() == self.mvcc@.active.dom()
        &&& fresh_for(self.snapshot_cache, self.mvcc@)
        &&& pins_hold(self.mvcc@, self.txn_snapshots@, self.txn_counter)
        &&& self.store.l1.wal_attached
        &&& self.store.l1.sync_level == SyncLevel::Async
        &&& self.wal.config.enabled
        &&& self.wal.config.policy() == SyncPolicy::SyncEach
    }

    /// The configuration of an engine's WAL: every commit is synced, and
    /// written through where the platform has that.
    pub fn wal_config(data_dir: &str) -> (r: WalConfig)
        ensures
            r.wal_dir@ == data_dir@ + "/wal"@,
            r.max_file_size == 128 * 1024 * 1024,
            r.enabled,
            r.policy() == SyncPolicy::SyncEach,
            r.write_through,
    {
        WalConfig {
            wal_dir: concat2(data_dir, "/wal"),
            max_file_size: 128 * 1024 * 1024,
            enabled: true,
            group_commit: Some(
                GroupCommitConfig {
                    max_batch_size: 100,
                    max_wait_ms: 50,
                    policy: SyncPolicy::SyncEach,
                },
            ),
            write_through: true,
        }
    }

    /// Open an engine with the default configuration; see
    /// [`Z1Kv::open_with_config`].
    pub fn open(
        data_dir: String,
        wal: WalWriter,
        l2: DiskLayer,
        l3: DiskLayer,
        baseline: Option<(TxnId, Vec<(TxnId, u64)>)>,
        segments: &Vec<Vec<u8>>,
    ) -> (r: Result<Z1Kv>)
        requires
            l2.wf(),
            l3.wf(),
            wal.config.enabled,
            wal.config.policy() == SyncPolicy::SyncEach,
        ensures
            r matches Ok(e) ==> {
                &&& e.config.visibility.max_history_entries == 100_000
                &&& e.config.visibility.history_ttl_secs == 3600
                &&& e.config.strict_mode
                &&& e.config.checkpoint_wal_size_threshold == 64 * 1024 * 1024
                &&& e.config.l2_compaction_threshold == 64
            },
            exists|config: Z1Config, base: (TxnId, Vec<(TxnId, u64)>)|
                is_base(baseline, base) && #[trigger] opens(
                    data_dir,
                    config,
                    wal,
                    l2,
                    l3,
                    base,
                    seg_models(segments@),
                    r,
                ) && opens_what_was_written(config, l2, l3, base, seg_models(segments@), r),
    {
        let config = Z1Config::default();
        let ghost chosen = config;
        let r = Z1Kv::open_with_config(data_dir, config, wal, l2, l3, baseline, segments);
        proof {
            let base = choose|base: (TxnId, Vec<(TxnId, u64)>)|
                is_base(baseline, base) && #[trigger] opens(
                    data_dir,
                    chosen,
                    wal,
                    l2,
                    l3,
                    base,
                    seg_models(segments@),
                    r,
                ) && opens_what_was_written(chosen, l2, l3, base, seg_models(segments@), r);
            assert(opens(data_dir, chosen, wal, l2, l3, base, seg_models(segments@), r));
        }
        r
    }

    /// Open an engine on what was found on disk: the WAL with its segments in
    /// order, the patch layers with their indexes, and the baseline of the
    /// newest checkpoint, if there is one.
    ///
    /// The history is that of the checkpoint with what the WAL adds; L1 holds
    /// the writes of the committed transactions in the WAL.
    pub fn open_with_config(
        data_dir: String,
        config: Z1Config,
        wal: WalWriter,
        l2: DiskLayer,
        l3: DiskLayer,
        baseline: Option<(TxnId, Vec<(TxnId, u64)>)>,
        segments: &Vec<Vec<u8>>,
    ) -> (r: Result<Z1Kv>)
        requires
            l2.wf(),
            l3.wf(),
            wal.config.enabled,
            wal.config.policy() == SyncPolicy::SyncEach,
        ensures
            exists|base: (TxnId, Vec<(TxnId, u64)>)|
                is_base(baseline, base) && #[trigger] opens(
                    data_dir,
                    config,
                    wal,
                    l2,
                    l3,
                    base,
                    seg_models(segments@),
                    r,
                ) && opens_what_was_written(config, l2, l3, base, seg_models(segments@), r),
    {
        let base: (TxnId, Vec<(TxnId, u64)>) = match baseline {
            Some(b) => b,
            None => (0, Vec::new()),
        };
        let ghost taken = base;
        let r = Z1Kv::open_from(data_dir, config, wal, l2, l3, base, segments);
        assert(is_base(baseline, taken));
        assert(opens(data_dir, config, wal, l2, l3, taken, seg_models(segments@), r));
        r
    }

    fn open_from(
        data_dir: String,
        config: Z1Config,
        wal: WalWriter,
        l2: DiskLayer,
        l3: DiskLayer,
        baseline: (TxnId, Vec<(TxnId, u64)>),
        segments: &Vec<Vec<u8>>,
    ) -> (r: Result<Z1Kv>)
        requires
            l2.wf(),
            l3.wf(),
            wal.config.enabled,
            wal.config.policy() == SyncPolicy::SyncEach,
        ensures
            opens(data_dir, config, wal, l2, l3, baseline, seg_models(segments@), r),
            opens_what_was_written(config, l2, l3, baseline, seg_models(segments@), r),
    {
        let next_patch_id: u64 = match first_free_patch_id(&l2, &l3) {
            Some(id) => {
                proof {
                    lemma_patch_is_free(l2, l3, id);
                }
                id
            },
            None => {
                return Err(Z1Error::Internal(copy_str("patch numbers are used up")));
            },
        };
        let records = match replay_all(segments) {
            Ok(v) => v,
            Err(e) => {
                let kind = ReplayErrorKind::Fatal {
                    io_kind: copy_str("WAL reader"),
                    detail: e.to_text(),
                };
                let err = ReplayError { kind, txn_id: 0 };
                assert(reports(replayed(seg_models(segments@), 0).1, e));
                return Err(Z1Error::Wal(concat2("recovery failed: ", err.to_text().as_str())));
            },
        };
        let ghost rs = wal_models(records@);
        let last_on_disk: TxnId = {
            let a: TxnId = l2.max_txn_id();
            let b: TxnId = l3.max_txn_id();
            if a >= b {
                a
            } else {
                b
            }
        };
        let last_in_log: TxnId = top_record(&records);
        let none: BTreeMap<u64, Z1Error> = BTreeMap::new();
        assert(none@ =~= Map::<u64, Z1Error>::empty());
        let mut counts = DegradeCounts::new();
        let (outcome, lost) = recover_records(&records, config.strict_mode, &mut counts, &none);
        let ghost order = choose|o: Seq<TxnId>| #[trigger]
            recovers(rs, o, none@, config.strict_mode, outcome, lost_model(lost@));
        proof {
            lemma_no_failures(rs, order, config.strict_mode);
            assert(lost_model(lost@) =~= Seq::<(TxnId, Seq<char>)>::empty());
        }
        let rec = match outcome {
            Ok(rec) => rec,
            Err(e) => {
                assert(false);
                return Err(Z1Error::Wal(concat2("recovery failed: ", e.to_text().as_str())));
            },
        };
        let ghost rec0 = rec;
        let mut l1 = MemStore::new(FLUSH_THRESHOLD, SyncLevel::Async);
        l1.set_wal();
        replay_into(&mut l1, &rec.committed_puts);
        let store = FlushEngine::with_l3(l1, l2, l3, RecentFlushCache::new(), 0, next_patch_id);
        let (cp_committed_txn, cp_history) = baseline;
        let merged = merge_history(&cp_history, &rec.commit_ts_map);
        let committed_txn: TxnId = if cp_committed_txn >= rec.max_seen_committed_txn {
            cp_committed_txn
        } else {
            rec.max_seen_committed_txn
        };
        let mut mvcc = VisibilityManager::new_with_config(config.visibility.clone());
        mvcc.set_committed_txn(committed_txn);
        let ghost m0 = mvcc@;
        let ghost list = merged@;
        mvcc.recover_committed_history_with_config(merged, None, &rec.inserted_at_map);
        let ghost now_ms = choose|now_ms: u64|
            0 <= now_ms <= mvcc.clock.last_valid && mvcc@ == #[trigger] recovered(
                m0,
                list,
                None,
                rec.inserted_at_map@,
                now_ms,
            );
        proof {
            lemma_recovered_list(
                list,
                merged_history(cp_history@, rec.commit_ts_map@),
                rec.inserted_at_map@,
                now_ms,
                committed_txn,
            );
        }
        mvcc.set_replay_watermark(rec.replay_watermark);
        let last_known: TxnId = {
            let m: TxnId = if cp_committed_txn >= last_in_log {
                cp_committed_txn
            } else {
                last_in_log
            };
            if m >= last_on_disk {
                m
            } else {
                last_on_disk
            }
        };
        let txn_counter: u64 = last_known.saturating_add(1);
        let e = Z1Kv {
            data_dir,
            config,
            wal,
            mvcc,
            snapshot_cache: SnapshotCache::new(),
            txn_snapshots: BTreeMap::new(),
            store,
            txn_counter,
        };
        proof {
            assert(e.txn_snapshots@.dom() =~= Set::<TxnId>::empty());
            assert(e.mvcc@.active.dom() =~= Set::<TxnId>::empty());
            assert(history_restored(e, rec0, baseline, now_ms));
            assert(opened_from(e, rec0, baseline, config));
            assert(recovered_as(rs, config.strict_mode, rec0));
            assert(is_last_known(l2, l3, baseline.0, rs, last_known));
            assert(opened_on(e, baseline, config, rs));
        }
        Ok(e)
    }

    /// The next transaction id.
    fn next_txn_id(&mut self) -> (r: Result<TxnId>)
        ensures
            match r {
                Ok(id) => {
                    &&& old(self).txn_counter < u64::MAX
                    &&& id == old(self).txn_counter
                    &&& *final(self) == (Z1Kv { txn_counter: (id + 1) as u64, ..*old(self) })
                },
                Err(e) => {
                    &&& old(self).txn_counter == u64::MAX
                    &&& *final(self) == *old(self)
                    &&& e matches Z1Error::Internal(m) && m@ == "transaction ID counter overflow"@
                },
            },
    {
        if self.txn_counter == u64::MAX {
            return Err(Z1Error::Internal(copy_str("transaction ID counter overflow")));
        }
        let id: TxnId = self.txn_counter;
        self.txn_counter = id + 1;
        Ok(id)
    }

    /// Begin a transaction. Its snapshot is taken in the same step and pinned
    /// until it ends: what commits later does not leak into its reads.
    ///
    /// An id that is not above the committed ones is given up for the next.
    pub fn begin_txn(&mut self) -> (r: Result<TxnId>)
        requires
            old(self).wf(),
        ensures
            final(self).wf(),
            goes_on(*old(self), *final(self)),
            final(self).txn_counter == begun(
                old(self).mvcc@,
                old(self).txn_counter,
                BEGIN_RETRY as nat,
            ).1,
            *final(self) == (Z1Kv {
                mvcc: final(self).mvcc,
                snapshot_cache: final(self).snapshot_cache,
                txn_snapshots: final(self).txn_snapshots,
                txn_counter: final(self).txn_counter,
                ..*old(self)
            }),
            final(self).mvcc.clock == old(self).mvcc.clock,
            // the cache is invalidated once for every id that is tried
            final(self).snapshot_cache.generation == old(
                self,
            ).snapshot_cache.generation.wrapping_add(
                (final(self).txn_counter - old(self).txn_counter) as u64,
            ),
            final(self).txn_counter == old(self).txn_counter ==> final(self).snapshot_cache
                == old(self).snapshot_cache,
            final(self).txn_counter > old(self).txn_counter ==> cached(final(self).snapshot_cache)
                is None,
            match begun(old(self).mvcc@, old(self).txn_counter, BEGIN_RETRY as nat).0 {
                Begun::Started(id) => {
                    &&& r == Ok::<TxnId, Z1Error>(id)
                    &&& begin_outcome(
                        old(self).mvcc@,
                        id,
                        Ok::<(), Z1Error>(()),
                        final(self).mvcc@,
                    )
                    &&& final(self).txn_snapshots@.contains_key(id)
                    &&& final(self).txn_snapshots@[id]@ == snapshot_of(
                        final(self).mvcc@,
                        IsolationLevel::Snapshot,
                    )
                    &&& final(self).txn_snapshots@ == old(self).txn_snapshots@.insert(
                        id,
                        final(self).txn_snapshots@[id],
                    )
                },
                Begun::Overflow => (r matches Err(Z1Error::Internal(m)) && m@
                    == "transaction ID counter overflow"@) && final(self).mvcc@ == old(self).mvcc@
                    && final(self).txn_snapshots@ == old(self).txn_snapshots@,
                Begun::Active(id) => (r matches Err(Z1Error::Internal(m)) && m@
                    == "begin_txn failed: MVCC conflict: "@ + "transaction "@ + decimal(id as nat)
                    + " already active"@) && final(self).mvcc@ == old(self).mvcc@
                    && final(self).txn_snapshots@ == old(self).txn_snapshots@,
                Begun::Committed(id) => (r matches Err(Z1Error::Internal(m)) && m@
                    == "begin_txn failed: MVCC conflict: "@ + "transaction "@ + decimal(id as nat)
                    + " already committed"@) && final(self).mvcc@ == old(self).mvcc@
                    && final(self).txn_snapshots@ == old(self).txn_snapshots@,
            },
    {
        let mut left: usize = BEGIN_RETRY;
        loop
            invariant
                1 <= left <= BEGIN_RETRY,
                self.wf(),
                old(self).txn_counter <= self.txn_counter,
                self.snapshot_cache.generation == old(self).snapshot_cache.generation.wrapping_add(
                    (self.txn_counter - old(self).txn_counter) as u64,
                ),
                self.txn_counter == old(self).txn_counter ==> self.snapshot_cache
                    == old(self).snapshot_cache,
                self.txn_counter > old(self).txn_counter ==> cached(self.snapshot_cache) is None,
                self.mvcc@ == old(self).mvcc@,
                self.mvcc.clock == old(self).mvcc.clock,
                self.txn_snapshots == old(self).txn_snapshots,
                *self == (Z1Kv {
                    mvcc: self.mvcc,
                    snapshot_cache: self.snapshot_cache,
                    txn_counter: self.txn_counter,
                    ..*old(self)
                }),
                begun(old(self).mvcc@, old(self).txn_counter, BEGIN_RETRY as nat) == begun(
                    self.mvcc@,
                    self.txn_counter,
                    left as nat,
                ),
            decreases left,
        {
            let txn_id: TxnId = match self.next_txn_id() {
                Ok(id) => id,
                Err(e) => {
                    return Err(e);
                },
            };
            self.snapshot_cache.invalidate();
            let ghost before = self.mvcc@;
            match self.mvcc.begin_txn_with_snapshot(txn_id, IsolationLevel::Snapshot) {
                Ok(snap) => {
                    self.txn_snapshots.insert(txn_id, snap);
                    proof {
                        assert(self.mvcc@.active.dom() =~= before.active.dom().insert(txn_id));
                        assert(self.txn_snapshots@.dom() =~= self.mvcc@.active.dom());
                        assert(before.history.dom() == self.mvcc.committed_history@.dom());
                        lemma_pins_begin(
                            before,
                            old(self).txn_snapshots@,
                            txn_id,
                            txn_id,
                            self.mvcc@,
                            self.txn_snapshots@[txn_id],
                            self.txn_counter,
                        );
                    }
                    return Ok(txn_id);
                },
                Err(e) => {
                    let taken: bool = !self.mvcc.active_txns.contains_key(&txn_id) && txn_id
                        <= self.mvcc.committed_txn();
                    assert(taken == (!before.active.contains_key(txn_id) && txn_id
                        <= before.committed_txn));
                    if taken && left > 1 {
                        left = left - 1;
                        proof {
                            assert(self.mvcc@ == old(self).mvcc@);
                        }
                    } else {
                        let text = e.to_text();
                        let m = concat2("begin_txn failed: ", text.as_str());
                        proof {
                            lemma_begin_text(txn_id, m@, text@, taken);
                        }
                        return Err(Z1Error::Internal(m));
                    }
                },
            }
        }
    }

    /// The transaction has begun and not ended.
    fn ensure_active_txn(&self, txn_id: TxnId) -> (r: Result<()>)
        ensures
            match r {
                Ok(_) => self.mvcc@.active.contains_key(txn_id),
                Err(e) => !self.mvcc@.active.contains_key(txn_id) && (e matches
                    Z1Error::TxnNotFound(t) && t == txn_id),
            },
    {
        match self.mvcc.get_begin_ts(txn_id) {
            Some(_) => Ok(()),
            None => Err(Z1Error::TxnNotFound(txn_id)),
        }
    }

    /// Begin to commit a transaction: check for conflicts, and plan to make its
    /// commit record durable. A transaction that conflicts is aborted, and
    /// nothing is logged: for recovery it has not committed.
    ///
    /// The insertion time is captured here, once, so that the record and the
    /// history age by the same clock.
    pub fn commit(&mut self, txn_id: TxnId) -> (r: Result<CommitTicket>)
        requires
            old(self).wf(),
        ensures
            final(self).wf(),
            commit_begun(*old(self), txn_id, r, *final(self)),
            goes_on(*old(self), *final(self)),
            // only a key that another active transaction has touched refuses it
            r is Ok <==> old(self).mvcc@.active.contains_key(txn_id) && forall|o: TxnId|
                o != txn_id && #[trigger] old(self).mvcc@.active.contains_key(o) ==> old(
                    self,
                ).mvcc@.active[txn_id].reads.disjoint(old(self).mvcc@.active[o].writes) && old(
                    self,
                ).mvcc@.active[txn_id].writes.disjoint(old(self).mvcc@.active[o].reads) && old(
                    self,
                ).mvcc@.active[txn_id].writes.disjoint(old(self).mvcc@.active[o].writes),
    {
        match self.ensure_active_txn(txn_id) {
            Ok(_) => {},
            Err(e) => {
                return Err(e);
            },
        }
        match self.mvcc.check_commit(txn_id) {
            Ok(_) => {},
            Err(e) => {
                self.txn_snapshots.remove(&txn_id);
                self.snapshot_cache.invalidate();
                proof {
                    assert(self.mvcc@.active.dom() =~= old(self).mvcc@.active.dom().remove(txn_id));
                    assert(self.txn_snapshots@.dom() =~= self.mvcc@.active.dom());
                    lemma_pins_stay(
                        old(self).mvcc@,
                        old(self).txn_snapshots@,
                        old(self).txn_counter,
                        self.mvcc@,
                        self.txn_snapshots@,
                        self.txn_counter,
                    );
                    law_check_is_exact(
                        old(self).mvcc@,
                        txn_id,
                        Err::<(), Z1Error>(e),
                        self.mvcc@,
                    );
                }
                return Err(e);
            },
        }
        proof {
            law_check_is_exact(old(self).mvcc@, txn_id, Ok::<(), Z1Error>(()), self.mvcc@);
        }
        let inserted_at: u64 = current_timestamp_millis(&mut self.mvcc.clock);
        assert(self.mvcc@ == old(self).mvcc@);
        let plan = self.wal.append_durable(
            txn_id,
            WalRecord::Commit { commit_ts: txn_id, inserted_at },
        );
        Ok(CommitTicket { txn_id, inserted_at, plan })
    }

    /// Finish a commit whose record is durable: enter the transaction in the
    /// history, and invalidate the snapshot cache. It has ended, and its pinned
    /// snapshot is released.
    ///
    /// With nothing but the WAL touched since [`Z1Kv::commit`] this succeeds; a
    /// transaction that has come to conflict meanwhile is aborted.
    pub fn finish_commit(&mut self, txn_id: TxnId, inserted_at: u64) -> (r: Result<()>)
        requires
            old(self).wf(),
        ensures
            final(self).wf(),
            goes_on(*old(self), *final(self)),
            committed(old(self).mvcc, txn_id, inserted_at, r, final(self).mvcc),
            final(self).txn_snapshots@ == old(self).txn_snapshots@.remove(txn_id),
            *final(self) == (Z1Kv {
                mvcc: final(self).mvcc,
                snapshot_cache: final(self).snapshot_cache,
                txn_snapshots: final(self).txn_snapshots,
                ..*old(self)
            }),
            is_invalidated(old(self).snapshot_cache, final(self).snapshot_cache),
    {
        let mut protocol = CommitProtocol::new(txn_id);
        protocol.pending_ops.push(PendingOp::MvccCommit { inserted_at });
        protocol.pending_ops.push(PendingOp::CommitTxnRecord { txn_id, commit_ts: txn_id });
        protocol.pending_ops.push(PendingOp::SnapshotInvalidate);
        let ghost ops = protocol.pending_ops@;
        let r = protocol.apply_all(self);
        proof {
            let states = choose|states: Seq<Z1Kv>| #[trigger]
                runs(txn_id, ops, states, r) && states[0] == *old(self) && states.last() == *self;
            let n = states.len() - 1;
            let ok: Result<()> = Ok(());
            if r is Err && n == 1 {
                assert(Z1Kv::applied(states[0], effect_of(txn_id, ops[0]), r, states[1]));
                assert(committed(old(self).mvcc, txn_id, inserted_at, r, self.mvcc));
            } else {
                assert(Z1Kv::applied(states[0], effect_of(txn_id, ops[0]), ok, states[1]));
                if r is Err {
                    assert(Z1Kv::applied(states[n - 1], effect_of(txn_id, ops[n - 1]), r, states[n]));
                } else {
                    assert(Z1Kv::applied(states[1], effect_of(txn_id, ops[1]), ok, states[2]));
                    assert(Z1Kv::applied(states[2], effect_of(txn_id, ops[2]), ok, states[3]));
                    lemma_committed_ok(old(self).mvcc, txn_id, inserted_at, ok, r, self.mvcc);
                }
            }
            lemma_commit_frame(old(self).mvcc, txn_id, inserted_at, r, self.mvcc);
        }
        self.txn_snapshots.remove(&txn_id);
        proof {
            assert(self.txn_snapshots@.dom() =~= self.mvcc@.active.dom());
            assert forall|t: TxnId| #[trigger] self.mvcc@.active.contains_key(t) implies
                old(self).mvcc@.active.contains_key(t) && t != txn_id by {
                assert(self.mvcc@.active.dom().contains(t));
            }
            lemma_pins_stay(
                old(self).mvcc@,
                old(self).txn_snapshots@,
                old(self).txn_counter,
                self.mvcc@,
                self.txn_snapshots@,
                self.txn_counter,
            );
        }
        r
    }

    /// Begin to roll a transaction back: the plan logs it.
    pub fn rollback(&mut self, txn_id: TxnId) -> (r: Result<WalPlan>)
        requires
            old(self).wf(),
        ensures
            final(self).wf(),
            rollback_begun(*old(self), txn_id, r, *final(self)),
            goes_on(*old(self), *final(self)),
    {
        match self.ensure_active_txn(txn_id) {
            Ok(_) => {},
            Err(e) => {
                return Err(e);
            },
        }
        self.snapshot_cache.invalidate();
        let plan = self.wal.append(txn_id, WalRecord::Rollback);
        Ok(plan)
    }

    /// Finish a rollback that was logged: the transaction has ended.
    pub fn finish_rollback(&mut self, txn_id: TxnId)
        requires
            old(self).wf(),
        ensures
            final(self).wf(),
            goes_on(*old(self), *final(self)),
            final(self).mvcc@ == without_active(old(self).mvcc@, txn_id),
            final(self).mvcc.clock == old(self).mvcc.clock,
            final(self).txn_snapshots@ == old(self).txn_snapshots@.remove(txn_id),
            *final(self) == (Z1Kv {
                mvcc: final(self).mvcc,
                snapshot_cache: final(self).snapshot_cache,
                txn_snapshots: final(self).txn_snapshots,
                ..*old(self)
            }),
            is_invalidated(old(self).snapshot_cache, final(self).snapshot_cache),
    {
        let _ = self.mvcc.rollback_txn(txn_id);
        self.txn_snapshots.remove(&txn_id);
        self.snapshot_cache.invalidate();
        proof {
            assert(self.mvcc@.active.dom() =~= old(self).mvcc@.active.dom().remove(txn_id));
            assert(self.txn_snapshots@.dom() =~= self.mvcc@.active.dom());
            lemma_pins_stay(
                old(self).mvcc@,
                old(self).txn_snapshots@,
                old(self).txn_counter,
                self.mvcc@,
                self.txn_snapshots@,
                self.txn_counter,
            );
        }
    }

    /// The current snapshot.
    ///
    /// It is not protected from GC: a later compaction may reclaim versions
    /// that it depends on. For a view that stays, begin a transaction.
    pub fn snapshot(&mut self) -> (r: TxnSnapshot)
        requires
            old(self).wf(),
        ensures
            final(self).wf(),
            goes_on(*old(self), *final(self)),
            r@ == snapshot_of(old(self).mvcc@, IsolationLevel::Snapshot),
            final(self).snapshot_cache.generation == old(self).snapshot_cache.generation,
            *final(self) == (Z1Kv { snapshot_cache: final(self).snapshot_cache, ..*old(self) }),
    {
        self.snapshot_cache.snapshot(&self.mvcc)
    }

    /// Read a key as of the current snapshot.
    pub fn get(&mut self, cf: u16, key: &[u8]) -> (r: Read<Option<Vec<u8>>>)
        requires
            old(self).wf(),
        ensures
            final(self).wf(),
            goes_on(*old(self), *final(self)),
            reads_key(
                old(self).store,
                snapshot_of(old(self).mvcc@, IsolationLevel::Snapshot),
                cf,
                key@,
                r,
            ),
            final(self).snapshot_cache.generation == old(self).snapshot_cache.generation,
            *final(self) == (Z1Kv { snapshot_cache: final(self).snapshot_cache, ..*old(self) }),
    {
        let snap = self.snapshot();
        self.get_at(&snap, cf, key)
    }

    /// Read a key within a transaction: as of its pinned snapshot, so that
    /// reads are repeatable. The key enters the read set, which counts for
    /// conflicts at commit.
    pub fn get_for_txn(&mut self, cf: u16, key: &[u8], txn_id: TxnId) -> (r: Result<
        Read<Option<Vec<u8>>>,
    >)
        requires
            old(self).wf(),
        ensures
            final(self).wf(),
            read_in_txn(*old(self), cf, key@, txn_id, r, *final(self)),
            goes_on(*old(self), *final(self)),
    {
        let snap = match self.txn_snapshots.get(&txn_id) {
            Some(s) => s.clone(),
            None => {
                assert(!self.txn_snapshots@.dom().contains(txn_id));
                return Err(Z1Error::TxnNotFound(txn_id));
            },
        };
        assert(self.txn_snapshots@.dom().contains(txn_id));
        let ck = conflict_key(cf, key);
        self.mvcc.record_read(txn_id, ck.as_slice());
        proof {
            assert(self.mvcc@.active.dom() =~= old(self).mvcc@.active.dom());
            lemma_same_snapshot(old(self).mvcc@, self.mvcc@);
            assert forall|t: TxnId| #[trigger] self.mvcc@.active.contains_key(t) implies
                old(self).mvcc@.active.contains_key(t) by {
                assert(self.mvcc@.active.dom().contains(t));
            }
            lemma_pins_stay(
                old(self).mvcc@,
                old(self).txn_snapshots@,
                old(self).txn_counter,
                self.mvcc@,
                self.txn_snapshots@,
                self.txn_counter,
            );
        }
        Ok(self.get_at(&snap, cf, key))
    }

    /// Read a key as of a snapshot: the newest version it sees on any layer.
    /// Of several versions written by one transaction the one on the lowest
    /// layer counts.
    pub fn get_at(&self, snap: &TxnSnapshot, cf: u16, key: &[u8]) -> (r: Read<Option<Vec<u8>>>)
        requires
            self.store.wf(),
        ensures
            reads_key(self.store, snap@, cf, key@, r),
    {
        let active = to_hash_set(&snap.active_txns);
        let ghost p = Pick { cf, span: Span::Key(key@), sight: Some(sight_of(snap@)) };
        let mut found: Vec<Z1Entry> = Vec::new();
        assert(entry_models(found@) =~= Seq::<EntryModel>::empty());
        collect_key(
            &mut found,
            &self.store.l1.hot.entries,
            cf,
            key,
            snap.snapshot_id,
            &snap.commit_ts_map,
            &active,
        );
        collect_key(
            &mut found,
            &self.store.l1.cold.entries,
            cf,
            key,
            snap.snapshot_id,
            &snap.commit_ts_map,
            &active,
        );
        collect_key(
            &mut found,
            &self.store.l1.snapshot.entries,
            cf,
            key,
            snap.snapshot_id,
            &snap.commit_ts_map,
            &active,
        );
        proof {
            lemma_kept_concat(self.store.l1.hot@, self.store.l1.cold@, p);
            lemma_kept_concat(
                self.store.l1.hot@ + self.store.l1.cold@,
                self.store.l1.snapshot@,
                p,
            );
            assert(entry_models(found@) =~= kept(l1_versions(self.store.l1), p));
        }
        collect_key(
            &mut found,
            &self.store.recent_flush.cache.entries,
            cf,
            key,
            snap.snapshot_id,
            &snap.commit_ts_map,
            &active,
        );
        match self.store.l2.get_versions(cf, key) {
            LayerRead::Done(v) => {
                collect_key(
                    &mut found,
                    &v,
                    cf,
                    key,
                    snap.snapshot_id,
                    &snap.commit_ts_map,
                    &active,
                );
            },
            LayerRead::Need(name) => {
                return Read::Need { layer: Layer::L2, cf, name };
            },
        }
        match self.store.l3.get_versions(cf, key) {
            LayerRead::Done(v) => {
                collect_key(
                    &mut found,
                    &v,
                    cf,
                    key,
                    snap.snapshot_id,
                    &snap.commit_ts_map,
                    &active,
                );
            },
            LayerRead::Need(name) => {
                return Read::Need { layer: Layer::L3, cf, name };
            },
        }
        assert(entry_models(found@) =~= candidates(self.store, snap@, cf, Span::Key(key@)));
        assert(entry_models(found@).len() == found@.len());
        match last_newest_index(&found) {
            Some(i) => match &found[i].value {
                Some(v) => Read::Done(Some(copy_bytes(v.as_slice()))),
                None => Read::Done(None),
            },
            None => Read::Done(None),
        }
    }

    /// Write a value under a transaction. The plan logs it; then the version
    /// is to be applied. A record too large for the WAL is refused.
    pub fn put(&mut self, cf: u16, key: Vec<u8>, value: Vec<u8>, txn_id: TxnId) -> (r: Result<
        WritePlan,
    >)
        requires
            old(self).wf(),
        ensures
            final(self).wf(),
            goes_on(*old(self), *final(self)),
            write_outcome(*old(self), cf, key@, Some(value@), txn_id, r, *final(self)),
            key@.len() + value@.len() > MAX_WAL_RECORD_LEN ==> r is Err,
    {
        self.write(cf, key, Some(value), txn_id)
    }

    /// Delete a key under a transaction: write a tombstone.
    pub fn delete(&mut self, cf: u16, key: Vec<u8>, txn_id: TxnId) -> (r: Result<WritePlan>)
        requires
            old(self).wf(),
        ensures
            final(self).wf(),
            goes_on(*old(self), *final(self)),
            write_outcome(*old(self), cf, key@, None, txn_id, r, *final(self)),
            key@.len() > MAX_WAL_RECORD_LEN ==> r is Err,
    {
        self.write(cf, key, None, txn_id)
    }

    fn write(&mut self, cf: u16, key: Vec<u8>, value: Option<Vec<u8>>, txn_id: TxnId) -> (r: Result<
        WritePlan,
    >)
        requires
            old(self).wf(),
        ensures
            final(self).wf(),
            goes_on(*old(self), *final(self)),
            write_outcome(*old(self), cf, key@, vec_model(value), txn_id, r, *final(self)),
            raw_len(RecordModel::Put { cf, key: key@, value: vec_model(value) })
                > MAX_WAL_RECORD_LEN ==> r is Err,
    {
        match self.ensure_active_txn(txn_id) {
            Ok(_) => {},
            Err(e) => {
                return Err(e);
            },
        }
        let ck = conflict_key(cf, key.as_slice());
        self.mvcc.record_write(txn_id, ck.as_slice());
        proof {
            assert(self.mvcc@.active.dom() =~= old(self).mvcc@.active.dom());
            lemma_same_snapshot(old(self).mvcc@, self.mvcc@);
            assert forall|t: TxnId| #[trigger] self.mvcc@.active.contains_key(t) implies
                old(self).mvcc@.active.contains_key(t) by {
                assert(self.mvcc@.active.dom().contains(t));
            }
            lemma_pins_stay(
                old(self).mvcc@,
                old(self).txn_snapshots@,
                old(self).txn_counter,
                self.mvcc@,
                self.txn_snapshots@,
                self.txn_counter,
            );
        }
        let ghost m1 = self.mvcc@;
        let ms: u64 = current_timestamp_millis(&mut self.mvcc.clock);
        assert(self.mvcc@ == m1);
        let ghost model = vec_model(value);
        let zk = Z1Key::new(cf, key);
        let entry = match value {
            Some(v) => Z1Entry::put(zk, txn_id, v, ms as i64),
            None => Z1Entry::tombstone(zk, txn_id, ms as i64),
        };
        assert(entry@ == write_entry(cf, key@, model, txn_id, ms));
        let plan = match self.store.l1.log_request(&entry) {
            Some((record, _)) => self.wal.append(txn_id, record),
            None => {
                assert(false);
                self.wal.append(txn_id, WalRecord::Begin)
            },
        };
        let ghost plan0 = plan;
        match plan_result(plan) {
            Ok(actions) => {
                let w = WritePlan { entry, actions };
                assert(plan_is(
                    WalPlan { actions: w.actions, error: None },
                    planned(
                        old(self).wal.cursor,
                        old(self).wal.config.max_file_size,
                        old(self).wal.config.write_through,
                        seq![
                            WalModel {
                                txn_id,
                                record: RecordModel::Put { cf, key: key@, value: model },
                            },
                        ],
                    ),
                ));
                Ok(w)
            },
            Err(e) => {
                assert(plan_is(
                    plan0,
                    planned(
                        old(self).wal.cursor,
                        old(self).wal.config.max_file_size,
                        old(self).wal.config.write_through,
                        seq![
                            WalModel {
                                txn_id,
                                record: RecordModel::Put { cf, key: key@, value: model },
                            },
                        ],
                    ),
                ));
                Err(e)
            },
        }
    }

    /// Take a version in that was logged.
    pub fn apply_write(&mut self, entry: Z1Entry)
        requires
            old(self).wf(),
        ensures
            final(self).wf(),
            goes_on(*old(self), *final(self)),
            final(self).store.l1.hot@ == upserted(old(self).store.l1.hot@, entry@),
            final(self).store.l1.hot_size_bytes == old(
                self,
            ).store.l1.hot_size_bytes.wrapping_add(estimated(entry@)),
            final(self).store.l1 == (MemStore {
                hot: final(self).store.l1.hot,
                hot_size_bytes: final(self).store.l1.hot_size_bytes,
                ..old(self).store.l1
            }),
            final(self).store == (FlushEngine { l1: final(self).store.l1, ..old(self).store }),
            *final(self) == (Z1Kv { store: final(self).store, ..*old(self) }),
    {
        let _ = self.store.l1.put(entry);
    }

    /// Take note of an action on the WAL that was performed.
    pub fn wal_applied(&mut self, action: &WalAction)
        requires
            old(self).wf(),
        ensures
            final(self).wf(),
            goes_on(*old(self), *final(self)),
            final(self).wal.cursor == after_action(old(self).wal.cursor, action@),
            final(self).wal.config == old(self).wal.config,
            final(self).wal.queue == old(self).wal.queue,
            *final(self) == (Z1Kv { wal: final(self).wal, ..*old(self) }),
    {
        self.wal.applied(action);
    }

    /// Take in a patch file that a read needs.
    pub fn install(&mut self, layer: Layer, cf: u16, name: &str, file: FileRead) -> (r: Result<()>)
        requires
            old(self).wf(),
        ensures
            final(self).wf(),
            goes_on(*old(self), *final(self)),
            layer == Layer::L2 ==> final(self).store == (FlushEngine {
                l2: final(self).store.l2,
                ..old(self).store
            }) && others_unchanged(
                old(self).store.l2,
                final(self).store.l2,
                cf,
            ),
            layer == Layer::L3 ==> final(self).store == (FlushEngine {
                l3: final(self).store.l3,
                ..old(self).store
            }) && others_unchanged(
                old(self).store.l3,
                final(self).store.l3,
                cf,
            ),
            *final(self) == (Z1Kv { store: final(self).store, ..*old(self) }),
            r is Err ==> final(self).store == old(self).store,
            file is NotFound ==> r is Ok,
            file matches FileRead::Failed(x) ==> (r matches Err(Z1Error::Io(y)) && y == x),
            file matches FileRead::Bytes(b) ==> (r is Ok <==> readable(b@)),
            file matches FileRead::Bytes(b) ==> (r matches Err(e) ==> reports_patch(b@, e)),
            ({
                let before = if layer == Layer::L2 {
                    patch_list(old(self).store.l2, cf)
                } else {
                    patch_list(old(self).store.l3, cf)
                };
                let after = if layer == Layer::L2 {
                    patch_list(final(self).store.l2, cf)
                } else {
                    patch_list(final(self).store.l3, cf)
                };
                match file {
                    FileRead::Bytes(b) => r is Ok ==> exists|c: Seq<PatchModel>| #[trigger]
                        holds_patch(b@, c) && after
                            == loaded(before, name@, c),
                    FileRead::NotFound => after == unlisted(before, name@),
                    FileRead::Failed(_) => after == before,
                }
            }),
    {
        match layer {
            Layer::L2 => self.store.l2.install(cf, name, file),
            Layer::L3 => self.store.l3.install(cf, name, file),
        }
    }

    /// The keys of a column family in `[start, end)` with their values as of
    /// the current snapshot, ascending; no end means unbounded.
    pub fn scan(&mut self, cf: u16, start: &[u8], end: Option<&[u8]>) -> (r: Read<
        Vec<(Vec<u8>, Vec<u8>)>,
    >)
        requires
            old(self).wf(),
        ensures
            final(self).wf(),
            goes_on(*old(self), *final(self)),
            reads_range(
                old(self).store,
                snapshot_of(old(self).mvcc@, IsolationLevel::Snapshot),
                cf,
                start@,
                end_model(end),
                r,
            ),
            final(self).snapshot_cache.generation == old(self).snapshot_cache.generation,
            *final(self) == (Z1Kv { snapshot_cache: final(self).snapshot_cache, ..*old(self) }),
    {
        let snap = self.snapshot();
        self.scan_at(&snap, cf, start, end)
    }

    /// The keys of a column family in `[start, end)` with their values as of
    /// a snapshot, ascending: for every key the newest version seen on any
    /// layer. Deleted keys are left out.
    pub fn scan_at(&self, snap: &TxnSnapshot, cf: u16, start: &[u8], end: Option<&[u8]>) -> (r:
        Read<Vec<(Vec<u8>, Vec<u8>)>>)
        requires
            self.store.wf(),
        ensures
            reads_range(self.store, snap@, cf, start@, end_model(end), r),
    {
        let active = to_hash_set(&snap.active_txns);
        let ghost span = Span::Range(start@, end_model(end));
        let ghost p = Pick { cf, span, sight: Some(sight_of(snap@)) };
        let mut found: Vec<Z1Entry> = Vec::new();
        assert(entry_models(found@) =~= Seq::<EntryModel>::empty());
        self.store.l1.collect_visible(
            &mut found,
            cf,
            start,
            end,
            snap.snapshot_id,
            &snap.commit_ts_map,
            &active,
        );
        collect_range(
            &mut found,
            &self.store.recent_flush.cache.entries,
            cf,
            start,
            end,
            snap.snapshot_id,
            &snap.commit_ts_map,
            &active,
        );
        match self.store.l2.collect(cf, &KeySpan::Range(start, end)) {
            LayerRead::Done(v) => {
                collect_range(
                    &mut found,
                    &v,
                    cf,
                    start,
                    end,
                    snap.snapshot_id,
                    &snap.commit_ts_map,
                    &active,
                );
            },
            LayerRead::Need(name) => {
                return Read::Need { layer: Layer::L2, cf, name };
            },
        }
        match self.store.l3.collect(cf, &KeySpan::Range(start, end)) {
            LayerRead::Done(v) => {
                collect_range(
                    &mut found,
                    &v,
                    cf,
                    start,
                    end,
                    snap.snapshot_id,
                    &snap.commit_ts_map,
                    &active,
                );
            },
            LayerRead::Need(name) => {
                return Read::Need { layer: Layer::L3, cf, name };
            },
        }
        assert(entry_models(found@) =~= candidates(self.store, snap@, cf, span));
        let list = newest_per_key(&found);
        let pairs = live_pairs(&list);
        proof {
            assert(newest_listed(candidates(self.store, snap@, cf, span), list_model(list@)));
            assert(scanned(candidates(self.store, snap@, cf, span), pairs_model(pairs@)));
        }
        Read::Done(pairs)
    }

    /// Whether the WAL has reached the size at which a commit triggers a
    /// checkpoint.
    pub fn checkpoint_due(&self, wal_size: u64) -> (r: bool)
        ensures
            r == (self.config.checkpoint_wal_size_threshold > 0 && wal_size
                >= self.config.checkpoint_wal_size_threshold),
    {
        self.config.checkpoint_wal_size_threshold > 0 && wal_size
            >= self.config.checkpoint_wal_size_threshold
    }

    /// Whether L2 has reached the number of patches at which a commit
    /// triggers a compaction.
    pub fn compaction_due(&self, patch_count: usize) -> (r: bool)
        ensures
            r == (self.config.l2_compaction_threshold > 0 && patch_count
                >= self.config.l2_compaction_threshold),
    {
        self.config.l2_compaction_threshold > 0 && FlushEngine::try_compact(
            patch_count,
            self.config.l2_compaction_threshold,
        )
    }

    /// The watermark for GC: the smallest transaction that is active, or was
    /// when a transaction that is still active took its snapshot. Whatever
    /// lies below it had ended before any of these snapshots was taken.
    /// `u64::MAX` when nothing is active.
    pub fn gc_watermark(&self) -> (r: TxnId)
        requires
            self.wf(),
        ensures
            is_gc_watermark(self.mvcc@.active.dom(), self.txn_snapshots@, r),
    {
        let mut low: TxnId = self.mvcc.oldest_active_begin_ts();
        let ids = sorted_keys(&self.txn_snapshots);
        let ghost active = self.mvcc@.active.dom();
        let ghost snaps = self.txn_snapshots@;
        proof {
            assert forall|t: TxnId| #[trigger] active.contains(t) implies low <= t by {
                assert(self.mvcc.active_txns@.contains_key(t));
                assert(self.mvcc@.active.contains_key(t));
            }
            if low != u64::MAX {
                let t = choose|t: TxnId| #[trigger]
                    self.mvcc@.active.contains_key(t) && self.mvcc@.active[t].begin_ts == low;
                assert(self.mvcc.active_txns@.contains_key(t));
                assert(t == low);
                assert(active.contains(low));
            }
        }
        let mut i: usize = 0;
        while i < ids.len()
            invariant
                i <= ids@.len(),
                active == self.mvcc@.active.dom(),
                snaps == self.txn_snapshots@,
                snaps.dom() == active,
                forall|k: u64| ids@.contains(k) <==> #[trigger] snaps.contains_key(k),
                forall|t: TxnId| #[trigger] active.contains(t) ==> low <= t,
                low == u64::MAX || active.contains(low) || exists|t: TxnId|
                    active.contains(t) && (#[trigger] snaps[t])@.active.contains(low),
                forall|j: int, u: TxnId|
                    0 <= j < i && #[trigger] snaps[ids@[j]]@.active.contains(u) ==> low <= u,
            decreases ids@.len() - i,
        {
            let t: TxnId = ids[i];
            assert(ids@.contains(t));
            assert(snaps.contains_key(t));
            assert(snaps.dom().contains(t));
            match self.txn_snapshots.get(&t) {
                Some(s) => {
                    let members = sorted_members(&s.active_txns);
                    assert(s.active_txns@ == snaps[t]@.active);
                    if members.len() > 0 && members[0] < low {
                        low = members[0];
                        proof {
                            assert(members@.contains(members@[0]));
                            assert(snaps[t]@.active.contains(low));
                        }
                    }
                    proof {
                        assert forall|u: TxnId| #[trigger]
                            snaps[ids@[i as int]]@.active.contains(u) implies low <= u by {
                            assert(members@.contains(u));
                            let m = choose|m: int| 0 <= m < members@.len() && members@[m] == u;
                            if m > 0 {
                                assert(members@[0] < members@[m]);
                            }
                        }
                    }
                },
                None => {
                    assert(false);
                },
            }
            i = i + 1;
        }
        proof {
            assert forall|t: TxnId, u: TxnId| active.contains(t) && #[trigger]
                snaps[t]@.active.contains(u) implies low <= u by {
                assert(snaps.contains_key(t));
                assert(ids@.contains(t));
                let j = choose|j: int| 0 <= j < ids@.len() && ids@[j] == t;
                assert(snaps[ids@[j]]@.active.contains(u));
            }
        }
        low
    }

    /// The state that a checkpoint holds.
    pub fn checkpoint_state(&mut self) -> (r: CheckpointState)
        requires
            old(self).wf(),
        ensures
            final(self).wf(),
            goes_on(*old(self), *final(self)),
            r.checkpoint_id == old(self).mvcc@.committed_txn,
            r.committed_txn == old(self).mvcc@.committed_txn,
            r.timestamp_ms >= old(self).mvcc.clock.last_valid,
            r.timestamp_ms == final(self).mvcc.clock.last_valid,
            lists_history(old(self).mvcc@.history, r.committed_history@),
            final(self).mvcc@ == old(self).mvcc@,
            *final(self) == (Z1Kv { mvcc: final(self).mvcc, ..*old(self) }),
    {
        let committed_txn: TxnId = self.mvcc.committed_txn();
        let committed_history = self.mvcc.committed_history_entries();
        let timestamp_ms: u64 = current_timestamp_millis(&mut self.mvcc.clock);
        assert(self.mvcc@ == old(self).mvcc@);
        CheckpointState {
            checkpoint_id: committed_txn,
            committed_txn,
            timestamp_ms,
            committed_history,
        }
    }

    /// The largest insertion time recovered from the WAL.
    pub fn replay_watermark(&self) -> (r: u64)
        ensures
            r == self.mvcc@.replay_watermark,
    {
        self.mvcc.replay_watermark()
    }

    /// The directory that this engine was opened on.
    pub fn data_dir(&self) -> (r: &str)
        ensures
            r@ == self.data_dir@,
    {
        self.data_dir.as_str()
    }

    /// The configuration that this engine was opened with.
    pub fn config(&self) -> (r: &Z1Config)
        ensures
            *r == self.config,
    {
        &self.config
    }

    /// A transaction's (commit timestamp, insertion time) in the history.
    pub fn committed_entry(&self, txn_id: TxnId) -> (r: Option<(u64, u64)>)
        ensures
            r == (if self.mvcc@.history.contains_key(txn_id) {
                Some(self.mvcc@.history[txn_id])
            } else {
                None
            }),
    {
        self.mvcc.committed_entry(txn_id)
    }
}

/// `r` is what a point read finds.
pub open spec fn reads_key(
    st: FlushEngine,
    snap: SnapshotModel,
    cf: u16,
    key: Seq<u8>,
    r: Read<Option<Vec<u8>>>,
) -> bool {
    match r {
        Read::Done(v) => needed(st, cf, Span::Key(key)) is None && vec_model(v) == read_value(
            candidates(st, snap, cf, Span::Key(key)),
        ),
        Read::Need { layer, cf: c, name } => c == cf && needed(st, cf, Span::Key(key)) == Some(
            (layer, name@),
        ),
    }
}

/// `r` is what a scan finds.
pub open spec fn reads_range(
    st: FlushEngine,
    snap: SnapshotModel,
    cf: u16,
    start: Seq<u8>,
    end: Option<Seq<u8>>,
    r: Read<Vec<(Vec<u8>, Vec<u8>)>>,
) -> bool {
    match r {
        Read::Done(v) => needed(st, cf, Span::Range(start, end)) is None && scanned(
            candidates(st, snap, cf, Span::Range(start, end)),
            pairs_model(v@),
        ),
        Read::Need { layer, cf: c, name } => c == cf && needed(st, cf, Span::Range(start, end))
            == Some((layer, name@)),
    }
}

/// The history and the counters of an engine that was just opened.
pub open spec fn history_restored(
    e: Z1Kv,
    rec: RecoveryResult,
    baseline: (TxnId, Vec<(TxnId, u64)>),
    now_ms: u64,
) -> bool {
    let merged = merged_history(baseline.1@, rec.commit_ts_map@);
    &&& e.mvcc@.history.dom() == merged.dom()
    &&& forall|t: TxnId| #[trigger]
        e.mvcc@.history.contains_key(t) ==> e.mvcc@.history[t] == (
            merged[t],
            recovered_time(rec.inserted_at_map@, t, now_ms),
        )
    &&& is_largest(e.mvcc@.committed_txn, larger(baseline.0, rec.max_seen_committed_txn), merged)
}

/// `m` is the largest of `floor` and the keys of a map.
pub open spec fn is_largest(m: TxnId, floor: TxnId, map: Map<TxnId, u64>) -> bool {
    &&& m >= floor
    &&& forall|t: TxnId| #[trigger] map.contains_key(t) ==> t <= m
    &&& m == floor || map.contains_key(m)
}

/// Replaying these records gives this result.
pub open spec fn recovered_as(rs: Seq<WalModel>, strict: bool, rec: RecoveryResult) -> bool {
    exists|order: Seq<TxnId>| #[trigger]
        recovers(rs, order, Map::<TxnId, Z1Error>::empty(), strict, Ok(rec), Seq::empty())
}

/// The largest transaction in a log; 0 where it is empty.
pub open spec fn top_record_txn(rs: Seq<WalModel>) -> TxnId
    decreases rs.len(),
{
    if rs.len() == 0 {
        0
    } else {
        larger(rs.last().txn_id, top_record_txn(rs.drop_last()))
    }
}

/// `m` is the largest transaction that has left a trace: in the log, in a
/// patch, or as the one that the checkpoint was taken at.
pub open spec fn is_last_known(
    l2: DiskLayer,
    l3: DiskLayer,
    base: TxnId,
    rs: Seq<WalModel>,
    m: TxnId,
) -> bool {
    exists|a: TxnId, b: TxnId|
        #![trigger is_top_txn(l2.cfs@, a), is_top_txn(l3.cfs@, b)]
        is_top_txn(l2.cfs@, a) && is_top_txn(l3.cfs@, b) && m == larger(
            larger(base, top_record_txn(rs)),
            larger(a, b),
        )
}

/// An engine was opened on a log of these records and a checkpoint baseline.
/// Its transaction ids start above all that have left a trace, so that what a
/// transaction without a commit has left is never taken for that of another.
pub open spec fn opened_on(
    e: Z1Kv,
    baseline: (TxnId, Vec<(TxnId, u64)>),
    config: Z1Config,
    rs: Seq<WalModel>,
) -> bool {
    &&& exists|rec: RecoveryResult| #[trigger]
        opened_from(e, rec, baseline, config) && recovered_as(rs, config.strict_mode, rec)
    &&& exists|m: TxnId| #[trigger]
        is_last_known(e.store.l2, e.store.l3, baseline.0, rs, m) && e.txn_counter
            == m.saturating_add(1)
}

/// `base` is what recovery builds on: the baseline of a checkpoint, and nothing
/// without one.
pub open spec fn is_base(
    baseline: Option<(TxnId, Vec<(TxnId, u64)>)>,
    base: (TxnId, Vec<(TxnId, u64)>),
) -> bool {
    match baseline {
        Some(b) => base == b,
        None => base.0 == 0 && base.1@.len() == 0,
    }
}

/// What opening an engine comes to. It fails where the WAL cannot be read,
/// or where the patch numbers are used up.
pub open spec fn opens(
    data_dir: String,
    config: Z1Config,
    wal: WalWriter,
    l2: DiskLayer,
    l3: DiskLayer,
    baseline: (TxnId, Vec<(TxnId, u64)>),
    segments: Seq<Seq<u8>>,
    r: Result<Z1Kv>,
) -> bool {
    let (rs, stop) = replayed(segments, 0);
    match r {
        Ok(e) => {
            &&& stop is End && !patches_used_up(l2, l3)
            &&& e.wf()
            &&& e.data_dir == data_dir
            &&& e.config == config
            &&& e.wal == wal
            &&& e.store.l2 == l2
            &&& e.store.l3 == l3
            &&& e.store.recent_flush.cache@.len() == 0
            &&& e.store.l1.cold@.len() == 0
            &&& e.store.l1.snapshot@.len() == 0
            &&& e.store.l1.flush_threshold == FLUSH_THRESHOLD
            &&& e.store.flush_epoch == 0
            &&& is_first_free_patch(l2, l3, e.store.next_patch_id)
            &&& e.mvcc@.active.dom() == Set::<TxnId>::empty()
            &&& opened_on(e, baseline, config, rs)
        },
        Err(err) => if patches_used_up(l2, l3) {
            err matches Z1Error::Internal(m) && m@ == "patch numbers are used up"@
        } else {
            exists|cause: Z1Error| #[trigger]
                reports(stop, cause) && (err matches Z1Error::Wal(m) && m@ == unreadable_text(
                    cause,
                ))
        },
    }
}

/// An engine opened on the segments of a log that was written as it should be
/// is opened on what was written: entry by entry, in the order of writing,
/// whatever was left of a further record.
pub open spec fn opens_what_was_written(
    config: Z1Config,
    l2: DiskLayer,
    l3: DiskLayer,
    baseline: (TxnId, Vec<(TxnId, u64)>),
    segments: Seq<Seq<u8>>,
    r: Result<Z1Kv>,
) -> bool {
    forall|logs: Seq<Seq<WalModel>>, tail: Seq<u8>|
        #[trigger] segments_hold(segments, logs, tail) && !patches_used_up(l2, l3) ==> (r matches Ok(
            e,
        ) && opened_on(e, baseline, config, joined(logs, 0)))
}

/// A patch has the largest number there is.
pub open spec fn patches_used_up(l2: DiskLayer, l3: DiskLayer) -> bool {
    is_max_patch(l2.cfs@, u64::MAX) || is_max_patch(l3.cfs@, u64::MAX)
}

/// How a WAL that cannot be read is reported.
pub open spec fn unreadable_text(cause: Z1Error) -> Seq<char> {
    "recovery failed: "@ + ("WAL replay error ("@ + ("fatal ("@ + "WAL reader"@ + "): "@
        + cause.text()) + "): "@ + decimal(0))
}

/// An engine was opened from what recovery gave and a checkpoint baseline.
pub open spec fn opened_from(
    e: Z1Kv,
    rec: RecoveryResult,
    baseline: (TxnId, Vec<(TxnId, u64)>),
    config: Z1Config,
) -> bool {
    &&& exists|now_ms: u64| #[trigger] history_restored(e, rec, baseline, now_ms)
    &&& e.mvcc@.config == config.visibility
    &&& e.mvcc@.replay_watermark == rec.replay_watermark
    &&& e.store.l1.hot@ == all_upserted(
        Seq::empty(),
        replayed_versions(puts_model(rec.committed_puts@)),
    )
    &&& e.store.l1.hot_size_bytes == grown(
        0,
        replayed_versions(puts_model(rec.committed_puts@)),
    )
}

/// The estimated size of a buffer that has taken in these versions.
pub open spec fn grown(size: u64, es: Seq<EntryModel>) -> u64
    decreases es.len(),
{
    if es.len() == 0 {
        size
    } else {
        grown(size, es.drop_last()).wrapping_add(estimated(es.last()))
    }
}

/// `t` is one of the first `n` ids.
spec fn among(ids: Seq<u64>, n: int, t: u64) -> bool {
    exists|j: int| 0 <= j < n && #[trigger] ids[j] == t
}

/// A merged history, as pairs.
fn merge_history(base: &Vec<(TxnId, u64)>, wal: &HashMap<TxnId, u64>) -> (r: Vec<(TxnId, u64)>)
    ensures
        lists_map(merged_history(base@, wal@), r@),
{
    let mut merged: BTreeMap<u64, u64> = BTreeMap::new();
    let mut i: usize = 0;
    assert(base@.take(0) =~= Seq::<(TxnId, u64)>::empty());
    assert(merged@ =~= listed_map(base@.take(0)));
    while i < base.len()
        invariant
            i <= base@.len(),
            merged@ == listed_map(base@.take(i as int)),
        decreases base@.len() - i,
    {
        let (t, ts) = base[i];
        merged.insert(t, ts);
        assert(base@.take(i + 1).drop_last() =~= base@.take(i as int));
        i = i + 1;
    }
    assert(base@.take(i as int) =~= base@);
    let ids = crate::maps::hash_keys(wal);
    let mut i: usize = 0;
    while i < ids.len()
        invariant
            i <= ids@.len(),
            forall|k: u64| ids@.contains(k) <==> #[trigger] wal@.contains_key(k),
            forall|t: TxnId| #[trigger]
                merged@.contains_key(t) <==> listed_map(base@).contains_key(t) || among(
                    ids@,
                    i as int,
                    t,
                ),
            forall|t: TxnId| #[trigger]
                merged@.contains_key(t) ==> merged@[t] == (if among(ids@, i as int, t) {
                    wal@[t]
                } else {
                    listed_map(base@)[t]
                }),
        decreases ids@.len() - i,
    {
        let t: u64 = ids[i];
        let ghost m0 = merged@;
        assert(ids@.contains(t));
        assert(wal@.contains_key(t));
        match wal.get(&t) {
            Some(ts) => {
                merged.insert(t, *ts);
            },
            None => {
                assert(false);
            },
        }
        proof {
            assert forall|u: TxnId| #[trigger]
                among(ids@, i + 1, u) <==> (u == t || among(ids@, i as int, u)) by {
                if among(ids@, i as int, u) {
                    let j = choose|j: int| 0 <= j < i && #[trigger] ids@[j] == u;
                    assert(ids@[j] == u);
                }
                if u == t {
                    assert(ids@[i as int] == u);
                }
            }
        }
        i = i + 1;
    }
    let keys = sorted_keys(&merged);
    let mut out: Vec<(TxnId, u64)> = Vec::new();
    let mut k: usize = 0;
    while k < keys.len()
        invariant
            k <= keys@.len(),
            out@.len() == k,
            forall|t: u64| keys@.contains(t) <==> #[trigger] merged@.contains_key(t),
            forall|j: int|
                0 <= j < k ==> (#[trigger] out@[j]).0 == keys@[j] && out@[j].1 == merged@[keys@[j]],
        decreases keys@.len() - k,
    {
        let t: u64 = keys[k];
        assert(keys@.contains(t));
        match merged.get(&t) {
            Some(ts) => {
                out.push((t, *ts));
            },
            None => {
                assert(false);
            },
        }
        k = k + 1;
    }
    proof {
        let want = merged_history(base@, wal@);
        assert forall|t: TxnId| merged@.contains_key(t) <==> #[trigger] want.contains_key(t) by {
            if wal@.contains_key(t) {
                assert(ids@.contains(t));
                let j = choose|j: int| 0 <= j < ids@.len() && ids@[j] == t;
                assert(ids@[j] == t);
            }
            if among(ids@, i as int, t) {
                let j = choose|j: int| 0 <= j < i && #[trigger] ids@[j] == t;
                assert(ids@.contains(t));
                assert(wal@.contains_key(t));
            }
        }
        assert forall|t: TxnId| merged@.contains_key(t) implies merged@[t] == #[trigger] want[t] by {
            if wal@.contains_key(t) {
                assert(ids@.contains(t));
                let j = choose|j: int| 0 <= j < ids@.len() && ids@[j] == t;
                assert(ids@[j] == t);
            } else if among(ids@, i as int, t) {
                let j = choose|j: int| 0 <= j < i && #[trigger] ids@[j] == t;
                assert(ids@.contains(t));
                assert(wal@.contains_key(t));
            }
        }
        assert forall|j: int| 0 <= j < out@.len() implies want.contains_key((#[trigger] out@[j]).0)
            && out@[j].1 == want[out@[j].0] by {
            assert(keys@.contains(keys@[j]));
            assert(merged@.contains_key(keys@[j]));
        }
        assert forall|t: TxnId| #[trigger] want.contains_key(t) implies exists|j: int|
            0 <= j < out@.len() && (#[trigger] out@[j]).0 == t by {
            assert(merged@.contains_key(t));
            assert(keys@.contains(t));
            let j = choose|j: int| 0 <= j < keys@.len() && keys@[j] == t;
            assert(out@[j].0 == t);
        }
    }
    out
}

/// `list` holds exactly the pairs of a map, in some order.
pub open spec fn lists_map(m: Map<TxnId, u64>, list: Seq<(TxnId, u64)>) -> bool {
    &&& forall|j: int|
        0 <= j < list.len() ==> m.contains_key((#[trigger] list[j]).0) && list[j].1 == m[list[j].0]
    &&& forall|t: TxnId| #[trigger]
        m.contains_key(t) ==> exists|j: int| 0 <= j < list.len() && (#[trigger] list[j]).0 == t
}

/// Recovering from a list of a map's pairs gives the map, with insertion
/// times.
proof fn lemma_recovered_list(
    list: Seq<(TxnId, u64)>,
    m: Map<TxnId, u64>,
    wal: Map<TxnId, u64>,
    now_ms: u64,
    floor: TxnId,
)
    requires
        lists_map(m, list),
    ensures
        recovered_history(list, wal, now_ms).dom() == m.dom(),
        forall|t: TxnId| #[trigger]
            recovered_history(list, wal, now_ms).contains_key(t) ==> recovered_history(
                list,
                wal,
                now_ms,
            )[t] == (m[t], recovered_time(wal, t, now_ms)),
        is_largest(crate::mvcc::visibility::max_txn_of(list, floor), floor, m),
{
    lemma_recovered_prefix(list, m, wal, now_ms, floor, list.len() as int);
    assert(list.take(list.len() as int) =~= list);
    let h = recovered_history(list, wal, now_ms);
    assert forall|t: TxnId| h.contains_key(t) == m.contains_key(t) by {
        if m.contains_key(t) {
            let j = choose|j: int| 0 <= j < list.len() && (#[trigger] list[j]).0 == t;
            assert(list[j].0 == t);
        }
    }
    assert(h.dom() =~= m.dom());
    let top = crate::mvcc::visibility::max_txn_of(list, floor);
    assert forall|t: TxnId| #[trigger] m.contains_key(t) implies t <= top by {
        let j = choose|j: int| 0 <= j < list.len() && (#[trigger] list[j]).0 == t;
        assert(list[j].0 == t);
    }
}

proof fn lemma_recovered_prefix(
    list: Seq<(TxnId, u64)>,
    m: Map<TxnId, u64>,
    wal: Map<TxnId, u64>,
    now_ms: u64,
    floor: TxnId,
    k: int,
)
    requires
        lists_map(m, list),
        0 <= k <= list.len(),
    ensures
        ({
            let h = recovered_history(list.take(k), wal, now_ms);
            let top = crate::mvcc::visibility::max_txn_of(list.take(k), floor);
            &&& forall|t: TxnId| #[trigger]
                h.contains_key(t) <==> exists|j: int| 0 <= j < k && (#[trigger] list[j]).0 == t
            &&& forall|t: TxnId| #[trigger]
                h.contains_key(t) ==> m.contains_key(t) && h[t] == (
                    m[t],
                    recovered_time(wal, t, now_ms),
                )
            &&& top >= floor
            &&& forall|j: int| 0 <= j < k ==> (#[trigger] list[j]).0 <= top
            &&& top == floor || m.contains_key(top)
        }),
    decreases k,
{
    if k > 0 {
        lemma_recovered_prefix(list, m, wal, now_ms, floor, k - 1);
        let rest = list.take(k - 1);
        let now = list.take(k);
        assert(now.drop_last() =~= rest);
        assert(now.last() == list[k - 1]);
        let h0 = recovered_history(rest, wal, now_ms);
        let h = recovered_history(now, wal, now_ms);
        assert(m.contains_key(list[k - 1].0) && list[k - 1].1 == m[list[k - 1].0]);
        assert forall|t: TxnId| #[trigger] h.contains_key(t) <==> exists|j: int|
            0 <= j < k && (#[trigger] list[j]).0 == t by {
            if h0.contains_key(t) {
                let j = choose|j: int| 0 <= j < k - 1 && (#[trigger] list[j]).0 == t;
                assert(list[j].0 == t);
            }
            if t == list[k - 1].0 {
                assert(list[k - 1].0 == t);
            }
        }
    } else {
        assert(list.take(0) =~= Seq::<(TxnId, u64)>::empty());
    }
}

/// Without failures no recovery ends early.
proof fn lemma_no_failures(rs: Seq<WalModel>, order: Seq<TxnId>, strict: bool)
    ensures
        restored(rs, order, Map::empty(), strict).1 is None,
        restored(rs, order, Map::empty(), strict).0.lost.len() == 0,
    decreases order.len(),
{
    if order.len() > 0 {
        lemma_no_failures(rs, order.drop_last(), strict);
    }
}

/// Where a patch number is free, the numbers are not used up.
proof fn lemma_patch_is_free(l2: DiskLayer, l3: DiskLayer, id: u64)
    requires
        is_first_free_patch(l2, l3, id),
    ensures
        !patches_used_up(l2, l3),
{
}

/// The largest transaction in a log.
fn top_record(records: &Vec<WalEntry>) -> (r: TxnId)
    ensures
        r == top_record_txn(wal_models(records@)),
{
    let ghost all = wal_models(records@);
    let mut m: TxnId = 0;
    let mut i: usize = 0;
    assert(all.take(0) =~= Seq::<WalModel>::empty());
    while i < records.len()
        invariant
            i <= records@.len(),
            all == wal_models(records@),
            m == top_record_txn(all.take(i as int)),
        decreases records@.len() - i,
    {
        proof {
            assert(all.take(i + 1).drop_last() =~= all.take(i as int));
            assert(all.take(i + 1).last() == records@[i as int]@);
        }
        if records[i].txn_id > m {
            m = records[i].txn_id;
        }
        i = i + 1;
    }
    assert(all.take(i as int) =~= all);
    m
}

/// Put replayed writes into a memstore.
fn replay_into(l1: &mut MemStore, puts: &Vec<(TxnId, WalRecord)>)
    requires
        old(l1).wf(),
    ensures
        final(l1).wf(),
        final(l1).hot@ == all_upserted(old(l1).hot@, replayed_versions(puts_model(puts@))),
        final(l1).hot_size_bytes == grown(
            old(l1).hot_size_bytes,
            replayed_versions(puts_model(puts@)),
        ),
        *final(l1) == (MemStore {
            hot: final(l1).hot,
            hot_size_bytes: final(l1).hot_size_bytes,
            ..*old(l1)
        }),
{
    let ghost all = replayed_versions(puts_model(puts@));
    let mut i: usize = 0;
    assert(all.take(0) =~= Seq::<EntryModel>::empty());
    while i < puts.len()
        invariant
            i <= puts@.len(),
            all == replayed_versions(puts_model(puts@)),
            l1.wf(),
            l1.hot@ == all_upserted(old(l1).hot@, all.take(i as int)),
            l1.hot_size_bytes == grown(old(l1).hot_size_bytes, all.take(i as int)),
            *l1 == (MemStore { hot: l1.hot, hot_size_bytes: l1.hot_size_bytes, ..*old(l1) }),
        decreases puts@.len() - i,
    {
        let t: TxnId = puts[i].0;
        let entry = match &puts[i].1 {
            WalRecord::Put { cf, key, value } => {
                let zk = Z1Key::new(*cf, copy_bytes(key.as_slice()));
                match value {
                    Some(v) => Z1Entry::put(zk, t, copy_bytes(v.as_slice()), 0),
                    None => Z1Entry::tombstone(zk, t, 0),
                }
            },
            _ => {
                let none: Vec<u8> = Vec::new();
                assert(none@ =~= Seq::<u8>::empty());
                Z1Entry::tombstone(Z1Key::new(0, none), t, 0)
            },
        };
        proof {
            assert(all[i as int] == replayed_version((t, puts@[i as int].1@)));
            assert(entry@ =~= all[i as int]);
            assert(all.take(i + 1).drop_last() =~= all.take(i as int));
        }
        l1.replay_put(entry);
        i = i + 1;
    }
    assert(all.take(i as int) =~= all);
}

/// The keys with a value, in order.
fn live_pairs(list: &Vec<(Vec<u8>, Z1Entry)>) -> (r: Vec<(Vec<u8>, Vec<u8>)>)
    ensures
        pairs_model(r@) == live(list_model(list@)),
{
    let ghost all = list_model(list@);
    let mut out: Vec<(Vec<u8>, Vec<u8>)> = Vec::new();
    let mut i: usize = 0;
    assert(all.take(0) =~= Seq::<(Seq<u8>, EntryModel)>::empty());
    assert(pairs_model(out@) =~= Seq::<(Seq<u8>, Seq<u8>)>::empty());
    while i < list.len()
        invariant
            i <= list@.len(),
            all == list_model(list@),
            pairs_model(out@) == live(all.take(i as int)),
        decreases list@.len() - i,
    {
        proof {
            assert(all.take(i + 1).drop_last() =~= all.take(i as int));
            assert(all.take(i + 1).last() == (list@[i as int].0@, list@[i as int].1@));
        }
        match &list[i].1.value {
            Some(v) => {
                let ghost out0 = out@;
                let pair = (copy_bytes(list[i].0.as_slice()), copy_bytes(v.as_slice()));
                out.push(pair);
                assert(pairs_model(out@) =~= pairs_model(out0).push((pair.0@, pair.1@)));
            },
            None => {},
        }
        i = i + 1;
    }
    assert(all.take(i as int) =~= all);
    out
}

/// Reads and writes of a transaction do not change what a snapshot shows.
proof fn lemma_same_snapshot(before: ManagerModel, after: ManagerModel)
    requires
        after.committed_txn == before.committed_txn,
        after.history == before.history,
        after.active.dom() == before.active.dom(),
    ensures
        forall|c: SnapshotCache| fresh_for(c, before) ==> fresh_for(c, after),
{
}

proof fn lemma_committed_ok(
    before: VisibilityManager,
    txn_id: TxnId,
    inserted_at: u64,
    a: Result<()>,
    b: Result<()>,
    after: VisibilityManager,
)
    requires
        committed(before, txn_id, inserted_at, a, after),
        a is Ok,
        b is Ok,
    ensures
        committed(before, txn_id, inserted_at, b, after),
{
}

proof fn lemma_begin_text(t: TxnId, m: Seq<char>, text: Seq<char>, taken: bool)
    requires
        m == "begin_txn failed: "@ + text,
        text == "MVCC conflict: "@ + ("transaction "@ + decimal(t as nat) + (if taken {
            " already committed"@
        } else {
            " already active"@
        })),
    ensures
        taken ==> m == "begin_txn failed: MVCC conflict: "@ + "transaction "@ + decimal(t as nat)
            + " already committed"@,
        !taken ==> m == "begin_txn failed: MVCC conflict: "@ + "transaction "@ + decimal(t as nat)
            + " already active"@,
{
    reveal_strlit("begin_txn failed: ");
    reveal_strlit("MVCC conflict: ");
    reveal_strlit("begin_txn failed: MVCC conflict: ");
    assert("begin_txn failed: MVCC conflict: "@ =~= "begin_txn failed: "@ + "MVCC conflict: "@);
    if taken {
        assert(m =~= "begin_txn failed: MVCC conflict: "@ + "transaction "@ + decimal(t as nat)
            + " already committed"@);
    } else {
        assert(m =~= "begin_txn failed: MVCC conflict: "@ + "transaction "@ + decimal(t as nat)
            + " already active"@);
    }
}

} // verus!
