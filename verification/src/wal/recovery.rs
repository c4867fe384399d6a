//! WAL recovery: grouping, error classification, and what is restored.
//!
//! 1. Scan: the records of all segments are read in order.
//! 2. Group: writes are gathered by transaction; a rollback drops what its
//!    transaction has gathered.
//! 3. Replay: the writes of every committed transaction are applied, by
//!    ascending transaction.
//!
//! Transactions without a commit record are discarded. A transaction that
//! cannot be applied is skipped without touching the others; a fatal error
//! ends the recovery, and in strict mode so does a corrupt record.

use crate::error::{IoErrorKind, Result, Z1Error};
use crate::maps::{sorted_keys, strictly_ascending};
use crate::metrics::{count_in, handle_degrade, DegradeCounts};
use crate::text::{copy_str, decimal, push_decimal};
use crate::wal::record::{
    lemma_wal_models_push, wal_models, RecordModel, WalEntry, WalModel, WalRecord,
};
use crate::wal::replay::{joined, replay_all, replayed, seg_models, segments_hold};
use crate::TxnId;
use core::ops::ControlFlow;
use std::collections::{BTreeMap, BTreeSet, HashMap};
use vstd::prelude::*;

verus! {

broadcast use {
    vstd::std_specs::btree::group_btree_axioms,
    vstd::std_specs::hash::group_hash_axioms,
    vstd::laws_cmp::group_laws_cmp,
};

#[derive(Debug, Clone, Copy, PartialEq, Eq, Structural)]
pub enum RecoverableReason {
    AlreadyExists,
    PermissionDenied,
    Unknown,
}

impl RecoverableReason {
    pub open spec fn text(self) -> Seq<char> {
        match self {
            RecoverableReason::AlreadyExists => "AlreadyExists"@,
            RecoverableReason::PermissionDenied => "PermissionDenied"@,
            RecoverableReason::Unknown => "Unknown"@,
        }
    }

    pub fn to_text(&self) -> (r: String)
        ensures
            r@ == self.text(),
    {
        match self {
            RecoverableReason::AlreadyExists => copy_str("AlreadyExists"),
            RecoverableReason::PermissionDenied => copy_str("PermissionDenied"),
            RecoverableReason::Unknown => copy_str("Unknown"),
        }
    }
}

#[derive(Debug, Clone, Copy, PartialEq, Eq, Structural)]
pub enum CorruptionLocation {
    Deserialize,
    Unknown,
}

impl CorruptionLocation {
    pub open spec fn text(self) -> Seq<char> {
        match self {
            CorruptionLocation::Deserialize => "Deserialize"@,
            CorruptionLocation::Unknown => "Unknown"@,
        }
    }

    pub fn to_text(&self) -> (r: String)
        ensures
            r@ == self.text(),
    {
        match self {
            CorruptionLocation::Deserialize => copy_str("Deserialize"),
            CorruptionLocation::Unknown => copy_str("Unknown"),
        }
    }
}

/// Severity of a replay error.
#[derive(Debug)]
pub enum ReplayErrorKind {
    /// Safe to skip: the data is already durable.
    Recoverable { reason: RecoverableReason, detail: String },
    /// A payload of another format: safe to skip.
    Ambiguous { detail: String },
    /// A corrupt record: the transaction is skipped and reported.
    Corruption { location: CorruptionLocation, detail: String },
    /// The recovery cannot go on.
    Fatal { io_kind: String, detail: String },
}

/// Two kinds with the same content.
pub open spec fn same_kind(a: ReplayErrorKind, b: ReplayErrorKind) -> bool {
    match (a, b) {
        (
            ReplayErrorKind::Recoverable { reason: x, detail: d },
            ReplayErrorKind::Recoverable { reason: y, detail: e },
        ) => x == y && d@ == e@,
        (ReplayErrorKind::Ambiguous { detail: d }, ReplayErrorKind::Ambiguous { detail: e }) => d@
            == e@,
        (
            ReplayErrorKind::Corruption { location: x, detail: d },
            ReplayErrorKind::Corruption { location: y, detail: e },
        ) => x == y && d@ == e@,
        (
            ReplayErrorKind::Fatal { io_kind: x, detail: d },
            ReplayErrorKind::Fatal { io_kind: y, detail: e },
        ) => x@ == y@ && d@ == e@,
        _ => false,
    }
}

impl Clone for ReplayErrorKind {
    fn clone(&self) -> (r: Self)
        ensures
            same_kind(*self, r),
    {
        match self {
            ReplayErrorKind::Recoverable { reason, detail } => ReplayErrorKind::Recoverable {
                reason: *reason,
                detail: copy_str(detail.as_str()),
            },
            ReplayErrorKind::Ambiguous { detail } => ReplayErrorKind::Ambiguous {
                detail: copy_str(detail.as_str()),
            },
            ReplayErrorKind::Corruption { location, detail } => ReplayErrorKind::Corruption {
                location: *location,
                detail: copy_str(detail.as_str()),
            },
            ReplayErrorKind::Fatal { io_kind, detail } => ReplayErrorKind::Fatal {
                io_kind: copy_str(io_kind.as_str()),
                detail: copy_str(detail.as_str()),
            },
        }
    }
}

impl ReplayErrorKind {
    pub open spec fn text(self) -> Seq<char> {
        match self {
            ReplayErrorKind::Recoverable { reason, detail } => "recoverable ("@ + reason.text()
                + "): "@ + detail@,
            ReplayErrorKind::Ambiguous { detail } => "ambiguous: "@ + detail@,
            ReplayErrorKind::Corruption { location, detail } => "corruption ("@ + location.text()
                + "): "@ + detail@,
            ReplayErrorKind::Fatal { io_kind, detail } => "fatal ("@ + io_kind@ + "): "@ + detail@,
        }
    }

    pub fn to_text(&self) -> (r: String)
        ensures
            r@ == self.text(),
    {
        match self {
            ReplayErrorKind::Recoverable { reason, detail } => {
                let mut s = copy_str("recoverable (");
                s.append(reason.to_text().as_str());
                s.append("): ");
                s.append(detail.as_str());
                s
            },
            ReplayErrorKind::Ambiguous { detail } => {
                let mut s = copy_str("ambiguous: ");
                s.append(detail.as_str());
                s
            },
            ReplayErrorKind::Corruption { location, detail } => {
                let mut s = copy_str("corruption (");
                s.append(location.to_text().as_str());
                s.append("): ");
                s.append(detail.as_str());
                s
            },
            ReplayErrorKind::Fatal { io_kind, detail } => {
                let mut s = copy_str("fatal (");
                s.append(io_kind.as_str());
                s.append("): ");
                s.append(detail.as_str());
                s
            },
        }
    }
}

/// A replay error: its kind, and the transaction it came up in.
#[derive(Debug)]
pub struct ReplayError {
    pub kind: ReplayErrorKind,
    pub txn_id: TxnId,
}

impl ReplayError {
    pub open spec fn text(self) -> Seq<char> {
        "WAL replay error ("@ + self.kind.text() + "): "@ + decimal(self.txn_id as nat)
    }

    pub fn to_text(&self) -> (r: String)
        ensures
            r@ == self.text(),
    {
        let mut s = copy_str("WAL replay error (");
        s.append(self.kind.to_text().as_str());
        s.append("): ");
        push_decimal(&mut s, self.txn_id);
        s
    }
}

/// What a recovery restores.
#[derive(Debug)]
pub struct RecoveryResult {
    /// The largest committed transaction that was replayed.
    pub last_committed_txn: TxnId,
    /// The largest committed transaction in the WAL, replayed or not.
    pub max_seen_committed_txn: TxnId,
    /// Number of committed transactions that were replayed.
    pub committed_count: usize,
    /// Number of uncommitted transactions that were discarded.
    pub discarded_count: usize,
    /// Replayed transaction -> commit timestamp.
    pub commit_ts_map: HashMap<TxnId, u64>,
    /// Committed transaction -> insertion time carried by the WAL.
    pub inserted_at_map: HashMap<TxnId, u64>,
    /// The largest insertion time in the WAL.
    pub replay_watermark: u64,
    /// The writes of the replayed transactions, by ascending transaction.
    pub committed_puts: Vec<(TxnId, WalRecord)>,
}

/// Nothing restored.
impl Default for RecoveryResult {
    fn default() -> (r: Self)
        ensures
            r.last_committed_txn == 0,
            r.max_seen_committed_txn == 0,
            r.committed_count == 0,
            r.discarded_count == 0,
            r.commit_ts_map@ == Map::<TxnId, u64>::empty(),
            r.inserted_at_map@ == Map::<TxnId, u64>::empty(),
            r.replay_watermark == 0,
            r.committed_puts@.len() == 0,
    {
        RecoveryResult {
            last_committed_txn: 0,
            max_seen_committed_txn: 0,
            committed_count: 0,
            discarded_count: 0,
            commit_ts_map: HashMap::new(),
            inserted_at_map: HashMap::new(),
            replay_watermark: 0,
            committed_puts: Vec::new(),
        }
    }
}

/// `kind` is the class of an error met while applying a write: damaged data
/// is corruption; a file that exists already or may not be touched can be
/// passed over; any other I/O error is fatal; anything else is ambiguous.
pub open spec fn classifies(kind: ReplayErrorKind, err: Z1Error) -> bool {
    match err {
        Z1Error::Deserialize(_) => kind matches ReplayErrorKind::Corruption { location, detail }
            && location == CorruptionLocation::Deserialize && detail@ == err.text(),
        Z1Error::Io(e) => match e.kind {
            IoErrorKind::AlreadyExists => kind matches ReplayErrorKind::Recoverable {
                reason,
                detail,
            } && reason == RecoverableReason::AlreadyExists && detail@ == err.text(),
            IoErrorKind::PermissionDenied => kind matches ReplayErrorKind::Recoverable {
                reason,
                detail,
            } && reason == RecoverableReason::PermissionDenied && detail@ == err.text(),
            other => kind matches ReplayErrorKind::Fatal { io_kind, detail } && io_kind@
                == other.name() && detail@ == err.text(),
        },
        _ => kind matches ReplayErrorKind::Ambiguous { detail } && detail@ == err.text(),
    }
}

/// Classify an error met while applying a write.
pub fn classify_apply_error(err: &Z1Error, _txn_id: TxnId) -> (r: ReplayErrorKind)
    ensures
        classifies(r, *err),
{
    let detail = err.to_text();
    match err {
        Z1Error::Deserialize(_) => ReplayErrorKind::Corruption {
            location: CorruptionLocation::Deserialize,
            detail,
        },
        Z1Error::Io(e) => match &e.kind {
            IoErrorKind::AlreadyExists => ReplayErrorKind::Recoverable {
                reason: RecoverableReason::AlreadyExists,
                detail,
            },
            IoErrorKind::PermissionDenied => ReplayErrorKind::Recoverable {
                reason: RecoverableReason::PermissionDenied,
                detail,
            },
            other => ReplayErrorKind::Fatal { io_kind: other.to_name(), detail },
        },
        _ => ReplayErrorKind::Ambiguous { detail },
    }
}

/// An error that ends the recovery.
pub open spec fn aborts(err: Z1Error, strict: bool) -> bool {
    match err {
        Z1Error::Deserialize(_) => strict,
        Z1Error::Io(e) => !(e.kind is AlreadyExists || e.kind is PermissionDenied),
        _ => false,
    }
}

/// Whether an error ends the recovery.
fn is_aborting(err: &Z1Error, strict: bool) -> (r: bool)
    ensures
        r == aborts(*err, strict),
{
    match err {
        Z1Error::Deserialize(_) => strict,
        Z1Error::Io(e) => match &e.kind {
            IoErrorKind::AlreadyExists => false,
            IoErrorKind::PermissionDenied => false,
            _ => true,
        },
        _ => false,
    }
}

/// What transaction `t` has pending after these records: its writes since its
/// last rollback, or nothing where it has neither begun nor written since.
pub open spec fn pending_of(rs: Seq<WalModel>, t: TxnId) -> Option<Seq<WalModel>>
    decreases rs.len(),
{
    if rs.len() == 0 {
        None
    } else {
        let before = pending_of(rs.drop_last(), t);
        let e = rs.last();
        if e.txn_id != t {
            before
        } else {
            let ops = match before {
                Some(ops) => ops,
                None => Seq::empty(),
            };
            match e.record {
                RecordModel::Put { .. } => Some(ops.push(e)),
                RecordModel::Begin => Some(ops),
                RecordModel::Rollback => None,
                _ => before,
            }
        }
    }
}

/// The commit of transaction `t`: commit timestamp and insertion time.
pub open spec fn commit_of(rs: Seq<WalModel>, t: TxnId) -> Option<(u64, u64)>
    decreases rs.len(),
{
    if rs.len() == 0 {
        None
    } else {
        match rs.last().record {
            RecordModel::Commit { commit_ts, inserted_at } => if rs.last().txn_id == t {
                Some((commit_ts, inserted_at))
            } else {
                commit_of(rs.drop_last(), t)
            },
            _ => commit_of(rs.drop_last(), t),
        }
    }
}

/// Transaction `t` has a rollback record.
pub open spec fn rolled_back(rs: Seq<WalModel>, t: TxnId) -> bool
    decreases rs.len(),
{
    rs.len() > 0 && ((rs.last().record is Rollback && rs.last().txn_id == t) || rolled_back(
        rs.drop_last(),
        t,
    ))
}

/// What is replayed of transaction `t` once it has committed: what it has
/// pending. That may be nothing: its writes can have left the log with a
/// checkpoint. A transaction that was rolled back is not replayed.
pub open spec fn replay_of(rs: Seq<WalModel>, t: TxnId) -> Option<Seq<WalModel>> {
    match pending_of(rs, t) {
        Some(ops) => Some(ops),
        None => if rolled_back(rs, t) {
            None
        } else {
            Some(Seq::empty())
        },
    }
}

/// The largest committed transaction; 0 where nothing has committed.
pub open spec fn max_committed(rs: Seq<WalModel>) -> TxnId
    decreases rs.len(),
{
    if rs.len() == 0 {
        0
    } else {
        let before = max_committed(rs.drop_last());
        if rs.last().record is Commit && rs.last().txn_id > before {
            rs.last().txn_id
        } else {
            before
        }
    }
}

/// The largest insertion time of a commit; 0 where nothing has committed.
pub open spec fn max_inserted(rs: Seq<WalModel>) -> u64
    decreases rs.len(),
{
    if rs.len() == 0 {
        0
    } else {
        let before = max_inserted(rs.drop_last());
        match rs.last().record {
            RecordModel::Commit { inserted_at, .. } => if inserted_at > before {
                inserted_at
            } else {
                before
            },
            _ => before,
        }
    }
}

/// The transactions with something pending that neither committed nor rolled
/// back.
pub open spec fn discarded(rs: Seq<WalModel>) -> Set<TxnId> {
    Set::new(
        |t: TxnId| pending_of(rs, t) is Some && commit_of(rs, t) is None && !rolled_back(rs, t),
    )
}

/// `order` lists the committed transactions, ascending.
pub open spec fn is_commit_order(rs: Seq<WalModel>, order: Seq<TxnId>) -> bool {
    &&& strictly_ascending(order)
    &&& forall|t: TxnId| order.contains(t) <==> (#[trigger] commit_of(rs, t)) is Some
}

/// What the replay of some transactions has restored.
#[verifier::ext_equal]
pub struct Restored {
    pub last: TxnId,
    pub count: nat,
    pub commits: Map<TxnId, u64>,
    pub puts: Seq<(TxnId, RecordModel)>,
    /// Corrupt transactions that were skipped, with the error's text.
    pub lost: Seq<(TxnId, Seq<char>)>,
}

pub open spec fn nothing_restored() -> Restored {
    Restored {
        last: 0,
        count: 0,
        commits: Map::empty(),
        puts: Seq::empty(),
        lost: Seq::empty(),
    }
}

/// The writes of a transaction, labelled with it.
pub open spec fn labelled(t: TxnId, ops: Seq<WalModel>) -> Seq<(TxnId, RecordModel)> {
    ops.map_values(|e: WalModel| (t, e.record))
}

/// One more transaction that was replayed.
pub open spec fn with_txn(r: Restored, t: TxnId, commit_ts: u64, ops: Seq<WalModel>) -> Restored {
    Restored {
        last: if t > r.last {
            t
        } else {
            r.last
        },
        count: r.count + 1,
        commits: r.commits.insert(t, commit_ts),
        puts: r.puts + labelled(t, ops),
        lost: r.lost,
    }
}

/// What the replay of the transactions in `order` restores, where `fails`
/// says which of them could not be applied and why; and the transaction at
/// which the recovery ended, if it did.
pub open spec fn restored(
    rs: Seq<WalModel>,
    order: Seq<TxnId>,
    fails: Map<TxnId, Z1Error>,
    strict: bool,
) -> (Restored, Option<TxnId>)
    decreases order.len(),
{
    if order.len() == 0 {
        (nothing_restored(), None)
    } else {
        let (r, end) = restored(rs, order.drop_last(), fails, strict);
        let t = order.last();
        if end is Some {
            (r, end)
        } else {
            match (replay_of(rs, t), commit_of(rs, t)) {
                (Some(ops), Some((commit_ts, _))) => if !fails.contains_key(t) {
                    (with_txn(r, t, commit_ts, ops), None)
                } else if aborts(fails[t], strict) {
                    (r, Some(t))
                } else if fails[t] is Deserialize {
                    (Restored { lost: r.lost.push((t, fails[t].text())), ..r }, None)
                } else {
                    (r, None)
                },
                _ => (r, None),
            }
        }
    }
}

/// The content of labelled records.
pub open spec fn puts_model(puts: Seq<(TxnId, WalRecord)>) -> Seq<(TxnId, RecordModel)> {
    puts.map_values(|p: (TxnId, WalRecord)| (p.0, p.1@))
}

/// The content of a list of skipped transactions.
pub open spec fn lost_model(lost: Seq<(TxnId, String)>) -> Seq<(TxnId, Seq<char>)> {
    lost.map_values(|p: (TxnId, String)| (p.0, p.1@))
}

/// The insertion times of the committed transactions.
pub open spec fn inserted_times(rs: Seq<WalModel>) -> Map<TxnId, u64> {
    Map::new(|t: TxnId| commit_of(rs, t) is Some, |t: TxnId| (commit_of(rs, t)->0).1)
}

/// `r` is what the recovery of these records gives, where `fails` says which
/// transactions could not be applied and why.
pub open spec fn recovers(
    rs: Seq<WalModel>,
    order: Seq<TxnId>,
    fails: Map<TxnId, Z1Error>,
    strict: bool,
    r: core::result::Result<RecoveryResult, ReplayError>,
    lost: Seq<(TxnId, Seq<char>)>,
) -> bool {
    let (got, end) = restored(rs, order, fails, strict);
    &&& is_commit_order(rs, order)
    &&& lost == got.lost
    &&& match (end, r) {
        (Some(t), Err(e)) => e.txn_id == t && classifies(e.kind, fails[t]),
        (None, Ok(res)) => {
            &&& res.last_committed_txn == got.last
            &&& res.max_seen_committed_txn == max_committed(rs)
            &&& res.committed_count == got.count
            &&& res.discarded_count == discarded(rs).len()
            &&& res.commit_ts_map@ == got.commits
            &&& res.inserted_at_map@ == inserted_times(rs)
            &&& res.replay_watermark == max_inserted(rs)
            &&& puts_model(res.committed_puts@) == got.puts
        },
        _ => false,
    }
}

/// A counter after `n` more increments.
pub open spec fn bumped(c: Option<u64>, n: nat) -> Option<u64>
    decreases n,
{
    if n == 0 {
        c
    } else {
        match bumped(c, (n - 1) as nat) {
            Some(k) => Some(k.wrapping_add(1)),
            None => Some(1),
        }
    }
}

/// `after` counts every skipped corrupt transaction, and nothing else has
/// changed.
pub open spec fn corruption_counted(
    before: DegradeCounts,
    after: DegradeCounts,
    lost: nat,
) -> bool {
    forall|m: Seq<char>| #[trigger]
        count_in(after.counts@, m) == (if m == "wal_record_corrupt"@ {
            bumped(count_in(before.counts@, m), lost)
        } else {
            count_in(before.counts@, m)
        })
}

/// The records of a WAL, gathered by transaction.
pub struct WalScan {
    pub pending: BTreeMap<u64, Vec<WalEntry>>,
    pub commits: BTreeMap<u64, (u64, u64)>,
    pub rolled_back: BTreeSet<u64>,
    pub max_committed: TxnId,
    pub max_inserted: u64,
}

impl WalScan {
    pub open spec fn matches(&self, rs: Seq<WalModel>) -> bool {
        &&& forall|t: TxnId| #[trigger]
            self.pending@.contains_key(t) <==> pending_of(rs, t) is Some
        &&& forall|t: TxnId| #[trigger]
            self.pending@.contains_key(t) ==> pending_of(rs, t) == Some(
                wal_models(self.pending@[t]@),
            )
        &&& forall|t: TxnId| #[trigger]
            self.commits@.contains_key(t) <==> commit_of(rs, t) is Some
        &&& forall|t: TxnId| #[trigger]
            self.commits@.contains_key(t) ==> commit_of(rs, t) == Some(self.commits@[t])
        &&& forall|t: TxnId| #[trigger] self.rolled_back@.contains(t) <==> rolled_back(rs, t)
        &&& self.max_committed == max_committed(rs)
        &&& self.max_inserted == max_inserted(rs)
    }
}

/// Gather the records of a WAL by transaction.
pub fn scan_records(records: &Vec<WalEntry>) -> (r: WalScan)
    ensures
        r.matches(wal_models(records@)),
{
    let mut scan = WalScan {
        pending: BTreeMap::new(),
        commits: BTreeMap::new(),
        rolled_back: BTreeSet::new(),
        max_committed: 0,
        max_inserted: 0,
    };
    let ghost all = wal_models(records@);
    let mut i: usize = 0;
    assert(all.take(0) =~= Seq::<WalModel>::empty());
    while i < records.len()
        invariant
            i <= records@.len(),
            all == wal_models(records@),
            scan.matches(all.take(i as int)),
        decreases records@.len() - i,
    {
        let entry = &records[i];
        let t: u64 = entry.txn_id;
        let ghost rs = all.take(i + 1);
        let ghost rs0 = all.take(i as int);
        proof {
            assert(rs.drop_last() =~= rs0);
            assert(rs.last() == entry@);
        }
        match &entry.record {
            WalRecord::Put { .. } => {
                let mut ops = match scan.pending.remove(&t) {
                    Some(v) => v,
                    None => Vec::new(),
                };
                let ghost ops0 = ops@;
                let c = entry.clone();
                ops.push(c);
                proof {
                    lemma_wal_models_push(ops0, c);
                    if pending_of(rs0, t) is None {
                        assert(wal_models(ops0) =~= Seq::<WalModel>::empty());
                    }
                }
                scan.pending.insert(t, ops);
            },
            WalRecord::Begin => {
                let ops = match scan.pending.remove(&t) {
                    Some(v) => v,
                    None => Vec::new(),
                };
                proof {
                    if pending_of(rs0, t) is None {
                        assert(wal_models(ops@) =~= Seq::<WalModel>::empty());
                    }
                }
                scan.pending.insert(t, ops);
            },
            WalRecord::Commit { commit_ts, inserted_at } => {
                scan.commits.insert(t, (*commit_ts, *inserted_at));
                if *inserted_at > scan.max_inserted {
                    scan.max_inserted = *inserted_at;
                }
                if t > scan.max_committed {
                    scan.max_committed = t;
                }
            },
            WalRecord::Rollback => {
                scan.rolled_back.insert(t);
                scan.pending.remove(&t);
            },
            WalRecord::Checkpoint { .. } => {},
        }
        i = i + 1;
    }
    assert(all.take(i as int) =~= all);
    scan
}

impl WalScan {
    /// The number of transactions that are discarded.
    fn count_discarded(&self, Ghost(rs): Ghost<Seq<WalModel>>) -> (r: usize)
        requires
            self.matches(rs),
        ensures
            r == discarded(rs).len(),
    {
        let ids = sorted_keys(&self.pending);
        let mut n: usize = 0;
        let mut i: usize = 0;
        let ghost mut found: Set<TxnId> = Set::empty();
        while i < ids.len()
            invariant
                i <= ids@.len(),
                n <= i,
                self.matches(rs),
                strictly_ascending(ids@),
                forall|k: u64| ids@.contains(k) <==> #[trigger] self.pending@.contains_key(k),
                found.finite(),
                found.len() == n,
                forall|t: TxnId|
                    found.contains(t) <==> (exists|j: int|
                        0 <= j < i && #[trigger] ids@[j] == t && discarded(rs).contains(t)),
            decreases ids@.len() - i,
        {
            let t: u64 = ids[i];
            assert(ids@.contains(t));
            assert(self.pending@.contains_key(t));
            let ghost found0 = found;
            assert(!found.contains(t)) by {
                if found.contains(t) {
                    let j = choose|j: int|
                        0 <= j < i && #[trigger] ids@[j] == t && discarded(rs).contains(t);
                    assert(ids@[j] < ids@[i as int]);
                }
            }
            if !self.commits.contains_key(&t) && !self.rolled_back.contains(&t) {
                n = n + 1;
                proof {
                    found = found.insert(t);
                }
            }
            proof {
                assert forall|u: TxnId|
                    found.contains(u) <==> (exists|j: int|
                        0 <= j < i + 1 && #[trigger] ids@[j] == u && discarded(rs).contains(u)) by {
                    if found0.contains(u) {
                        let j = choose|j: int|
                            0 <= j < i && #[trigger] ids@[j] == u && discarded(rs).contains(u);
                        assert(ids@[j] == u);
                    }
                    if u == t {
                        assert(ids@[i as int] == u);
                    }
                }
            }
            i = i + 1;
        }
        proof {
            assert forall|t: TxnId| discarded(rs).contains(t) == found.contains(t) by {
                if discarded(rs).contains(t) {
                    assert(self.pending@.contains_key(t));
                    assert(ids@.contains(t));
                    let j = choose|j: int| 0 <= j < ids@.len() && ids@[j] == t;
                    assert(ids@[j] == t);
                }
            }
            assert(discarded(rs) =~= found);
        }
        n
    }

    /// The insertion times of the committed transactions.
    fn collect_inserted(&self, Ghost(rs): Ghost<Seq<WalModel>>) -> (r: HashMap<TxnId, u64>)
        requires
            self.matches(rs),
        ensures
            r@ == inserted_times(rs),
    {
        let ids = sorted_keys(&self.commits);
        let mut out: HashMap<TxnId, u64> = HashMap::new();
        let mut i: usize = 0;
        while i < ids.len()
            invariant
                i <= ids@.len(),
                self.matches(rs),
                forall|k: u64| ids@.contains(k) <==> #[trigger] self.commits@.contains_key(k),
                forall|t: TxnId|
                    out@.contains_key(t) <==> (exists|j: int| 0 <= j < i && #[trigger] ids@[j] == t),
                forall|t: TxnId| #[trigger]
                    out@.contains_key(t) ==> out@[t] == (commit_of(rs, t)->0).1,
            decreases ids@.len() - i,
        {
            let t: u64 = ids[i];
            assert(ids@.contains(t));
            assert(self.commits@.contains_key(t));
            let ghost out0 = out@;
            match self.commits.get(&t) {
                Some(c) => {
                    out.insert(t, c.1);
                },
                None => {
                    assert(false);
                },
            }
            proof {
                assert forall|u: TxnId|
                    out@.contains_key(u) <==> (exists|j: int|
                        0 <= j < i + 1 && #[trigger] ids@[j] == u) by {
                    if out0.contains_key(u) {
                        let j = choose|j: int| 0 <= j < i && #[trigger] ids@[j] == u;
                        assert(ids@[j] == u);
                    }
                    if u == t {
                        assert(ids@[i as int] == u);
                    }
                }
            }
            i = i + 1;
        }
        proof {
            assert forall|t: TxnId| out@.contains_key(t) == inserted_times(rs).contains_key(t) by {
                if commit_of(rs, t) is Some {
                    assert(self.commits@.contains_key(t));
                    assert(ids@.contains(t));
                    let j = choose|j: int| 0 <= j < ids@.len() && ids@[j] == t;
                    assert(ids@[j] == t);
                }
                if out@.contains_key(t) {
                    let j = choose|j: int| 0 <= j < i && #[trigger] ids@[j] == t;
                    assert(ids@.contains(t));
                    assert(self.commits@.contains_key(t));
                }
            }
            assert(out@ =~= inserted_times(rs));
        }
        out
    }
}

/// Append the writes of a transaction, labelled with it.
fn label_ops(out: &mut Vec<(TxnId, WalRecord)>, t: TxnId, ops: &Vec<WalEntry>)
    ensures
        puts_model(final(out)@) == puts_model(old(out)@) + labelled(t, wal_models(ops@)),
{
    let ghost all = wal_models(ops@);
    let ghost before = puts_model(out@);
    let mut i: usize = 0;
    assert(before + labelled(t, all.take(0)) =~= before);
    while i < ops.len()
        invariant
            i <= ops@.len(),
            all == wal_models(ops@),
            puts_model(out@) == before + labelled(t, all.take(i as int)),
        decreases ops@.len() - i,
    {
        let record = ops[i].record.clone();
        let ghost out0 = out@;
        out.push((t, record));
        proof {
            assert(puts_model(out@) =~= puts_model(out0).push((t, record@)));
            assert(labelled(t, all.take(i + 1)) =~= labelled(t, all.take(i as int)).push(
                (t, record@),
            ));
            assert(puts_model(out@) =~= before + labelled(t, all.take(i + 1)));
        }
        i = i + 1;
    }
    assert(all.take(i as int) =~= all);
}

/// Recover from the records of a WAL, where `failures` says which committed
/// transactions could not be applied and why. Returns what is restored, and
/// the corrupt transactions that were skipped.
pub fn recover_records(
    records: &Vec<WalEntry>,
    strict_mode: bool,
    counts: &mut DegradeCounts,
    failures: &BTreeMap<u64, Z1Error>,
) -> (r: (core::result::Result<RecoveryResult, ReplayError>, Vec<(TxnId, String)>))
    requires
        old(counts).wf(),
    ensures
        final(counts).wf(),
        exists|order: Seq<TxnId>| #[trigger]
            recovers(
                wal_models(records@),
                order,
                failures@,
                strict_mode,
                r.0,
                lost_model(r.1@),
            ),
        corruption_counted(*old(counts), *final(counts), r.1@.len()),
{
    let ghost rs = wal_models(records@);
    let scan = scan_records(records);
    let discarded_count: usize = scan.count_discarded(Ghost(rs));
    let inserted_at_map = scan.collect_inserted(Ghost(rs));
    let ids = sorted_keys(&scan.commits);
    let ghost order = ids@;
    let ghost fails = failures@;
    proof {
        assert(is_commit_order(rs, order)) by {
            assert forall|t: TxnId| order.contains(t) <==> (#[trigger] commit_of(rs, t)) is Some by {
                assert(scan.commits@.contains_key(t) <==> commit_of(rs, t) is Some);
            }
        }
    }
    let mut last: TxnId = 0;
    let mut committed_count: usize = 0;
    let mut commit_ts_map: HashMap<TxnId, u64> = HashMap::new();
    let mut committed_puts: Vec<(TxnId, WalRecord)> = Vec::new();
    let mut lost: Vec<(TxnId, String)> = Vec::new();
    let nothing: Vec<WalEntry> = Vec::new();
    let ghost counts0 = *counts;
    let mut i: usize = 0;
    proof {
        assert(order.take(0) =~= Seq::<TxnId>::empty());
        assert(puts_model(committed_puts@) =~= Seq::<(TxnId, RecordModel)>::empty());
        assert(lost_model(lost@) =~= Seq::<(TxnId, Seq<char>)>::empty());
        assert(corruption_counted(counts0, *counts, 0));
    }
    while i < ids.len()
        invariant
            i <= ids@.len(),
            rs == wal_models(records@),
            order == ids@,
            fails == failures@,
            nothing@.len() == 0,
            scan.matches(rs),
            is_commit_order(rs, order),
            forall|k: u64| ids@.contains(k) <==> #[trigger] scan.commits@.contains_key(k),
            committed_count <= i,
            counts.wf(),
            restored(rs, order.take(i as int), fails, strict_mode).1 is None,
            ({
                let got = restored(rs, order.take(i as int), fails, strict_mode).0;
                &&& last == got.last
                &&& committed_count == got.count
                &&& commit_ts_map@ == got.commits
                &&& puts_model(committed_puts@) == got.puts
                &&& lost_model(lost@) == got.lost
            }),
            counts0 == *old(counts),
            corruption_counted(counts0, *counts, lost@.len()),
        decreases ids@.len() - i,
    {
        let t: u64 = ids[i];
        proof {
            assert(ids@.contains(t));
            assert(scan.commits@.contains_key(t));
            assert(order.take(i + 1).drop_last() =~= order.take(i as int));
            assert(order.take(i + 1).last() == t);
        }
        let commit_ts: u64 = match scan.commits.get(&t) {
            Some(c) => c.0,
            None => 0,
        };
        assert(scan.pending@.contains_key(t) <==> pending_of(rs, t) is Some);
        assert(wal_models(nothing@) =~= Seq::<WalModel>::empty());
        let replay = match scan.pending.get(&t) {
            Some(ops) => Some(ops),
            None => if scan.rolled_back.contains(&t) {
                None
            } else {
                Some(&nothing)
            },
        };
        if let Some(ops) = replay {
            match failures.get(&t) {
                Some(e) => {
                    if is_aborting(e, strict_mode) {
                        let kind = classify_apply_error(e, t);
                        let err = ReplayError { kind, txn_id: t };
                        proof {
                            lemma_restored_end(rs, order, fails, strict_mode, i + 1);
                        }
                        let ret = (Err(err), lost);
                        assert(recovers(
                            rs,
                            order,
                            fails,
                            strict_mode,
                            ret.0,
                            lost_model(ret.1@),
                        ));
                        return ret;
                    }
                    if let Z1Error::Deserialize(_) = e {
                        let detail = e.to_text();
                        let degrade = Z1Error::degrade("wal_record_corrupt", detail.as_str());
                        let ghost before = *counts;
                        match handle_degrade(counts, &degrade, strict_mode) {
                            ControlFlow::Break(_) => {
                                assert(false);
                            },
                            ControlFlow::Continue(_) => {},
                        }
                        let ghost lost0 = lost@;
                        lost.push((t, detail));
                        proof {
                            assert(lost_model(lost@) =~= lost_model(lost0).push((t, detail@)));
                            assert(corruption_counted(counts0, *counts, lost@.len())) by {
                                assert forall|m: Seq<char>| #[trigger]
                                    count_in(counts.counts@, m) == (if m == "wal_record_corrupt"@ {
                                        bumped(count_in(counts0.counts@, m), lost@.len())
                                    } else {
                                        count_in(counts0.counts@, m)
                                    }) by {
                                    assert(count_in(before.counts@, m) == (if m
                                        == "wal_record_corrupt"@ {
                                        bumped(count_in(counts0.counts@, m), lost0.len())
                                    } else {
                                        count_in(counts0.counts@, m)
                                    }));
                                }
                            }
                        }
                    }
                },
                None => {
                    if t > last {
                        last = t;
                    }
                    committed_count = committed_count + 1;
                    commit_ts_map.insert(t, commit_ts);
                    label_ops(&mut committed_puts, t, ops);
                },
            }
        }
        i = i + 1;
    }
    assert(order.take(i as int) =~= order);
    let res = RecoveryResult {
        last_committed_txn: last,
        max_seen_committed_txn: scan.max_committed,
        committed_count,
        discarded_count,
        commit_ts_map,
        inserted_at_map,
        replay_watermark: scan.max_inserted,
        committed_puts,
    };
    let ret = (Ok(res), lost);
    assert(recovers(rs, order, fails, strict_mode, ret.0, lost_model(ret.1@)));
    ret
}

/// A recovery that has ended stays ended.
proof fn lemma_restored_end(
    rs: Seq<WalModel>,
    order: Seq<TxnId>,
    fails: Map<TxnId, Z1Error>,
    strict: bool,
    k: int,
)
    requires
        0 <= k <= order.len(),
        restored(rs, order.take(k), fails, strict).1 is Some,
    ensures
        restored(rs, order, fails, strict) == restored(rs, order.take(k), fails, strict),
    decreases order.len() - k,
{
    if k == order.len() {
        assert(order.take(k) =~= order);
    } else {
        assert(order.take(k + 1).drop_last() =~= order.take(k));
        lemma_restored_end(rs, order, fails, strict, k + 1);
    }
}

/// `states` are the states of a caller while it applies these writes in order:
/// each is applied once, to the state that the one before has left, and the
/// first that fails is the last one applied.
pub open spec fn writes_run<S, F: Fn(S, &WalEntry) -> (S, Result<()>)>(
    apply: F,
    ops: Seq<WalEntry>,
    states: Seq<S>,
    outcome: Option<Z1Error>,
) -> bool {
    let n = states.len() - 1;
    &&& 0 <= n <= ops.len()
    &&& forall|i: int|
        0 <= i < n && !(outcome is Some && i == n - 1) ==> call_ensures(
            apply,
            (#[trigger] states[i], &ops[i]),
            (states[i + 1], Ok::<(), Z1Error>(())),
        )
    &&& outcome is None ==> n == ops.len()
    &&& outcome matches Some(e) ==> n > 0 && call_ensures(
        apply,
        (states[n - 1], &ops[n - 1]),
        (states[n], Err::<(), Z1Error>(e)),
    )
}

/// Applying the writes `m` of a transaction takes the caller from `before` to
/// `after`; `outcome` is the error that ended it, if one did.
pub open spec fn txn_runs<S, F: Fn(S, &WalEntry) -> (S, Result<()>)>(
    apply: F,
    m: Seq<WalModel>,
    before: S,
    after: S,
    outcome: Option<Z1Error>,
) -> bool {
    exists|ops: Seq<WalEntry>, states: Seq<S>|
        wal_models(ops) == m && #[trigger] writes_run(apply, ops, states, outcome) && states[0]
            == before && states.last() == after
}

pub open spec fn fail_of(fails: Map<TxnId, Z1Error>, t: TxnId) -> Option<Z1Error> {
    if fails.contains_key(t) {
        Some(fails[t])
    } else {
        None
    }
}

/// `stages` are the states of a caller before and after each of these
/// transactions is applied, and `fails` says which could not be and why.
pub open spec fn replay_runs<S, F: Fn(S, &WalEntry) -> (S, Result<()>)>(
    apply: F,
    rs: Seq<WalModel>,
    order: Seq<TxnId>,
    fails: Map<TxnId, Z1Error>,
    stages: Seq<S>,
) -> bool {
    &&& stages.len() == order.len() + 1
    &&& forall|i: int|
        0 <= i < order.len() ==> match replay_of(rs, #[trigger] order[i]) {
            Some(m) => txn_runs(apply, m, stages[i], stages[i + 1], fail_of(fails, order[i])),
            None => stages[i + 1] == stages[i],
        }
}

/// A write that a replay applies: one that a committed transaction has
/// pending.
pub open spec fn is_replayed(rs: Seq<WalModel>, e: WalModel) -> bool {
    exists|t: TxnId| (#[trigger] commit_of(rs, t)) is Some && is_pending(rs, t, e)
}

pub open spec fn is_pending(rs: Seq<WalModel>, t: TxnId, e: WalModel) -> bool {
    pending_of(rs, t) matches Some(ops) && ops.contains(e)
}

/// Replay all committed writes of a log, given by its segments in order:
/// `apply` gets the writes of every committed transaction, by ascending
/// transaction and in the order of the log, each once, and passes a state on
/// from one to the next, beginning with `start`. How a failure is dealt with
/// goes by its class; see [`recover_records`]: the rest of the transaction is
/// not applied, and where the recovery ends, nothing more is. A log that cannot
/// be read is fatal.
///
/// In strict mode a corrupt transaction ends the recovery; otherwise it is
/// skipped, counted and reported. Returns what is restored, the corrupt
/// transactions that were skipped, and the last state.
#[verifier::rlimit(40)]
pub fn replay_committed_ops<S, F: Fn(S, &WalEntry) -> (S, Result<()>)>(
    segments: &Vec<Vec<u8>>,
    strict_mode: bool,
    counts: &mut DegradeCounts,
    start: S,
    apply: F,
) -> (r: (core::result::Result<RecoveryResult, ReplayError>, Vec<(TxnId, String)>, S))
    requires
        old(counts).wf(),
        forall|s: S, e: WalEntry|
            is_replayed(replayed(seg_models(segments@), 0).0, e@) ==> #[trigger] call_requires(
                apply,
                (s, &e),
            ),
    ensures
        final(counts).wf(),
        ({
            let (rs, stop) = replayed(seg_models(segments@), 0);
            if !(stop is End) {
                &&& r.0 matches Err(e) && e.txn_id == 0 && (e.kind matches ReplayErrorKind::Fatal {
                    io_kind,
                    detail,
                } && io_kind@ == "WAL reader"@ && exists|err: Z1Error| #[trigger]
                    crate::wal::record::reports(stop, err) && detail@ == err.text())
                &&& r.1@.len() == 0
                &&& r.2 == start
            } else {
                exists|order: Seq<TxnId>, fails: Map<TxnId, Z1Error>, stages: Seq<S>|
                    0 < stages.len() <= order.len() + 1 && #[trigger] recovers(
                        rs,
                        order,
                        fails,
                        strict_mode,
                        r.0,
                        lost_model(r.1@),
                    ) && #[trigger] replay_runs(
                        apply,
                        rs,
                        order.take(stages.len() - 1),
                        fails,
                        stages,
                    ) && stages[0] == start && stages.last() == r.2 && (stages.len() - 1
                        < order.len() ==> stages.len() > 1 && restored(
                        rs,
                        order,
                        fails,
                        strict_mode,
                    ).1 == Some(order[stages.len() - 2]))
            }
        }),
        forall|logs: Seq<Seq<WalModel>>, tail: Seq<u8>|
            #[trigger] segments_hold(seg_models(segments@), logs, tail) ==> replayed(
                seg_models(segments@),
                0,
            ).1 is End && replayed(seg_models(segments@), 0).0 == joined(logs, 0),
        corruption_counted(*old(counts), *final(counts), r.1@.len()),
{
    let records = match replay_all(segments) {
        Ok(v) => v,
        Err(e) => {
            let kind = ReplayErrorKind::Fatal { io_kind: copy_str("WAL reader"), detail: e.to_text() };
            let lost: Vec<(TxnId, String)> = Vec::new();
            return (Err(ReplayError { kind, txn_id: 0 }), lost, start);
        },
    };
    let ghost rs = wal_models(records@);
    let scan = scan_records(&records);
    let ids = sorted_keys(&scan.commits);
    let ghost order = ids@;
    let mut failures: BTreeMap<u64, Z1Error> = BTreeMap::new();
    let mut i: usize = 0;
    let mut ended: bool = false;
    let mut state: S = start;
    let ghost mut stages: Seq<S> = seq![start];
    while i < ids.len() && !ended
        invariant
            i <= ids@.len(),
            order == ids@,
            strictly_ascending(order),
            scan.matches(rs),
            forall|s: S, e: WalEntry|
                is_replayed(rs, e@) ==> #[trigger] call_requires(apply, (s, &e)),
            forall|k: u64| ids@.contains(k) <==> #[trigger] scan.commits@.contains_key(k),
            replay_runs(apply, rs, order.take(i as int), failures@, stages),
            stages[0] == start,
            stages.last() == state,
            forall|t: TxnId| #[trigger]
                failures@.contains_key(t) ==> exists|j: int| 0 <= j < i && #[trigger] order[j] == t,
            ended ==> i > 0 && failures@.contains_key(order[i - 1]) && aborts(
                failures@[order[i - 1]],
                strict_mode,
            ) && pending_of(rs, order[i - 1]) is Some,
            forall|j: int|
                0 <= j < i && !(ended && j == i - 1) && failures@.contains_key(#[trigger] order[j])
                    ==> !aborts(failures@[order[j]], strict_mode),
        decreases ids@.len() - i, if ended { 0int } else { 1int },
    {
        let t: u64 = ids[i];
        let ghost fails0 = failures@;
        let ghost stages0 = stages;
        let ghost before = state;
        assert(!fails0.contains_key(t)) by {
            if fails0.contains_key(t) {
                let j = choose|j: int| 0 <= j < i && #[trigger] order[j] == t;
                assert(order[j] < order[i as int]);
            }
        }
        assert(ids@.contains(t));
        assert(scan.commits@.contains_key(t));
        assert(commit_of(rs, t) is Some);
        assert(scan.pending@.contains_key(t) <==> pending_of(rs, t) is Some);
        let mut failed: Option<Z1Error> = None;
        if let Some(ops) = scan.pending.get(&t) {
            let mut k: usize = 0;
            let ghost mut states: Seq<S> = seq![state];
            assert(Some(wal_models(ops@)) == pending_of(rs, t));
            while k < ops.len() && failed.is_none()
                invariant
                    k <= ops@.len(),
                    commit_of(rs, t) is Some,
                    Some(wal_models(ops@)) == pending_of(rs, t),
                    forall|s: S, e: WalEntry|
                        is_replayed(rs, e@) ==> #[trigger] call_requires(apply, (s, &e)),
                    states.len() == k + 1,
                    states[0] == before,
                    states.last() == state,
                    failed is None ==> forall|j: int|
                        0 <= j < k ==> call_ensures(
                            apply,
                            (#[trigger] states[j], &ops@[j]),
                            (states[j + 1], Ok::<(), Z1Error>(())),
                        ),
                    failed is Some ==> writes_run(apply, ops@, states, failed),
                decreases ops@.len() - k,
            {
                let op = &ops[k];
                proof {
                    let all = wal_models(ops@);
                    assert(all[k as int] == op@);
                    assert(all.contains(op@));
                    assert(is_pending(rs, t, op@));
                    assert(is_replayed(rs, op@));
                    assert(call_requires(apply, (state, op)));
                }
                let ghost given = state;
                let ghost states0 = states;
                let got = apply(state, op);
                assert(call_ensures(apply, (given, &ops@[k as int]), got));
                state = got.0;
                proof {
                    states = states.push(state);
                    assert forall|j: int| 0 <= j < k implies call_ensures(
                        apply,
                        (#[trigger] states[j], &ops@[j]),
                        (states[j + 1], Ok::<(), Z1Error>(())),
                    ) by {
                        assert(states[j] == states0[j] && states[j + 1] == states0[j + 1]);
                    }
                }
                match got.1 {
                    Ok(u) => {
                        assert(got.1 == Ok::<(), Z1Error>(()));
                    },
                    Err(e) => {
                        failed = Some(e);
                        assert(got == (state, Err::<(), Z1Error>(e)));
                        assert(writes_run(apply, ops@, states, failed));
                    },
                }
                k = k + 1;
            }
            assert(writes_run(apply, ops@, states, failed));
            assert(txn_runs(apply, wal_models(ops@), before, state, failed));
        }
        let ghost outcome = failed;
        match failed {
            Some(e) => {
                ended = is_aborting(&e, strict_mode);
                failures.insert(t, e);
            },
            None => {},
        }
        proof {
            stages = stages.push(state);
            assert(fail_of(failures@, t) == outcome);
            let now = order.take(i + 1);
            assert(replay_runs(apply, rs, now, failures@, stages)) by {
                assert forall|j: int| 0 <= j < now.len() implies match replay_of(
                    rs,
                    #[trigger] now[j],
                ) {
                    Some(m) => txn_runs(
                        apply,
                        m,
                        stages[j],
                        stages[j + 1],
                        fail_of(failures@, now[j]),
                    ),
                    None => stages[j + 1] == stages[j],
                } by {
                    assert(stages[j] == stages0[j]);
                    if j < i {
                        assert(stages[j + 1] == stages0[j + 1]);
                        assert(order.take(i as int)[j] == now[j]);
                        assert(now[j] < t);
                        assert(fail_of(failures@, now[j]) == fail_of(fails0, now[j]));
                    } else if pending_of(rs, t) is Some {
                        assert(wal_models(scan.pending@[t]@) == pending_of(rs, t)->0);
                    } else if replay_of(rs, t) is Some {
                        let none = Seq::<WalEntry>::empty();
                        assert(wal_models(none) =~= Seq::<WalModel>::empty());
                        assert(writes_run(apply, none, seq![state], None));
                        assert(txn_runs(apply, replay_of(rs, t)->0, state, state, None));
                    }
                }
            }
            assert forall|u: TxnId| #[trigger] failures@.contains_key(u) implies exists|j: int|
                0 <= j < i + 1 && #[trigger] order[j] == u by {
                if u == t {
                    assert(order[i as int] == u);
                } else {
                    assert(fails0.contains_key(u));
                    let j = choose|j: int| 0 <= j < i && #[trigger] order[j] == u;
                    assert(order[j] == u);
                }
            }
            assert forall|j: int|
                0 <= j < i + 1 && !(ended && j == i) && failures@.contains_key(
                    #[trigger] order[j],
                ) implies !aborts(failures@[order[j]], strict_mode) by {
                if j < i {
                    assert(order[j] < t);
                    assert(fails0.contains_key(order[j]));
                }
            }
        }
        i = i + 1;
    }
    let (outcome, lost) = recover_records(&records, strict_mode, counts, &failures);
    proof {
        let fails = failures@;
        let order2 = choose|o: Seq<TxnId>| #[trigger]
            recovers(rs, o, fails, strict_mode, outcome, lost_model(lost@));
        assert(is_commit_order(rs, order)) by {
            assert forall|t: TxnId| order.contains(t) <==> (#[trigger] commit_of(rs, t)) is Some by {
                assert(scan.commits@.contains_key(t) <==> commit_of(rs, t) is Some);
            }
        }
        lemma_order_unique(rs, order, order2);
        assert(recovers(rs, order, fails, strict_mode, outcome, lost_model(lost@)));
        assert(replay_runs(apply, rs, order.take(stages.len() - 1), fails, stages));
        assert(stages.len() == i + 1);
        if i < order.len() {
            lemma_first_abort(rs, order, fails, strict_mode, i as int);
            assert(restored(rs, order, fails, strict_mode).1 == Some(order[stages.len() - 2]));
        }
    }
    let r = (outcome, lost, state);
    assert(recovers(rs, order, failures@, strict_mode, r.0, lost_model(r.1@)));
    r
}

/// There is only one ascending list of the committed transactions.
proof fn lemma_order_unique(rs: Seq<WalModel>, a: Seq<TxnId>, b: Seq<TxnId>)
    requires
        is_commit_order(rs, a),
        is_commit_order(rs, b),
    ensures
        a == b,
{
    assert forall|t: TxnId| a.contains(t) == b.contains(t) by {
        assert(a.contains(t) <==> commit_of(rs, t) is Some);
    }
    lemma_ascending_unique(a, b);
}

proof fn lemma_ascending_unique(a: Seq<u64>, b: Seq<u64>)
    requires
        strictly_ascending(a),
        strictly_ascending(b),
        forall|t: u64| a.contains(t) == b.contains(t),
    ensures
        a == b,
    decreases a.len(),
{
    if a.len() == 0 {
        if b.len() > 0 {
            assert(b.contains(b[0]));
            assert(a.contains(b[0]));
        }
        assert(a =~= b);
    } else {
        assert(a.contains(a.last()));
        assert(b.contains(a.last()));
        assert(b.len() > 0);
        assert(b.contains(b.last()));
        assert(a.contains(b.last()));
        let i = choose|i: int| 0 <= i < a.len() && a[i] == b.last();
        let j = choose|j: int| 0 <= j < b.len() && b[j] == a.last();
        if i < a.len() - 1 {
            assert(a[i] < a[a.len() - 1]);
        }
        if j < b.len() - 1 {
            assert(b[j] < b[b.len() - 1]);
        }
        assert(a.last() == b.last());
        let x = a.drop_last();
        let y = b.drop_last();
        assert forall|t: u64| x.contains(t) == y.contains(t) by {
            if x.contains(t) {
                let k = choose|k: int| 0 <= k < x.len() && x[k] == t;
                assert(a[k] < a[a.len() - 1]);
                assert(a.contains(t));
                let l = choose|l: int| 0 <= l < b.len() && b[l] == t;
                assert(y[l] == t);
            }
            if y.contains(t) {
                let k = choose|k: int| 0 <= k < y.len() && y[k] == t;
                assert(b[k] < b[b.len() - 1]);
                assert(b.contains(t));
                let l = choose|l: int| 0 <= l < a.len() && a[l] == t;
                assert(x[l] == t);
            }
        }
        lemma_ascending_unique(x, y);
        assert(a =~= x.push(a.last()));
        assert(b =~= y.push(b.last()));
    }
}

/// The recovery ends at the first transaction whose error ends it.
proof fn lemma_first_abort(
    rs: Seq<WalModel>,
    order: Seq<TxnId>,
    fails: Map<TxnId, Z1Error>,
    strict: bool,
    n: int,
)
    requires
        0 < n <= order.len(),
        commit_of(rs, order[n - 1]) is Some,
        replay_of(rs, order[n - 1]) is Some,
        fails.contains_key(order[n - 1]),
        aborts(fails[order[n - 1]], strict),
        forall|j: int|
            0 <= j < n - 1 && fails.contains_key(#[trigger] order[j]) ==> !aborts(
                fails[order[j]],
                strict,
            ),
    ensures
        restored(rs, order, fails, strict).1 == Some(order[n - 1]),
{
    lemma_no_abort(rs, order, fails, strict, n - 1);
    assert(order.take(n).drop_last() =~= order.take(n - 1));
    lemma_restored_end(rs, order, fails, strict, n);
}

proof fn lemma_no_abort(
    rs: Seq<WalModel>,
    order: Seq<TxnId>,
    fails: Map<TxnId, Z1Error>,
    strict: bool,
    k: int,
)
    requires
        0 <= k <= order.len(),
        forall|j: int|
            0 <= j < k && fails.contains_key(#[trigger] order[j]) ==> !aborts(
                fails[order[j]],
                strict,
            ),
    ensures
        restored(rs, order.take(k), fails, strict).1 is None,
    decreases k,
{
    if k > 0 {
        lemma_no_abort(rs, order, fails, strict, k - 1);
        assert(order.take(k).drop_last() =~= order.take(k - 1));
        assert(order.take(k).last() == order[k - 1]);
    }
}

/// Only committed transactions are restored, and where all writes could be
/// applied, every committed transaction that was not rolled back is.
pub proof fn law_committed_and_only_committed(
    rs: Seq<WalModel>,
    order: Seq<TxnId>,
    fails: Map<TxnId, Z1Error>,
    strict: bool,
    t: TxnId,
)
    requires
        is_commit_order(rs, order),
    ensures
        restored(rs, order, fails, strict).0.commits.contains_key(t) ==> commit_of(rs, t) is Some
            && replay_of(rs, t) is Some && !fails.contains_key(t),
        forall|i: int|
            0 <= i < restored(rs, order, fails, strict).0.puts.len() ==> commit_of(
                rs,
                (#[trigger] restored(rs, order, fails, strict).0.puts[i]).0,
            ) is Some,
        fails.dom() == Set::<TxnId>::empty() && commit_of(rs, t) is Some && replay_of(rs, t)
            is Some ==> restored(rs, order, fails, strict).0.commits.contains_key(t),
{
    lemma_restored_members(rs, order, fails, strict, t, order.len() as int);
    assert(order.take(order.len() as int) =~= order);
    if fails.dom() == Set::<TxnId>::empty() && commit_of(rs, t) is Some && replay_of(rs, t)
        is Some {
        assert(order.contains(t));
        let j = choose|j: int| 0 <= j < order.len() && order[j] == t;
        assert(order[j] == t);
    }
}

proof fn lemma_restored_members(
    rs: Seq<WalModel>,
    order: Seq<TxnId>,
    fails: Map<TxnId, Z1Error>,
    strict: bool,
    t: TxnId,
    k: int,
)
    requires
        0 <= k <= order.len(),
        is_commit_order(rs, order),
    ensures
        ({
            let (got, end) = restored(rs, order.take(k), fails, strict);
            &&& got.commits.contains_key(t) ==> commit_of(rs, t) is Some && replay_of(rs, t)
                is Some && !fails.contains_key(t)
            &&& forall|i: int|
                0 <= i < got.puts.len() ==> commit_of(rs, (#[trigger] got.puts[i]).0) is Some
            &&& fails.dom() == Set::<TxnId>::empty() ==> end is None && (commit_of(rs, t) is Some
                && replay_of(rs, t) is Some && (exists|j: int| 0 <= j < k && #[trigger] order[j] == t)
                ==> got.commits.contains_key(t))
        }),
    decreases k,
{
    if k > 0 {
        lemma_restored_members(rs, order, fails, strict, t, k - 1);
        assert(order.take(k).drop_last() =~= order.take(k - 1));
        let u = order[k - 1];
        assert(order.take(k).last() == u);
        assert(order.contains(u));
        assert(commit_of(rs, u) is Some);
        let (r0, end0) = restored(rs, order.take(k - 1), fails, strict);
        let (r1, end1) = restored(rs, order.take(k), fails, strict);
        assert forall|i: int| 0 <= i < r1.puts.len() implies commit_of(
            rs,
            (#[trigger] r1.puts[i]).0,
        ) is Some by {
            if i < r0.puts.len() {
                assert(r1.puts[i] == r0.puts[i]);
            } else {
                assert(r1.puts[i].0 == u);
            }
        }
        if fails.dom() == Set::<TxnId>::empty() {
            assert(!fails.dom().contains(u));
        }
    }
}

/// A rollback drops everything its transaction has written so far: none of it
/// is restored.
pub proof fn law_rollback_drops_writes(rs: Seq<WalModel>, t: TxnId)
    ensures
        replay_of(rs.push(WalModel { txn_id: t, record: RecordModel::Rollback }), t) is None,
        forall|u: TxnId|
            u != t ==> #[trigger] replay_of(
                rs.push(WalModel { txn_id: t, record: RecordModel::Rollback }),
                u,
            ) == replay_of(rs, u),
{
    let next = rs.push(WalModel { txn_id: t, record: RecordModel::Rollback });
    assert(next.drop_last() =~= rs);
}

} // verus!
