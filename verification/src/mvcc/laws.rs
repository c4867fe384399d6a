//! What holds of snapshots and of the visibility manager over several calls.

use crate::error::Result;
use crate::mvcc::history::not_older;
use crate::config::VisibilityConfig;
use crate::mvcc::visibility::{
    after_ttl, begin_outcome, check_outcome, commit_outcome, entered, evicted_by_count,
    is_oldest_begin, is_snapshot_id, lemma_snapshot_id_unique, max_txn_of, other_reads,
    other_touches, other_writes, pruned, recovered, recovered_history, row_visible, rw_conflict,
    rw_conflict_with, snapshot_as_of, snapshot_id_of, snapshot_of, ttl_cutoff, ttl_due, with_read,
    with_write, without_active, ww_conflict, ww_conflict_on, IsolationLevel, ManagerModel,
    TxnSnapshot, TxnStatus,
};
use crate::store::types::visible_at;
use crate::TxnId;
use vstd::prelude::*;

verus! {

broadcast use vstd::map::group_map_axioms;

/// Every manager has a snapshot id.
proof fn lemma_snapshot_id_exists(m: ManagerModel)
    requires
        m.history.dom().finite(),
    ensures
        is_snapshot_id(m, snapshot_id_of(m)),
    decreases m.history.dom().len(),
{
    if m.history.dom().len() == 0 {
        assert(m.history.dom() =~= Set::empty());
        assert forall|t: TxnId| #[trigger] m.history.contains_key(t) implies m.history[t].0
            <= m.committed_txn by {
            assert(m.history.dom().contains(t));
        }
        assert(is_snapshot_id(m, m.committed_txn));
    } else {
        let t = m.history.dom().choose();
        let rest = ManagerModel { history: m.history.remove(t), ..m };
        lemma_snapshot_id_exists(rest);
        let id = snapshot_id_of(rest);
        let ts = m.history[t].0;
        let want = if ts > id {
            ts
        } else {
            id
        };
        assert forall|u: TxnId| #[trigger] m.history.contains_key(u) implies m.history[u].0
            <= want by {
            if u != t {
                assert(rest.history.contains_key(u));
            }
        }
        if ts <= id && id != m.committed_txn {
            let u = choose|u: TxnId| #[trigger]
                rest.history.contains_key(u) && rest.history[u].0 == id;
            assert(m.history.contains_key(u) && m.history[u].0 == id);
        } else if ts > id {
            assert(m.history.contains_key(t));
        }
        assert(is_snapshot_id(m, want));
    }
}

/// A transaction without an entry in the commit history is invisible.
pub proof fn law_no_history_means_invisible(
    snapshot_id: TxnId,
    created: TxnId,
    deleted: Option<TxnId>,
    active: Set<TxnId>,
    commits: Map<TxnId, u64>,
)
    requires
        !commits.contains_key(created),
    ensures
        !row_visible(snapshot_id, created, deleted, active, commits),
{
}

/// The row filter and the version filter agree on rows that were not deleted.
pub proof fn law_filters_agree(
    snapshot_id: TxnId,
    created: TxnId,
    active: Set<TxnId>,
    commits: Map<TxnId, u64>,
)
    ensures
        row_visible(snapshot_id, created, None, active, commits) == visible_at(
            created,
            snapshot_id,
            commits,
            active,
        ),
{
}

/// No commit timestamp in a snapshot is above its id.
pub proof fn law_snapshot_is_strict(m: ManagerModel, at: TxnId, isolation: IsolationLevel, t: TxnId)
    ensures
        snapshot_of(m, isolation).commits.contains_key(t) ==> snapshot_of(m, isolation).commits[t]
            <= snapshot_of(m, isolation).snapshot_id,
        snapshot_as_of(m, at, isolation).commits.contains_key(t) ==> snapshot_as_of(
            m,
            at,
            isolation,
        ).commits[t] <= at,
{
}

/// A snapshot of the current state covers the whole retained history: every
/// committed transaction that is in it is seen, unless it is active again.
pub proof fn law_snapshot_covers_history(m: ManagerModel, isolation: IsolationLevel, t: TxnId)
    requires
        m.history.dom().finite(),
        m.history.contains_key(t),
        t <= m.committed_txn,
        !m.active.contains_key(t),
    ensures
        snapshot_of(m, isolation).sees(t),
{
    lemma_snapshot_id_exists(m);
}

/// What has not committed when a snapshot is taken is invisible in it for
/// good: active transactions, rolled back ones, and those still to come.
pub proof fn law_uncommitted_is_invisible(m: ManagerModel, isolation: IsolationLevel, t: TxnId)
    requires
        !m.history.contains_key(t) || m.active.contains_key(t),
    ensures
        !snapshot_of(m, isolation).sees(t),
{
}

/// A transaction does not see its own writes through its own snapshot, nor
/// those of any transaction that begins after it.
pub proof fn law_begin_snapshot_excludes_itself(
    before: ManagerModel,
    t: TxnId,
    after: ManagerModel,
    isolation: IsolationLevel,
)
    requires
        before.history.dom().finite(),
        begin_outcome(before, t, Ok::<(), crate::error::Z1Error>(()), after),
    ensures
        snapshot_of(after, isolation).active.contains(t),
        !snapshot_of(after, isolation).sees(t),
        snapshot_id_of(after) == snapshot_id_of(before),
        t > before.committed_txn,
{
    assert(after.active.contains_key(t));
    lemma_snapshot_id_exists(before);
    assert(is_snapshot_id(after, snapshot_id_of(before)));
    lemma_snapshot_id_unique(after, snapshot_id_of(before));
}

/// After pruning the history holds no more entries than configured, holds
/// nothing new, and nothing else of the manager has changed but the record of
/// the last age-based eviction.
pub proof fn law_pruned_history_is_bounded(before: ManagerModel, now_ms: u64, after: ManagerModel)
    requires
        before.history.dom().finite(),
        pruned(before, now_ms, after),
    ensures
        after.history.len() <= before.config.max_history_entries,
        after.history.submap_of(before.history),
        after.committed_txn == before.committed_txn,
        after.active == before.active,
        after.config == before.config,
        after.replay_watermark == before.replay_watermark,
{
    let max = before.config.max_history_entries;
    let kept = choose|kept: Map<TxnId, (u64, u64)>| #[trigger]
        evicted_by_count(before.history, max, kept) && after == after_ttl(
            ManagerModel { history: kept, ..before },
            now_ms,
        );
    assert(kept.submap_of(before.history));
    assert(kept.len() <= max);
    assert(kept.dom().subset_of(before.history.dom())) by {
        assert forall|t: TxnId| kept.dom().contains(t) implies before.history.dom().contains(t) by {
            assert(kept.contains_key(t));
        }
    }
    vstd::set_lib::lemma_set_subset_finite(before.history.dom(), kept.dom());
    if ttl_due(before, now_ms) {
        let m = ManagerModel { history: kept, ..before };
        let h = not_older(kept, ttl_cutoff(m, now_ms));
        assert(h.dom().subset_of(kept.dom()));
        vstd::set_lib::lemma_len_subset(h.dom(), kept.dom());
        assert forall|t: TxnId| h.dom().contains(t) implies before.history.dom().contains(t)
            && h[t] == before.history[t] by {
            assert(kept.dom().contains(t));
        }
    }
}

/// Entries that are neither too many nor too old survive pruning: with no
/// more than the configured number of entries, one inserted at or after the
/// age cutoff stays.
pub proof fn law_pruning_keeps_fresh_entries(
    before: ManagerModel,
    now_ms: u64,
    after: ManagerModel,
    t: TxnId,
)
    requires
        pruned(before, now_ms, after),
        before.history.len() <= before.config.max_history_entries,
        before.history.contains_key(t),
        before.history[t].1 >= ttl_cutoff(before, now_ms),
    ensures
        after.history.contains_key(t),
        after.history[t] == before.history[t],
{
    let max = before.config.max_history_entries;
    let kept = choose|kept: Map<TxnId, (u64, u64)>| #[trigger]
        evicted_by_count(before.history, max, kept) && after == after_ttl(
            ManagerModel { history: kept, ..before },
            now_ms,
        );
    assert(kept == before.history);
}

/// A committed transaction is seen by the snapshot that its commit returns,
/// as long as the history retains it.
pub proof fn law_commit_is_visible(
    before: ManagerModel,
    t: TxnId,
    inserted_at: u64,
    commit_ts: u64,
    now_ms: u64,
    r: Result<TxnSnapshot>,
    after: ManagerModel,
)
    requires
        before.history.dom().finite(),
        commit_outcome(before, t, inserted_at, commit_ts, now_ms, r, after),
        r is Ok,
    ensures
        after.history.contains_key(t) ==> r->Ok_0@.sees(t),
        r->Ok_0@.commits.contains_key(t) ==> r->Ok_0@.commits[t] == commit_ts,
        before.history.len() < before.config.max_history_entries && inserted_at >= ttl_cutoff(
            entered(before, t, commit_ts, inserted_at),
            now_ms,
        ) ==> after.history.contains_key(t),
{
    let m = entered(before, t, commit_ts, inserted_at);
    assert(m.history.dom() =~= before.history.dom().insert(t));
    law_pruned_history_is_bounded(m, now_ms, after);
    assert(after.history.dom().subset_of(m.history.dom())) by {
        assert forall|u: TxnId| after.history.dom().contains(u) implies m.history.dom().contains(
            u,
        ) by {
            assert(after.history.contains_key(u));
        }
    }
    vstd::set_lib::lemma_set_subset_finite(m.history.dom(), after.history.dom());
    if after.history.contains_key(t) {
        assert(after.history.dom().contains(t));
        law_snapshot_covers_history(after, IsolationLevel::Snapshot, t);
    }
    if r->Ok_0@.commits.contains_key(t) {
        assert(after.history.dom().contains(t));
    }
    if before.history.len() < before.config.max_history_entries && inserted_at >= ttl_cutoff(
        m,
        now_ms,
    ) {
        law_pruning_keeps_fresh_entries(m, now_ms, after, t);
    }
}

/// A commit that fails changes nothing but that the transaction is no longer
/// active: nothing of it ever becomes visible, and other transactions are
/// left alone.
pub proof fn law_failed_commit_leaves_no_trace(
    before: ManagerModel,
    t: TxnId,
    inserted_at: u64,
    commit_ts: u64,
    now_ms: u64,
    r: Result<TxnSnapshot>,
    after: ManagerModel,
)
    requires
        commit_outcome(before, t, inserted_at, commit_ts, now_ms, r, after),
        r is Err,
    ensures
        after == without_active(before, t) || after == before,
        after.history == before.history,
        !after.active.contains_key(t),
        forall|o: TxnId| o != t ==> before.active.contains_key(o) == #[trigger]
            after.active.contains_key(o),
{
}

/// Of two active transactions that write the same key, the one that tries to
/// commit while the other is active is refused; with nobody else active, no
/// commit is refused.
pub proof fn law_conflicts_are_refused(
    before: ManagerModel,
    t: TxnId,
    o: TxnId,
    key: Seq<u8>,
    inserted_at: u64,
    commit_ts: u64,
    now_ms: u64,
    r: Result<TxnSnapshot>,
    after: ManagerModel,
)
    requires
        commit_outcome(before, t, inserted_at, commit_ts, now_ms, r, after),
        before.active.contains_key(t),
    ensures
        o != t && before.active.contains_key(o) && before.active[t].writes.contains(key)
            && before.active[o].writes.contains(key) ==> r is Err,
        before.active.dom() == set![t] ==> r is Ok,
{
    if o != t && before.active.contains_key(o) && before.active[t].writes.contains(key)
        && before.active[o].writes.contains(key) {
        assert(crate::mvcc::visibility::other_touches(before, t, o, key));
        assert(crate::mvcc::visibility::ww_conflict_on(before, t, key));
    }
    if before.active.dom() == set![t] {
        assert forall|p: TxnId| #[trigger] before.active.contains_key(p) implies p == t by {
            assert(before.active.dom().contains(p));
        }
        assert(!rw_conflict(before, t));
        assert(!ww_conflict(before, t));
    }
}

/// `committed_txn` never goes back, whatever the order of commits.
pub proof fn law_committed_txn_is_monotone(
    before: ManagerModel,
    t: TxnId,
    inserted_at: u64,
    commit_ts: u64,
    now_ms: u64,
    r: Result<TxnSnapshot>,
    after: ManagerModel,
)
    requires
        before.history.dom().finite(),
        commit_outcome(before, t, inserted_at, commit_ts, now_ms, r, after),
    ensures
        after.committed_txn >= before.committed_txn,
        r is Ok ==> after.committed_txn >= t,
{
    if r is Ok {
        let m = entered(before, t, commit_ts, inserted_at);
        assert(m.history.dom() =~= before.history.dom().insert(t));
        law_pruned_history_is_bounded(m, now_ms, after);
    }
}

/// A historical snapshot is not touched by a later commit: as long as pruning
/// evicts nothing, a commit with a timestamp above `at` adds nothing to the
/// snapshot as of `at`.
pub proof fn law_later_commit_leaves_history_alone(
    before: ManagerModel,
    at: TxnId,
    t: TxnId,
    inserted_at: u64,
    commit_ts: u64,
    isolation: IsolationLevel,
)
    requires
        commit_ts > at,
        !before.history.contains_key(t),
    ensures
        snapshot_as_of(entered(before, t, commit_ts, inserted_at), at, isolation).commits
            == snapshot_as_of(before, at, isolation).commits,
{
    assert(snapshot_as_of(entered(before, t, commit_ts, inserted_at), at, isolation).commits
        =~= snapshot_as_of(before, at, isolation).commits);
}

/// A read adds its key to the read set of its transaction, whatever that held
/// before, and a write adds its key to the write set. Nothing else changes, and
/// nothing at all where the transaction is not active.
pub proof fn law_every_key_is_recorded(m: ManagerModel, t: TxnId, key: Seq<u8>)
    ensures
        m.active.contains_key(t) ==> {
            let w = with_write(m, t, key);
            let r = with_read(m, t, key);
            &&& w.active.dom() == m.active.dom()
            &&& r.active.dom() == m.active.dom()
            &&& w.active[t].writes == m.active[t].writes.insert(key)
            &&& w.active[t].reads == m.active[t].reads
            &&& r.active[t].reads == m.active[t].reads.insert(key)
            &&& r.active[t].writes == m.active[t].writes
            &&& w.active[t].begin_ts == m.active[t].begin_ts
            &&& r.active[t].begin_ts == m.active[t].begin_ts
            &&& w.active[t].status == m.active[t].status
            &&& r.active[t].status == m.active[t].status
            &&& w.active[t].commit_ts == m.active[t].commit_ts
            &&& r.active[t].commit_ts == m.active[t].commit_ts
        },
        forall|o: TxnId| o != t ==> #[trigger] with_write(m, t, key).active[o] == m.active[o],
        forall|o: TxnId| o != t ==> #[trigger] with_read(m, t, key).active[o] == m.active[o],
        with_write(m, t, key).history == m.history,
        with_read(m, t, key).history == m.history,
        with_write(m, t, key).committed_txn == m.committed_txn,
        with_read(m, t, key).committed_txn == m.committed_txn,
        !m.active.contains_key(t) ==> with_write(m, t, key) == m && with_read(m, t, key) == m,
{
    if m.active.contains_key(t) {
        assert(with_write(m, t, key).active.dom() =~= m.active.dom());
        assert(with_read(m, t, key).active.dom() =~= m.active.dom());
    }
}

/// No other active transaction has touched what `t` writes, or writes what `t`
/// has read.
pub open spec fn runs_alone(m: ManagerModel, t: TxnId) -> bool {
    forall|o: TxnId| o != t && #[trigger]
        m.active.contains_key(o) ==> m.active[t].reads.disjoint(m.active[o].writes)
        && m.active[t].writes.disjoint(m.active[o].reads) && m.active[t].writes.disjoint(
        m.active[o].writes,
    )
}

/// Conflicts are exactly the keys that two transactions share, one of them
/// writing.
proof fn lemma_conflicts(m: ManagerModel, t: TxnId)
    ensures
        runs_alone(m, t) <==> !rw_conflict(m, t) && !ww_conflict(m, t),
{
    if runs_alone(m, t) {
        if rw_conflict(m, t) {
            let o = choose|o: TxnId| #[trigger] rw_conflict_with(m, t, o);
            let key = choose|key: Seq<u8>|
                m.active[t].reads.contains(key) && #[trigger] other_writes(m, t, o, key);
            assert(m.active.contains_key(o));
            assert(m.active[t].reads.disjoint(m.active[o].writes));
            assert(false);
        }
        if ww_conflict(m, t) {
            let key = choose|key: Seq<u8>| #[trigger] ww_conflict_on(m, t, key);
            let o = choose|o: TxnId| #[trigger] other_touches(m, t, o, key);
            assert(m.active.contains_key(o));
            assert(m.active[t].writes.disjoint(m.active[o].reads));
            assert(m.active[t].writes.disjoint(m.active[o].writes));
            assert(false);
        }
    }
    if !rw_conflict(m, t) && !ww_conflict(m, t) {
        assert forall|o: TxnId| o != t && #[trigger]
            m.active.contains_key(o) implies m.active[t].reads.disjoint(m.active[o].writes)
            && m.active[t].writes.disjoint(m.active[o].reads) && m.active[t].writes.disjoint(
            m.active[o].writes,
        ) by {
            assert forall|key: Seq<u8>| !(#[trigger] m.active[t].reads.contains(key)
                && m.active[o].writes.contains(key)) by {
                if m.active[t].reads.contains(key) && m.active[o].writes.contains(key) {
                    assert(other_writes(m, t, o, key));
                    assert(rw_conflict_with(m, t, o));
                }
            }
            assert forall|key: Seq<u8>| !(#[trigger] m.active[t].writes.contains(key) && (
            m.active[o].writes.contains(key) || m.active[o].reads.contains(key))) by {
                if m.active[t].writes.contains(key) && (m.active[o].writes.contains(key)
                    || m.active[o].reads.contains(key)) {
                    assert(other_touches(m, t, o, key));
                    assert(ww_conflict_on(m, t, key));
                }
            }
        }
    }
}

/// A check for conflicts passes if and only if the transaction is active and
/// shares no key with another active one of which either writes it. One that
/// fails for a conflict aborts the transaction, and changes nothing else.
pub proof fn law_check_is_exact(
    before: ManagerModel,
    t: TxnId,
    r: Result<()>,
    after: ManagerModel,
)
    requires
        check_outcome(before, t, r, after),
    ensures
        r is Ok <==> before.active.contains_key(t) && forall|o: TxnId| o != t && #[trigger]
            before.active.contains_key(o) ==> before.active[t].reads.disjoint(
            before.active[o].writes,
        ) && before.active[t].writes.disjoint(before.active[o].reads)
            && before.active[t].writes.disjoint(before.active[o].writes),
        r is Err ==> r->Err_0 is MvccConflict,
        r is Ok ==> after == before,
        r is Err ==> after == (ManagerModel { active: before.active.remove(t), ..before }),
{
    lemma_conflicts(before, t);
    if !before.active.contains_key(t) {
        assert(before.active.remove(t) =~= before.active);
    }
}

/// A commit succeeds if and only if the transaction is active and shares no key
/// with another active one of which either writes it.
pub proof fn law_commit_is_exact(
    before: ManagerModel,
    t: TxnId,
    inserted_at: u64,
    commit_ts: u64,
    now_ms: u64,
    r: Result<TxnSnapshot>,
    after: ManagerModel,
)
    requires
        commit_outcome(before, t, inserted_at, commit_ts, now_ms, r, after),
    ensures
        r is Ok <==> before.active.contains_key(t) && forall|o: TxnId| o != t && #[trigger]
            before.active.contains_key(o) ==> before.active[t].reads.disjoint(
            before.active[o].writes,
        ) && before.active[t].writes.disjoint(before.active[o].reads)
            && before.active[t].writes.disjoint(before.active[o].writes),
        r is Err ==> r->Err_0 is MvccConflict && after == (ManagerModel {
            active: before.active.remove(t),
            ..before
        }),
{
    lemma_conflicts(before, t);
    if !before.active.contains_key(t) {
        assert(before.active.remove(t) =~= before.active);
    }
}

/// A conflict that ends a transaction is reported with another active
/// transaction that it really shares a key with.
pub proof fn law_reported_conflict_is_real(
    before: ManagerModel,
    t: TxnId,
    r: Result<()>,
    after: ManagerModel,
)
    requires
        check_outcome(before, t, r, after),
        before.active.contains_key(t),
        r is Err,
    ensures
        exists|o: TxnId, rw: bool|
            o != t && before.active.contains_key(o) && r->Err_0->MvccConflict_0@
                == #[trigger] crate::mvcc::visibility::conflict_text(t, o, rw) && (if rw {
                !before.active[t].reads.disjoint(before.active[o].writes)
            } else {
                !before.active[t].writes.disjoint(before.active[o].reads.union(before.active[o].writes))
            }),
{
    if rw_conflict(before, t) {
        let o = choose|o: TxnId| #[trigger]
            rw_conflict_with(before, t, o) && r->Err_0->MvccConflict_0@
                == crate::mvcc::visibility::conflict_text(t, o, true);
        let key = choose|key: Seq<u8>|
            before.active[t].reads.contains(key) && #[trigger] other_writes(before, t, o, key);
        assert(before.active[o].writes.contains(key));
        assert(!before.active[t].reads.disjoint(before.active[o].writes));
    } else {
        let o = choose|o: TxnId| #[trigger]
            crate::mvcc::visibility::ww_reported(before, t, o) && r->Err_0->MvccConflict_0@
                == crate::mvcc::visibility::conflict_text(t, o, false);
        let key = choose|key: Seq<u8>| #[trigger]
            before.active[t].writes.contains(key) && (other_reads(before, t, o, key) || (
            other_writes(before, t, o, key) && forall|p: TxnId| !other_reads(before, t, p, key)));
        assert(before.active[o].reads.union(before.active[o].writes).contains(key));
        assert(!before.active[t].writes.disjoint(
            before.active[o].reads.union(before.active[o].writes),
        ));
    }
}

/// Registering a transaction succeeds if and only if its id is above every
/// committed one and not in use. It then starts with nothing read or written,
/// and everything else is as before.
pub proof fn law_begin_is_exact(before: ManagerModel, t: TxnId, r: Result<()>, after: ManagerModel)
    requires
        begin_outcome(before, t, r, after),
    ensures
        r is Ok <==> !before.active.contains_key(t) && t > before.committed_txn,
        r is Err ==> after == before && r->Err_0 is MvccConflict,
        r is Ok ==> {
            &&& after.active.dom() == before.active.dom().insert(t)
            &&& after.active[t].begin_ts == t
            &&& after.active[t].status == TxnStatus::Active
            &&& after.active[t].commit_ts is None
            &&& forall|key: Seq<u8>| !(#[trigger] after.active[t].reads.contains(key))
            &&& forall|key: Seq<u8>| !(#[trigger] after.active[t].writes.contains(key))
            &&& forall|o: TxnId| o != t ==> #[trigger] after.active[o] == before.active[o]
            &&& after == (ManagerModel { active: after.active, ..before })
        },
{
    if r is Ok {
        assert(after.active.dom() =~= before.active.dom().insert(t));
    }
}

/// An entry of the history is evicted by age if and only if it is older than
/// the configured time-to-live when an eviction is due, that is after 256
/// commits or a second. An entry that is no older stays, as long as there are
/// not too many.
pub proof fn law_retention_by_age(
    before: ManagerModel,
    now_ms: u64,
    after: ManagerModel,
    t: TxnId,
)
    requires
        pruned(before, now_ms, after),
        before.history.contains_key(t),
    ensures
        before.history.len() <= before.config.max_history_entries && now_ms - before.history[t].1
            <= before.config.history_ttl_secs * 1000 ==> after.history.contains_key(t)
            && after.history[t] == before.history[t],
        now_ms - before.history[t].1 > before.config.history_ttl_secs * 1000 && (now_ms
            - before.last_ttl_check_ms >= 1000 || commits_between(
            before.last_ttl_check_seq,
            before.commit_seq,
        ) >= 256) ==> !after.history.contains_key(t),
        before.history.len() <= before.config.max_history_entries && now_ms
            - before.last_ttl_check_ms < 1000 && commits_between(
            before.last_ttl_check_seq,
            before.commit_seq,
        ) < 256 ==> after == before,
{
    let max = before.config.max_history_entries;
    let kept = choose|kept: Map<TxnId, (u64, u64)>| #[trigger]
        evicted_by_count(before.history, max, kept) && after == after_ttl(
            ManagerModel { history: kept, ..before },
            now_ms,
        );
}

/// How many commits lie between two readings of the commit counter, which
/// starts again at zero after its largest value.
pub open spec fn commits_between(earlier: u64, later: u64) -> int {
    if later >= earlier {
        later - earlier
    } else {
        later + 0x1_0000_0000_0000_0000 - earlier
    }
}

/// When the history holds too many entries, four fifths of the allowed number
/// stay, unless they are too old as well. What goes is never younger than what
/// stays.
pub proof fn law_retention_by_count(before: ManagerModel, now_ms: u64, after: ManagerModel)
    requires
        before.history.dom().finite(),
        pruned(before, now_ms, after),
    ensures
        before.history.len() > before.config.max_history_entries ==> 5 * after.history.len() <= 4
            * before.config.max_history_entries,
        before.history.len() > before.config.max_history_entries && now_ms
            - before.last_ttl_check_ms < 1000 && commits_between(
            before.last_ttl_check_seq,
            before.commit_seq,
        ) < 256 ==> 4 * before.config.max_history_entries < 5 * after.history.len() + 5,
        forall|a: TxnId, b: TxnId| #[trigger]
            after.history.contains_key(a) && #[trigger] before.history.contains_key(b)
                && !after.history.contains_key(b) ==> before.history[b].1 <= before.history[a].1,
{
    let max = before.config.max_history_entries;
    law_pruned_history_is_bounded(before, now_ms, after);
    let kept = choose|kept: Map<TxnId, (u64, u64)>| #[trigger]
        evicted_by_count(before.history, max, kept) && after == after_ttl(
            ManagerModel { history: kept, ..before },
            now_ms,
        );
    assert(kept.dom().subset_of(before.history.dom())) by {
        assert forall|t: TxnId| kept.dom().contains(t) implies before.history.dom().contains(t) by {
            assert(kept.contains_key(t));
        }
    }
    vstd::set_lib::lemma_set_subset_finite(before.history.dom(), kept.dom());
    assert(after.history.dom().subset_of(kept.dom())) by {
        assert forall|t: TxnId| after.history.dom().contains(t) implies kept.dom().contains(t) by {
            assert(after.history.contains_key(t));
        }
    }
    vstd::set_lib::lemma_len_subset(after.history.dom(), kept.dom());
    assert forall|a: TxnId, b: TxnId| #[trigger]
        after.history.contains_key(a) && #[trigger] before.history.contains_key(b)
            && !after.history.contains_key(b) implies before.history[b].1 <= before.history[a].1 by {
        assert(kept.contains_key(a)) by {
            assert(after.history.dom().contains(a));
            assert(kept.dom().contains(a));
        }
        assert(kept[a] == before.history[a]);
        if kept.contains_key(b) {
            assert(kept[b] == before.history[b]);
        } else {
            assert(before.history[b].1 <= before.history[a].1);
        }
    }
}

/// What a commit leaves behind: the transaction is no longer active and stands
/// in the history under its own times; whatever else is in the history was in
/// it before, and stays while it is neither too old nor one too many.
pub proof fn law_commit_enters_the_history(
    before: ManagerModel,
    t: TxnId,
    inserted_at: u64,
    commit_ts: u64,
    now_ms: u64,
    r: Result<TxnSnapshot>,
    after: ManagerModel,
    u: TxnId,
)
    requires
        before.history.dom().finite(),
        commit_outcome(before, t, inserted_at, commit_ts, now_ms, r, after),
        r is Ok,
    ensures
        after.active == before.active.remove(t),
        after.config == before.config,
        after.replay_watermark == before.replay_watermark,
        commits_between(before.commit_seq, after.commit_seq) == 1,
        after.committed_txn >= t && after.committed_txn >= before.committed_txn,
        after.committed_txn == t || after.committed_txn == before.committed_txn,
        after.history.contains_key(t) ==> after.history[t] == (commit_ts, inserted_at),
        u != t && after.history.contains_key(u) ==> before.history.contains_key(u)
            && after.history[u] == before.history[u],
        before.history.len() < before.config.max_history_entries && now_ms - inserted_at
            <= before.config.history_ttl_secs * 1000 ==> after.history.contains_key(t),
        before.history.len() < before.config.max_history_entries && u != t
            && before.history.contains_key(u) && now_ms - before.history[u].1
            <= before.config.history_ttl_secs * 1000 ==> after.history.contains_key(u),
{
    let m = entered(before, t, commit_ts, inserted_at);
    assert(m.history.dom() =~= before.history.dom().insert(t));
    law_pruned_history_is_bounded(m, now_ms, after);
    law_retention_by_age(m, now_ms, after, t);
    if u != t && before.history.contains_key(u) {
        assert(m.history.contains_key(u));
        law_retention_by_age(m, now_ms, after, u);
    }
    if after.history.contains_key(t) {
        assert(after.history.dom().contains(t));
        assert(m.history.dom().contains(t));
        assert(after.history[t] == m.history[t]);
        assert(m.history[t] == (commit_ts, inserted_at));
    }
    if u != t && after.history.contains_key(u) {
        assert(after.history.dom().contains(u));
        assert(m.history.contains_key(u));
    }
}

/// What a snapshot holds, and what it sees: of the current state, every
/// transaction in the history that is not active; of the state at `at`, those
/// among them that began and committed by then.
pub proof fn law_snapshot_sees_exactly(
    m: ManagerModel,
    isolation: IsolationLevel,
    at: TxnId,
    t: TxnId,
)
    requires
        m.history.dom().finite(),
    ensures
        t <= m.committed_txn ==> (snapshot_of(m, isolation).sees(t) <==> m.history.contains_key(t)
            && !m.active.contains_key(t)),
        snapshot_of(m, isolation).isolation == isolation,
        snapshot_of(m, isolation).active == m.active.dom(),
        snapshot_of(m, isolation).commits.contains_key(t) <==> m.history.contains_key(t),
        m.history.contains_key(t) ==> snapshot_of(m, isolation).commits[t] == m.history[t].0,
        snapshot_of(m, isolation).snapshot_id >= m.committed_txn,
        m.history.contains_key(t) ==> snapshot_of(m, isolation).snapshot_id >= m.history[t].0,
        snapshot_of(m, isolation).snapshot_id == m.committed_txn || exists|u: TxnId| #[trigger]
            m.history.contains_key(u) && m.history[u].0 == snapshot_of(m, isolation).snapshot_id,
        snapshot_as_of(m, at, isolation).sees(t) <==> t <= at && m.history.contains_key(t)
            && m.history[t].0 <= at && !(m.active.contains_key(t) && m.active[t].begin_ts <= at),
        snapshot_as_of(m, at, isolation).snapshot_id == at,
        snapshot_as_of(m, at, isolation).isolation == isolation,
        snapshot_as_of(m, at, isolation).active.contains(t) <==> m.active.contains_key(t)
            && m.active[t].begin_ts <= at,
{
    lemma_snapshot_id_exists(m);
}

/// When a row is visible. It is not if its creator lies in the future, is
/// active, has left no commit, or committed after the snapshot; it is
/// otherwise, unless a deleter that is not active has committed by the
/// snapshot.
pub proof fn law_row_visibility(
    snapshot_id: TxnId,
    created: TxnId,
    deleted: TxnId,
    active: Set<TxnId>,
    commits: Map<TxnId, u64>,
)
    ensures
        created > snapshot_id ==> !row_visible(snapshot_id, created, None, active, commits),
        active.contains(created) ==> !row_visible(snapshot_id, created, None, active, commits),
        !commits.contains_key(created) ==> !row_visible(
            snapshot_id,
            created,
            None,
            active,
            commits,
        ),
        commits[created] > snapshot_id ==> !row_visible(
            snapshot_id,
            created,
            None,
            active,
            commits,
        ),
        created <= snapshot_id && !active.contains(created) && commits.contains_key(created)
            && commits[created] <= snapshot_id ==> row_visible(
            snapshot_id,
            created,
            None,
            active,
            commits,
        ),
        row_visible(snapshot_id, created, Some(deleted), active, commits) <==> row_visible(
            snapshot_id,
            created,
            None,
            active,
            commits,
        ) && !(commits.contains_key(deleted) && commits[deleted] <= snapshot_id
            && !active.contains(deleted)),
{
}

/// The oldest begin timestamp lies below that of every active transaction and
/// is one of them; with nobody active it is the largest number.
pub proof fn law_oldest_begin(m: ManagerModel, ts: u64, t: TxnId)
    requires
        is_oldest_begin(m, ts),
    ensures
        m.active.contains_key(t) ==> ts <= m.active[t].begin_ts,
        m.active.contains_key(t) ==> exists|u: TxnId| #[trigger]
            m.active.contains_key(u) && m.active[u].begin_ts == ts,
        (forall|u: TxnId| !(#[trigger] m.active.contains_key(u))) ==> ts == u64::MAX,
{
    if m.active.contains_key(t) && ts == u64::MAX {
        assert(m.active[t].begin_ts == ts);
    }
}

proof fn lemma_recovered_listed(
    list: Seq<(TxnId, u64)>,
    wal: Map<TxnId, u64>,
    now_ms: u64,
    t: TxnId,
)
    ensures
        recovered_history(list, wal, now_ms).contains_key(t) <==> exists|j: int|
            0 <= j < list.len() && (#[trigger] list[j]).0 == t,
    decreases list.len(),
{
    if list.len() > 0 {
        let rest = list.drop_last();
        let n = list.len() - 1;
        lemma_recovered_listed(rest, wal, now_ms, t);
        assert(list[n] == list.last());
        if exists|j: int| 0 <= j < rest.len() && (#[trigger] rest[j]).0 == t {
            let j = choose|j: int| 0 <= j < rest.len() && (#[trigger] rest[j]).0 == t;
            assert(list[j].0 == t);
        }
        if exists|j: int| 0 <= j < list.len() && (#[trigger] list[j]).0 == t {
            let j = choose|j: int| 0 <= j < list.len() && (#[trigger] list[j]).0 == t;
            if j < n {
                assert(rest[j].0 == t);
            }
        }
    }
}

proof fn lemma_recovered_entry(
    list: Seq<(TxnId, u64)>,
    wal: Map<TxnId, u64>,
    now_ms: u64,
    t: TxnId,
    i: int,
)
    requires
        0 <= i < list.len(),
        list[i].0 == t,
        forall|j: int| i < j < list.len() ==> (#[trigger] list[j]).0 != t,
    ensures
        recovered_history(list, wal, now_ms)[t].0 == list[i].1,
        recovered_history(list, wal, now_ms)[t].1 == (if wal.contains_key(t) {
            wal[t]
        } else {
            now_ms
        }),
    decreases list.len(),
{
    let n = list.len() - 1;
    if i < n {
        let rest = list.drop_last();
        assert(list[n].0 != t);
        assert forall|j: int| i < j < rest.len() implies (#[trigger] rest[j]).0 != t by {
            assert(list[j].0 != t);
        }
        lemma_recovered_entry(rest, wal, now_ms, t, i);
    }
}

proof fn lemma_max_txn_of(list: Seq<(TxnId, u64)>, floor: TxnId)
    ensures
        max_txn_of(list, floor) >= floor,
        forall|j: int| 0 <= j < list.len() ==> (#[trigger] list[j]).0 <= max_txn_of(list, floor),
        max_txn_of(list, floor) == floor || exists|j: int|
            0 <= j < list.len() && (#[trigger] list[j]).0 == max_txn_of(list, floor),
    decreases list.len(),
{
    if list.len() > 0 {
        let rest = list.drop_last();
        lemma_max_txn_of(rest, floor);
        assert forall|j: int| 0 <= j < list.len() implies (#[trigger] list[j]).0 <= max_txn_of(
            list,
            floor,
        ) by {
            if j < rest.len() {
                assert(rest[j] == list[j]);
            }
        }
        if max_txn_of(rest, floor) != floor {
            let j = choose|j: int|
                0 <= j < rest.len() && (#[trigger] rest[j]).0 == max_txn_of(rest, floor);
            assert(list[j].0 == max_txn_of(rest, floor));
        }
        assert(list[list.len() - 1] == list.last());
    }
}

/// A recovered history lists exactly the transactions of the list, each with
/// its last commit timestamp there and with the insertion time that the WAL
/// carries, or the current one where it carries none. The largest committed id
/// is never below one of them, and does not go back.
pub proof fn law_recovery_is_exact(
    m: ManagerModel,
    list: Seq<(TxnId, u64)>,
    config: Option<VisibilityConfig>,
    wal: Map<TxnId, u64>,
    now_ms: u64,
    t: TxnId,
    i: int,
)
    ensures
        recovered(m, list, config, wal, now_ms).history.contains_key(t) <==> exists|j: int|
            0 <= j < list.len() && (#[trigger] list[j]).0 == t,
        0 <= i < list.len() && list[i].0 == t && (forall|j: int|
            i < j < list.len() ==> (#[trigger] list[j]).0 != t) ==> recovered(
            m,
            list,
            config,
            wal,
            now_ms,
        ).history[t] == (
            list[i].1,
            if wal.contains_key(t) {
                wal[t]
            } else {
                now_ms
            },
        ),
        recovered(m, list, config, wal, now_ms).committed_txn >= m.committed_txn,
        0 <= i < list.len() ==> recovered(m, list, config, wal, now_ms).committed_txn >= list[i].0,
        recovered(m, list, config, wal, now_ms).committed_txn == m.committed_txn || exists|j: int|
            0 <= j < list.len() && (#[trigger] list[j]).0 == recovered(
                m,
                list,
                config,
                wal,
                now_ms,
            ).committed_txn,
        config is None ==> recovered(m, list, config, wal, now_ms).config == m.config,
        config is Some ==> recovered(m, list, config, wal, now_ms).config == config->0,
        recovered(m, list, config, wal, now_ms).active == m.active,
        recovered(m, list, config, wal, now_ms).replay_watermark == m.replay_watermark,
        recovered(m, list, config, wal, now_ms).commit_seq == m.commit_seq,
{
    lemma_recovered_listed(list, wal, now_ms, t);
    if 0 <= i < list.len() && list[i].0 == t && (forall|j: int|
        i < j < list.len() ==> (#[trigger] list[j]).0 != t) {
        lemma_recovered_entry(list, wal, now_ms, t, i);
    }
    lemma_max_txn_of(list, m.committed_txn);
}

} // verus!
