//! What holds of recovery: which transactions a log brings back, and with what.

use crate::error::{IoErrorKind, Result, Z1Error};
use crate::maps::strictly_ascending;
use crate::metrics::{count_in, DegradeCounts};
use crate::wal::record::{wal_models, RecordModel, WalEntry, WalModel};
use crate::wal::recovery::{
    aborts, bumped, classifies, commit_of, corruption_counted, discarded, fail_of, inserted_times,
    is_commit_order, max_committed, max_inserted, pending_of, puts_model, recovers, replay_of,
    replay_runs, restored, rolled_back, same_kind, txn_runs, writes_run, CorruptionLocation,
    RecoverableReason, RecoveryResult, ReplayErrorKind,
};
use crate::TxnId;
use vstd::prelude::*;

verus! {

/// A transaction has committed if and only if the log holds a commit record of
/// it, and its times are those of the last one.
pub proof fn law_commit_is_the_last_record(rs: Seq<WalModel>, t: TxnId, i: int)
    ensures
        commit_of(rs, t) is Some <==> exists|j: int|
            0 <= j < rs.len() && (#[trigger] rs[j]).txn_id == t && rs[j].record is Commit,
        0 <= i < rs.len() && rs[i].txn_id == t && rs[i].record is Commit && (forall|j: int|
            i < j < rs.len() ==> !((#[trigger] rs[j]).txn_id == t && rs[j].record is Commit))
            ==> commit_of(rs, t) == Some(
            (rs[i].record->Commit_commit_ts, rs[i].record->Commit_inserted_at),
        ),
    decreases rs.len(),
{
    if rs.len() > 0 {
        let rest = rs.drop_last();
        let n = rs.len() - 1;
        law_commit_is_the_last_record(rest, t, i);
        assert(rs[n] == rs.last());
        assert forall|j: int| 0 <= j < n implies #[trigger] rest[j] == rs[j] by {}
        if exists|j: int|
            0 <= j < rest.len() && (#[trigger] rest[j]).txn_id == t && rest[j].record is Commit {
            let j = choose|j: int|
                0 <= j < rest.len() && (#[trigger] rest[j]).txn_id == t && rest[j].record is Commit;
            assert(rs[j].txn_id == t && rs[j].record is Commit);
        }
        if exists|j: int|
            0 <= j < rs.len() && (#[trigger] rs[j]).txn_id == t && rs[j].record is Commit {
            let j = choose|j: int|
                0 <= j < rs.len() && (#[trigger] rs[j]).txn_id == t && rs[j].record is Commit;
            if j < n {
                assert(rest[j].txn_id == t && rest[j].record is Commit);
            }
        }
        if 0 <= i < n && rs[i].txn_id == t && rs[i].record is Commit && (forall|j: int|
            i < j < rs.len() ==> !((#[trigger] rs[j]).txn_id == t && rs[j].record is Commit)) {
            assert(!(rs[n].txn_id == t && rs[n].record is Commit));
            assert forall|j: int| i < j < rest.len() implies !((#[trigger] rest[j]).txn_id == t
                && rest[j].record is Commit) by {
                assert(rs[j].txn_id == rest[j].txn_id);
            }
        }
    }
}

/// A transaction was rolled back if and only if the log holds a rollback record
/// of it.
pub proof fn law_rollback_is_a_record(rs: Seq<WalModel>, t: TxnId)
    ensures
        rolled_back(rs, t) <==> exists|j: int|
            0 <= j < rs.len() && (#[trigger] rs[j]).txn_id == t && rs[j].record is Rollback,
    decreases rs.len(),
{
    if rs.len() > 0 {
        let rest = rs.drop_last();
        let n = rs.len() - 1;
        law_rollback_is_a_record(rest, t);
        assert(rs[n] == rs.last());
        if rolled_back(rest, t) {
            let j = choose|j: int|
                0 <= j < rest.len() && (#[trigger] rest[j]).txn_id == t && rest[j].record
                    is Rollback;
            assert(rs[j].txn_id == t && rs[j].record is Rollback);
        }
        if exists|j: int|
            0 <= j < rs.len() && (#[trigger] rs[j]).txn_id == t && rs[j].record is Rollback {
            let j = choose|j: int|
                0 <= j < rs.len() && (#[trigger] rs[j]).txn_id == t && rs[j].record is Rollback;
            if j < n {
                assert(rest[j].txn_id == t && rest[j].record is Rollback);
            }
        }
    }
}

/// What a transaction that was never rolled back has pending: all of its
/// writes, in the order of the log. It has something pending if and only if it
/// has begun or written.
pub proof fn law_pending_are_all_writes(rs: Seq<WalModel>, t: TxnId)
    requires
        forall|j: int| 0 <= j < rs.len() ==> !((#[trigger] rs[j]).txn_id == t && rs[j].record
            is Rollback),
    ensures
        pending_of(rs, t) is Some <==> exists|j: int|
            0 <= j < rs.len() && (#[trigger] rs[j]).txn_id == t && (rs[j].record is Put
                || rs[j].record is Begin),
        pending_of(rs, t) is Some ==> pending_of(rs, t)->0 == rs.filter(
            |e: WalModel| e.txn_id == t && e.record is Put,
        ),
        replay_of(rs, t) == Some(rs.filter(|e: WalModel| e.txn_id == t && e.record is Put)),
    decreases rs.len(),
{
    reveal(Seq::filter);
    law_rollback_is_a_record(rs, t);
    if rs.len() > 0 {
        let rest = rs.drop_last();
        let n = rs.len() - 1;
        assert forall|j: int| 0 <= j < rest.len() implies !((#[trigger] rest[j]).txn_id == t
            && rest[j].record is Rollback) by {
            assert(rs[j] == rest[j]);
        }
        law_pending_are_all_writes(rest, t);
        assert(rs[n] == rs.last());
        assert(!(rs[n].txn_id == t && rs[n].record is Rollback));
        if exists|j: int|
            0 <= j < rest.len() && (#[trigger] rest[j]).txn_id == t && (rest[j].record is Put
                || rest[j].record is Begin) {
            let j = choose|j: int|
                0 <= j < rest.len() && (#[trigger] rest[j]).txn_id == t && (rest[j].record is Put
                    || rest[j].record is Begin);
            assert(rs[j].txn_id == t && (rs[j].record is Put || rs[j].record is Begin));
        }
        if exists|j: int|
            0 <= j < rs.len() && (#[trigger] rs[j]).txn_id == t && (rs[j].record is Put
                || rs[j].record is Begin) {
            let j = choose|j: int|
                0 <= j < rs.len() && (#[trigger] rs[j]).txn_id == t && (rs[j].record is Put
                    || rs[j].record is Begin);
            if j < n {
                assert(rest[j].txn_id == t && (rest[j].record is Put || rest[j].record is Begin));
            }
        }
        if pending_of(rest, t) is None {
            assert(rest.filter(|e: WalModel| e.txn_id == t && e.record is Put) =~= Seq::<
                WalModel,
            >::empty());
        }
    } else {
        assert(rs.filter(|e: WalModel| e.txn_id == t && e.record is Put) =~= Seq::<
            WalModel,
        >::empty());
    }
}

/// What a transaction has pending after a rollback counts from the rollback on.
pub proof fn law_pending_starts_over(a: Seq<WalModel>, b: Seq<WalModel>, t: TxnId)
    ensures
        pending_of(
            a.push(WalModel { txn_id: t, record: RecordModel::Rollback }) + b,
            t,
        ) == pending_of(b, t),
    decreases b.len(),
{
    let head = a.push(WalModel { txn_id: t, record: RecordModel::Rollback });
    let all = head + b;
    if b.len() == 0 {
        assert(all =~= head);
        assert(head.drop_last() =~= a);
    } else {
        law_pending_starts_over(a, b.drop_last(), t);
        assert(all.drop_last() =~= head + b.drop_last());
        assert(all.last() == b.last());
    }
}

/// The transactions that recovery discards: those that have begun or written,
/// and have neither committed nor been rolled back.
pub proof fn law_discarded_exactly(rs: Seq<WalModel>, t: TxnId)
    ensures
        discarded(rs).contains(t) <==> (exists|j: int|
            0 <= j < rs.len() && (#[trigger] rs[j]).txn_id == t && (rs[j].record is Put
                || rs[j].record is Begin)) && (forall|j: int|
            0 <= j < rs.len() ==> !((#[trigger] rs[j]).txn_id == t && (rs[j].record is Commit
                || rs[j].record is Rollback))),
{
    law_commit_is_the_last_record(rs, t, 0);
    law_rollback_is_a_record(rs, t);
    if !rolled_back(rs, t) {
        assert forall|j: int| 0 <= j < rs.len() implies !((#[trigger] rs[j]).txn_id == t
            && rs[j].record is Rollback) by {}
        law_pending_are_all_writes(rs, t);
    }
}

/// The largest committed transaction and the largest insertion time of a log
/// are above none of its commits' and are one of them, or zero.
pub proof fn law_largest_commit(rs: Seq<WalModel>)
    ensures
        forall|j: int|
            0 <= j < rs.len() && (#[trigger] rs[j]).record is Commit ==> rs[j].txn_id
                <= max_committed(rs) && rs[j].record->Commit_inserted_at <= max_inserted(rs),
        max_committed(rs) == 0 || exists|j: int|
            0 <= j < rs.len() && (#[trigger] rs[j]).record is Commit && rs[j].txn_id
                == max_committed(rs),
        max_inserted(rs) == 0 || exists|j: int|
            0 <= j < rs.len() && (#[trigger] rs[j]).record is Commit
                && rs[j].record->Commit_inserted_at == max_inserted(rs),
    decreases rs.len(),
{
    if rs.len() > 0 {
        let rest = rs.drop_last();
        let n = rs.len() - 1;
        law_largest_commit(rest);
        assert(rs[n] == rs.last());
        assert forall|j: int| 0 <= j < rs.len() && (#[trigger] rs[j]).record is Commit implies
            rs[j].txn_id <= max_committed(rs) && rs[j].record->Commit_inserted_at <= max_inserted(
            rs,
        ) by {
            if j < n {
                assert(rest[j] == rs[j]);
            }
        }
        if max_committed(rest) != 0 {
            let j = choose|j: int|
                0 <= j < rest.len() && (#[trigger] rest[j]).record is Commit && rest[j].txn_id
                    == max_committed(rest);
            assert(rs[j].record is Commit && rs[j].txn_id == max_committed(rest));
        }
        if max_inserted(rest) != 0 {
            let j = choose|j: int|
                0 <= j < rest.len() && (#[trigger] rest[j]).record is Commit
                    && rest[j].record->Commit_inserted_at == max_inserted(rest);
            assert(rs[j].record is Commit && rs[j].record->Commit_inserted_at == max_inserted(
                rest,
            ));
        }
    }
}

/// The insertion times that recovery hands on are those of the commits.
pub proof fn law_insertion_times(rs: Seq<WalModel>, t: TxnId)
    ensures
        inserted_times(rs).contains_key(t) <==> commit_of(rs, t) is Some,
        commit_of(rs, t) is Some ==> inserted_times(rs)[t] == (commit_of(rs, t)->0).1,
{
}

/// What is restored where every write could be applied, after the transactions
/// of `order`.
proof fn lemma_restored(rs: Seq<WalModel>, order: Seq<TxnId>, strict: bool, t: TxnId, k: int)
    requires
        strictly_ascending(order),
        forall|i: int| 0 <= i < order.len() ==> commit_of(rs, #[trigger] order[i]) is Some,
    ensures
        ({
            let (got, end) = restored(rs, order, Map::empty(), strict);
            &&& end is None
            &&& got.lost.len() == 0
            &&& got.count <= order.len()
            &&& (forall|i: int| 0 <= i < order.len() ==> replay_of(rs, #[trigger] order[i]) is Some)
                ==> got.count == order.len()
            &&& got.commits.contains_key(t) <==> order.contains(t) && replay_of(rs, t) is Some
            &&& got.commits.contains_key(t) ==> got.commits[t] == (commit_of(rs, t)->0).0 && t
                <= got.last
            &&& got.last == 0 || got.commits.contains_key(got.last)
            &&& order.contains(t) && replay_of(rs, t) is Some && 0 <= k < (replay_of(
                rs,
                t,
            )->0).len() ==> exists|i: int|
                0 <= i < got.puts.len() && (#[trigger] got.puts[i]) == (
                    t,
                    (replay_of(rs, t)->0)[k].record,
                )
            &&& forall|i: int|
                0 <= i < got.puts.len() ==> order.contains((#[trigger] got.puts[i]).0)
            &&& forall|i: int, j: int|
                0 <= i < j < got.puts.len() ==> (#[trigger] got.puts[i]).0 <= (
                #[trigger] got.puts[j]).0
        }),
    decreases order.len(),
{
    if order.len() > 0 {
        let rest = order.drop_last();
        let n = order.len() - 1;
        let u = order.last();
        assert(order[n] == u);
        assert forall|i: int| 0 <= i < rest.len() implies #[trigger] rest[i] == order[i] by {}
        assert forall|i: int| 0 <= i < rest.len() implies commit_of(rs, #[trigger] rest[i])
            is Some by {
            assert(commit_of(rs, order[i]) is Some);
        }
        lemma_restored(rs, rest, strict, t, k);
        let (r0, end0) = restored(rs, rest, Map::empty(), strict);
        let (r1, end1) = restored(rs, order, Map::empty(), strict);
        assert forall|x: TxnId| order.contains(x) <==> rest.contains(x) || x == u by {
            if rest.contains(x) {
                let i = choose|i: int| 0 <= i < rest.len() && rest[i] == x;
                assert(order[i] == x);
            }
            if order.contains(x) && x != u {
                let i = choose|i: int| 0 <= i < order.len() && order[i] == x;
                assert(rest[i] == x);
            }
        }
        assert(commit_of(rs, order[n]) is Some);
        if forall|i: int| 0 <= i < order.len() ==> replay_of(rs, #[trigger] order[i]) is Some {
            assert(replay_of(rs, order[n]) is Some);
            assert forall|i: int| 0 <= i < rest.len() implies replay_of(rs, #[trigger] rest[i])
                is Some by {
                assert(replay_of(rs, order[i]) is Some);
            }
        }
        if replay_of(rs, u) is Some {
            let ops = replay_of(rs, u)->0;
            let m = r0.puts.len() as int;
            assert forall|i: int| 0 <= i < ops.len() implies #[trigger] r1.puts[m + i] == (
                u,
                ops[i].record,
            ) by {}
            assert forall|i: int| 0 <= i < m implies #[trigger] r1.puts[i] == r0.puts[i] by {}
            if order.contains(t) && replay_of(rs, t) is Some && 0 <= k < (replay_of(
                rs,
                t,
            )->0).len() {
                if rest.contains(t) {
                    let i = choose|i: int|
                        0 <= i < r0.puts.len() && (#[trigger] r0.puts[i]) == (
                            t,
                            (replay_of(rs, t)->0)[k].record,
                        );
                    assert(r1.puts[i] == (t, (replay_of(rs, t)->0)[k].record));
                } else {
                    assert(t == u);
                    assert(r1.puts[m + k] == (t, ops[k].record));
                }
            }
            assert forall|i: int| 0 <= i < r1.puts.len() implies order.contains(
                (#[trigger] r1.puts[i]).0,
            ) by {
                if i < m {
                    assert(rest.contains(r0.puts[i].0));
                } else {
                    assert(r1.puts[m + (i - m)].0 == u);
                }
            }
            assert forall|i: int, j: int| 0 <= i < j < r1.puts.len() implies (
            #[trigger] r1.puts[i]).0 <= (#[trigger] r1.puts[j]).0 by {
                if j < m {
                    assert(r0.puts[i].0 <= r0.puts[j].0);
                } else {
                    assert(r1.puts[m + (j - m)].0 == u);
                    if i < m {
                        assert(rest.contains(r0.puts[i].0));
                        let q = choose|q: int| 0 <= q < rest.len() && rest[q] == r0.puts[i].0;
                        assert(order[q] < order[n]);
                    } else {
                        assert(r1.puts[m + (i - m)].0 == u);
                    }
                }
            }
        }
    } else {
        assert(!order.contains(t));
    }
}

/// What recovery restores where every write could be applied: exactly the
/// transactions that have committed and were not rolled back, each with its
/// commit timestamp and with every write it has pending; in the order of their
/// ids, and nothing of any other. The last one is the largest.
pub proof fn law_recovery_restores_exactly(
    rs: Seq<WalModel>,
    order: Seq<TxnId>,
    strict: bool,
    t: TxnId,
    k: int,
)
    requires
        is_commit_order(rs, order),
    ensures
        ({
            let (got, end) = restored(rs, order, Map::empty(), strict);
            &&& end is None
            &&& got.lost.len() == 0
            &&& got.commits.contains_key(t) <==> commit_of(rs, t) is Some && replay_of(rs, t)
                is Some
            &&& got.commits.contains_key(t) ==> got.commits[t] == (commit_of(rs, t)->0).0 && t
                <= got.last
            &&& got.last == 0 || got.commits.contains_key(got.last)
            &&& got.count <= order.len()
            &&& (forall|i: int| 0 <= i < order.len() ==> replay_of(rs, #[trigger] order[i]) is Some)
                ==> got.count == order.len()
            &&& commit_of(rs, t) is Some && replay_of(rs, t) is Some && 0 <= k < (replay_of(
                rs,
                t,
            )->0).len() ==> exists|i: int|
                0 <= i < got.puts.len() && (#[trigger] got.puts[i]) == (
                    t,
                    (replay_of(rs, t)->0)[k].record,
                )
            &&& forall|i: int, j: int|
                0 <= i < j < got.puts.len() ==> (#[trigger] got.puts[i]).0 <= (
                #[trigger] got.puts[j]).0
        }),
{
    assert forall|i: int| 0 <= i < order.len() implies commit_of(rs, #[trigger] order[i])
        is Some by {
        assert(order.contains(order[i]));
    }
    assert(order.contains(t) <==> commit_of(rs, t) is Some);
    lemma_restored(rs, order, strict, t, k);
}

/// Which errors end a recovery: damaged data does in strict mode alone; a file
/// that exists already or may not be touched never does; any other I/O error
/// always does; nothing else does.
pub proof fn law_which_errors_end_a_recovery(err: Z1Error, strict: bool)
    ensures
        err is Deserialize ==> (aborts(err, strict) <==> strict),
        err is Io && (err->Io_0.kind == IoErrorKind::AlreadyExists || err->Io_0.kind
            == IoErrorKind::PermissionDenied) ==> !aborts(err, strict),
        err is Io && err->Io_0.kind != IoErrorKind::AlreadyExists && err->Io_0.kind
            != IoErrorKind::PermissionDenied ==> aborts(err, strict),
        !(err is Deserialize) && !(err is Io) ==> !aborts(err, strict),
{
}

/// How errors are classified: damaged data is corruption, the two harmless I/O
/// errors can be passed over, other I/O errors are fatal, and anything else is
/// ambiguous.
pub proof fn law_error_classes(kind: ReplayErrorKind, err: Z1Error)
    requires
        classifies(kind, err),
    ensures
        err is Deserialize <==> kind is Corruption,
        err is Io && err->Io_0.kind == IoErrorKind::AlreadyExists <==> kind is Recoverable
            && kind->Recoverable_reason == RecoverableReason::AlreadyExists,
        err is Io && err->Io_0.kind == IoErrorKind::PermissionDenied <==> kind is Recoverable
            && kind->Recoverable_reason == RecoverableReason::PermissionDenied,
        err is Io && err->Io_0.kind != IoErrorKind::AlreadyExists && err->Io_0.kind
            != IoErrorKind::PermissionDenied <==> kind is Fatal,
        !(err is Deserialize) && !(err is Io) <==> kind is Ambiguous,
        err is Deserialize ==> kind->Corruption_location == CorruptionLocation::Deserialize,
        // an error that ends a recovery in any mode is fatal, and the reverse
        kind is Fatal <==> aborts(err, false),
{
}

/// A transaction that could not be applied: where its error ends the recovery,
/// it ends there; where it is damaged, it is listed as lost; otherwise it is
/// passed over. Nothing of it is restored, and what was restored before stays.
pub proof fn law_failed_transaction(
    rs: Seq<WalModel>,
    order: Seq<TxnId>,
    fails: Map<TxnId, Z1Error>,
    strict: bool,
    t: TxnId,
)
    requires
        restored(rs, order, fails, strict).1 is None,
        fails.contains_key(t),
        commit_of(rs, t) is Some,
        replay_of(rs, t) is Some,
    ensures
        ({
            let (before, _) = restored(rs, order, fails, strict);
            let (after, end) = restored(rs, order.push(t), fails, strict);
            &&& end == (if aborts(fails[t], strict) {
                Some(t)
            } else {
                None
            })
            &&& after.commits == before.commits
            &&& after.puts == before.puts
            &&& after.count == before.count
            &&& after.last == before.last
            &&& after.lost == (if fails[t] is Deserialize && !strict {
                before.lost.push((t, fails[t].text()))
            } else {
                before.lost
            })
        }),
{
    assert(order.push(t).drop_last() =~= order);
    assert(order.push(t).last() == t);
}

/// A counter grows by one for every increment, starting at zero.
pub proof fn law_counter_counts(c: u64, n: nat)
    ensures
        c + n <= u64::MAX ==> bumped(Some(c), n) == Some((c + n) as u64),
        0 < n <= u64::MAX ==> bumped(None, n) == Some(n as u64),
        bumped(None, 0) is None,
    decreases n,
{
    if n > 0 {
        law_counter_counts(c, (n - 1) as nat);
    }
}

/// What a recovery reports where every write could be applied: the largest
/// transaction it restored and how many these were, the largest that has
/// committed at all, how many were discarded, and the commits with their
/// times. Nothing is lost.
pub proof fn law_recovery_reports(
    rs: Seq<WalModel>,
    order: Seq<TxnId>,
    strict: bool,
    res: RecoveryResult,
    lost: Seq<(TxnId, Seq<char>)>,
    t: TxnId,
    k: int,
)
    requires
        recovers(rs, order, Map::<TxnId, Z1Error>::empty(), strict, Ok(res), lost),
    ensures
        lost.len() == 0,
        res.commit_ts_map@.contains_key(t) <==> commit_of(rs, t) is Some && replay_of(rs, t)
            is Some,
        res.commit_ts_map@.contains_key(t) ==> res.commit_ts_map@[t] == (commit_of(rs, t)->0).0
            && t <= res.last_committed_txn,
        res.last_committed_txn == 0 || res.commit_ts_map@.contains_key(res.last_committed_txn),
        0 <= k < rs.len() && rs[k].record is Commit ==> rs[k].txn_id <= res.max_seen_committed_txn
            && rs[k].record->Commit_inserted_at <= res.replay_watermark,
        res.max_seen_committed_txn == 0 || exists|j: int|
            0 <= j < rs.len() && (#[trigger] rs[j]).record is Commit && rs[j].txn_id
                == res.max_seen_committed_txn,
        res.inserted_at_map@.contains_key(t) <==> commit_of(rs, t) is Some,
        res.inserted_at_map@.contains_key(t) ==> res.inserted_at_map@[t] == (commit_of(
            rs,
            t,
        )->0).1,
        res.discarded_count == discarded(rs).len(),
        res.committed_count <= order.len(),
        (forall|i: int| 0 <= i < order.len() ==> replay_of(rs, #[trigger] order[i]) is Some)
            ==> res.committed_count == order.len(),
        commit_of(rs, t) is Some && replay_of(rs, t) is Some && 0 <= k < (replay_of(
            rs,
            t,
        )->0).len() ==> exists|i: int|
            0 <= i < res.committed_puts@.len() && (#[trigger] res.committed_puts@[i]).0 == t
                && res.committed_puts@[i].1@ == (replay_of(rs, t)->0)[k].record,
{
    law_recovery_restores_exactly(rs, order, strict, t, k);
    law_largest_commit(rs);
    let got = restored(rs, order, Map::<TxnId, Z1Error>::empty(), strict).0;
    if commit_of(rs, t) is Some && replay_of(rs, t) is Some && 0 <= k < (replay_of(
        rs,
        t,
    )->0).len() {
        let i = choose|i: int|
            0 <= i < got.puts.len() && (#[trigger] got.puts[i]) == (
                t,
                (replay_of(rs, t)->0)[k].record,
            );
        assert(puts_model(res.committed_puts@)[i] == (
            res.committed_puts@[i].0,
            res.committed_puts@[i].1@,
        ));
        assert(res.committed_puts@[i].0 == t);
    }
}

/// A replay applies every write that a committed transaction has pending: once,
/// in the order of the log, each to the state that the one before has left.
/// Where one fails, it is the last one of its transaction that is applied.
pub proof fn law_replay_applies_every_write<S, F: Fn(S, &WalEntry) -> (S, Result<()>)>(
    apply: F,
    rs: Seq<WalModel>,
    order: Seq<TxnId>,
    fails: Map<TxnId, Z1Error>,
    stages: Seq<S>,
    i: int,
)
    requires
        replay_runs(apply, rs, order, fails, stages),
        0 <= i < order.len(),
    ensures
        stages.len() == order.len() + 1,
        replay_of(rs, order[i]) is None ==> stages[i + 1] == stages[i],
        replay_of(rs, order[i]) is Some && !fails.contains_key(order[i]) ==> exists|
            ops: Seq<WalEntry>,
            states: Seq<S>,
        |
            wal_models(ops) == replay_of(rs, order[i])->0 && #[trigger] applied_in_order(
                apply,
                ops,
                states,
            ) && states.len() == ops.len() + 1 && states[0] == stages[i] && states.last()
                == stages[i + 1],
        replay_of(rs, order[i]) is Some && fails.contains_key(order[i]) ==> exists|
            ops: Seq<WalEntry>,
            states: Seq<S>,
        |
            wal_models(ops) == replay_of(rs, order[i])->0 && #[trigger] applied_in_order(
                apply,
                ops,
                states.drop_last(),
            ) && 1 < states.len() <= ops.len() + 1 && states[0] == stages[i] && states.last()
                == stages[i + 1] && call_ensures(
                apply,
                (states[states.len() - 2], &ops[states.len() - 2]),
                (states[states.len() - 1], Err::<(), Z1Error>(fails[order[i]])),
            ),
{
    if let Some(m) = replay_of(rs, order[i]) {
        let outcome = fail_of(fails, order[i]);
        assert(txn_runs(apply, m, stages[i], stages[i + 1], outcome));
        let (ops, states) = choose|ops: Seq<WalEntry>, states: Seq<S>|
            wal_models(ops) == m && #[trigger] writes_run(apply, ops, states, outcome)
                && states[0] == stages[i] && states.last() == stages[i + 1];
        if outcome is None {
            assert forall|k: int| 0 <= k < states.len() - 1 implies call_ensures(
                apply,
                (#[trigger] states[k], &ops[k]),
                (states[k + 1], Ok::<(), Z1Error>(())),
            ) by {}
            assert(applied_in_order(apply, ops, states));
        } else {
            let head = states.drop_last();
            assert forall|k: int| 0 <= k < head.len() - 1 implies call_ensures(
                apply,
                (#[trigger] head[k], &ops[k]),
                (head[k + 1], Ok::<(), Z1Error>(())),
            ) by {
                assert(head[k] == states[k] && head[k + 1] == states[k + 1]);
            }
            assert(applied_in_order(apply, ops, states.drop_last()));
        }
    }
}

/// Each write takes one state to the next, and succeeds.
pub open spec fn applied_in_order<S, F: Fn(S, &WalEntry) -> (S, Result<()>)>(
    apply: F,
    ops: Seq<WalEntry>,
    states: Seq<S>,
) -> bool {
    forall|k: int|
        0 <= k < states.len() - 1 ==> call_ensures(
            apply,
            (#[trigger] states[k], &ops[k]),
            (states[k + 1], Ok::<(), Z1Error>(())),
        )
}

/// Corrupt transactions that were skipped are counted, each once, and nothing
/// else is.
pub proof fn law_skipped_transactions_are_counted(
    before: DegradeCounts,
    after: DegradeCounts,
    lost: nat,
    metric: Seq<char>,
)
    requires
        corruption_counted(before, after, lost),
    ensures
        metric != "wal_record_corrupt"@ ==> count_in(after.counts@, metric) == count_in(
            before.counts@,
            metric,
        ),
        lost == 0 ==> count_in(after.counts@, "wal_record_corrupt"@) == count_in(
            before.counts@,
            "wal_record_corrupt"@,
        ),
        0 < lost <= u64::MAX && count_in(before.counts@, "wal_record_corrupt"@) is None
            ==> count_in(after.counts@, "wal_record_corrupt"@) == Some(lost as u64),
        count_in(before.counts@, "wal_record_corrupt"@) is Some && count_in(
            before.counts@,
            "wal_record_corrupt"@,
        )->0 + lost <= u64::MAX ==> count_in(after.counts@, "wal_record_corrupt"@) == Some(
            (count_in(before.counts@, "wal_record_corrupt"@)->0 + lost) as u64,
        ),
{
    match count_in(before.counts@, "wal_record_corrupt"@) {
        Some(c) => {
            law_counter_counts(c, lost);
        },
        None => {
            law_counter_counts(0, lost);
        },
    }
}

/// Kinds of errors that are the same read the same, and are of one kind.
pub proof fn law_same_kinds(a: ReplayErrorKind, b: ReplayErrorKind)
    requires
        same_kind(a, b),
    ensures
        a.text() == b.text(),
        a is Recoverable <==> b is Recoverable,
        a is Ambiguous <==> b is Ambiguous,
        a is Corruption <==> b is Corruption,
        a is Fatal <==> b is Fatal,
{
}

} // verus!
