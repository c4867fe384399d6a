//! What holds of an engine that was opened on a log.

use crate::config::Z1Config;
use crate::error::{Result, Z1Error};
use crate::mvcc::visibility::lists_history;
use crate::store::disk::{is_max_patch, is_top_txn, DiskLayer};
use crate::store::mem::estimated;
use crate::store::types::EntryModel;
use crate::txn::engine::{
    grown, history_restored, is_last_known, larger, listed_map, merged_history, opened_from,
    opened_on, opens, recovered_as, replayed_version, top_record_txn, Z1Kv,
};
use crate::wal::laws::law_replay_skips_nothing;
use crate::wal::record::{RecordModel, WalModel};
use crate::wal::recovery::{commit_of, max_inserted, recovers, replay_of, RecoveryResult};
use crate::wal::recovery_laws::{law_largest_commit, law_recovery_restores_exactly};
use crate::wal::replay::{replayed, sound_end};
use crate::wal::writer::WalWriter;
use crate::TxnId;
use vstd::prelude::*;

verus! {

broadcast use {
    vstd::std_specs::btree::group_btree_axioms,
    vstd::std_specs::hash::group_hash_axioms,
    vstd::laws_cmp::group_laws_cmp,
};

proof fn lemma_listed_map(list: Seq<(TxnId, u64)>, t: TxnId)
    ensures
        listed_map(list).contains_key(t) <==> exists|i: int|
            0 <= i < list.len() && (#[trigger] list[i]).0 == t,
    decreases list.len(),
{
    if list.len() > 0 {
        let rest = list.drop_last();
        let n = list.len() - 1;
        lemma_listed_map(rest, t);
        assert(list[n] == list.last());
        if exists|i: int| 0 <= i < rest.len() && (#[trigger] rest[i]).0 == t {
            let i = choose|i: int| 0 <= i < rest.len() && (#[trigger] rest[i]).0 == t;
            assert(list[i].0 == t);
        }
        if exists|i: int| 0 <= i < list.len() && (#[trigger] list[i]).0 == t {
            let i = choose|i: int| 0 <= i < list.len() && (#[trigger] list[i]).0 == t;
            if i < n {
                assert(rest[i].0 == t);
            }
        }
    }
}

proof fn lemma_listed_last(list: Seq<(TxnId, u64)>, i: int)
    requires
        0 <= i < list.len(),
        forall|j: int| i < j < list.len() ==> (#[trigger] list[j]).0 != list[i].0,
    ensures
        listed_map(list)[list[i].0] == list[i].1,
    decreases list.len(),
{
    let rest = list.drop_last();
    let n = list.len() - 1;
    if i < n {
        assert(list[n].0 != list[i].0);
        assert forall|j: int| i < j < rest.len() implies (#[trigger] rest[j]).0 != rest[i].0 by {
            assert(list[j].0 != list[i].0);
        }
        lemma_listed_last(rest, i);
    }
}

/// The history of a checkpoint and what the log adds to it: every transaction
/// of either, with the commit timestamp of the log, and that of the checkpoint
/// where the log has none.
pub proof fn law_log_counts_before_the_checkpoint(
    base: Seq<(TxnId, u64)>,
    wal: Map<TxnId, u64>,
    t: TxnId,
    i: int,
)
    ensures
        merged_history(base, wal).contains_key(t) <==> wal.contains_key(t) || exists|j: int|
            0 <= j < base.len() && (#[trigger] base[j]).0 == t,
        wal.contains_key(t) ==> merged_history(base, wal)[t] == wal[t],
        !wal.contains_key(t) && 0 <= i < base.len() && base[i].0 == t && (forall|j: int|
            i < j < base.len() ==> (#[trigger] base[j]).0 != t) ==> merged_history(base, wal)[t]
            == base[i].1,
{
    lemma_listed_map(base, t);
    if 0 <= i < base.len() && base[i].0 == t && (forall|j: int|
        i < j < base.len() ==> (#[trigger] base[j]).0 != t) {
        lemma_listed_last(base, i);
    }
}

/// The history of an opened engine, exactly: the transactions that the
/// checkpoint lists, and those that the log has committed and not rolled back.
/// What the log has comes with the times of its commit record, so that it is
/// evicted no earlier than it would have been without a restart.
pub proof fn law_opened_history_is_exact(
    e: Z1Kv,
    rec: RecoveryResult,
    baseline: (TxnId, Vec<(TxnId, u64)>),
    rs: Seq<WalModel>,
    t: TxnId,
)
    requires
        opened_from(e, rec, baseline, e.config),
        recovered_as(rs, e.config.strict_mode, rec),
    ensures
        e.mvcc@.history.contains_key(t) <==> (commit_of(rs, t) is Some && replay_of(rs, t)
            is Some) || exists|j: int|
            0 <= j < baseline.1@.len() && (#[trigger] baseline.1@[j]).0 == t,
        commit_of(rs, t) is Some && replay_of(rs, t) is Some ==> e.mvcc@.history[t] == commit_of(
            rs,
            t,
        )->0,
        // the watermark of the replay is the largest insertion time in the log
        forall|j: int|
            0 <= j < rs.len() && (#[trigger] rs[j]).record is Commit
                ==> rs[j].record->Commit_inserted_at <= e.mvcc@.replay_watermark,
        e.mvcc@.replay_watermark == 0 || exists|j: int|
            0 <= j < rs.len() && (#[trigger] rs[j]).record is Commit
                && rs[j].record->Commit_inserted_at == e.mvcc@.replay_watermark,
        e.mvcc@.config == e.config.visibility,
{
    let order = choose|order: Seq<TxnId>| #[trigger]
        recovers(
            rs,
            order,
            Map::<TxnId, Z1Error>::empty(),
            e.config.strict_mode,
            Ok(rec),
            Seq::empty(),
        );
    law_recovery_restores_exactly(rs, order, e.config.strict_mode, t, 0);
    law_largest_commit(rs);
    assert(rec.replay_watermark == max_inserted(rs));
    let now_ms = choose|now_ms: u64| #[trigger]
        history_restored(e, rec, baseline, now_ms);
    law_log_counts_before_the_checkpoint(baseline.1@, rec.commit_ts_map@, t, 0);
    let merged = merged_history(baseline.1@, rec.commit_ts_map@);
    assert(e.mvcc@.history.dom().contains(t) <==> merged.dom().contains(t));
    if commit_of(rs, t) is Some && replay_of(rs, t) is Some {
        assert(rec.commit_ts_map@.contains_key(t));
        assert(e.mvcc@.history.contains_key(t));
        assert(rec.inserted_at_map@.contains_key(t));
    }
}

/// What a replayed write stands for: the version that was written, with key,
/// value and transaction.
pub proof fn law_replayed_write_is_the_write(
    t: TxnId,
    cf: u16,
    key: Seq<u8>,
    value: Option<Seq<u8>>,
)
    ensures
        replayed_version((t, RecordModel::Put { cf, key, value })).key.cf == cf,
        replayed_version((t, RecordModel::Put { cf, key, value })).key.key == key,
        replayed_version((t, RecordModel::Put { cf, key, value })).value == value,
        replayed_version((t, RecordModel::Put { cf, key, value })).txn_id == t,
{
}

/// The size of a buffer grows by the size of each version that it takes in.
pub proof fn law_buffer_grows(size: u64, es: Seq<EntryModel>, e: EntryModel)
    ensures
        grown(size, Seq::empty()) == size,
        grown(size, es) + estimated(e) <= u64::MAX ==> grown(size, es.push(e)) == grown(size, es)
            + estimated(e),
{
    assert(es.push(e).drop_last() =~= es);
}

proof fn lemma_top_record_txn(rs: Seq<WalModel>)
    ensures
        forall|j: int| 0 <= j < rs.len() ==> (#[trigger] rs[j]).txn_id <= top_record_txn(rs),
        top_record_txn(rs) == 0 || exists|j: int|
            0 <= j < rs.len() && (#[trigger] rs[j]).txn_id == top_record_txn(rs),
    decreases rs.len(),
{
    if rs.len() > 0 {
        let rest = rs.drop_last();
        let n = rs.len() - 1;
        lemma_top_record_txn(rest);
        assert(rs[n] == rs.last());
        assert forall|j: int| 0 <= j < rs.len() implies (#[trigger] rs[j]).txn_id
            <= top_record_txn(rs) by {
            if j < n {
                assert(rest[j] == rs[j]);
            }
        }
        if top_record_txn(rest) > rs[n].txn_id {
            let j = choose|j: int|
                0 <= j < rest.len() && (#[trigger] rest[j]).txn_id == top_record_txn(rest);
            assert(rs[j].txn_id == top_record_txn(rs));
        } else {
            assert(rs[n].txn_id == top_record_txn(rs));
        }
    }
}

/// The next id of an opened engine follows the largest one that has left a
/// trace: it jumps over none but those.
pub proof fn law_next_id_follows_the_last(
    e: Z1Kv,
    baseline: (TxnId, Vec<(TxnId, u64)>),
    rs: Seq<WalModel>,
)
    requires
        opened_on(e, baseline, e.config, rs),
    ensures
        e.txn_counter == 1 || e.txn_counter == u64::MAX || e.txn_counter == baseline.0 + 1 || (
        exists|j: int| 0 <= j < rs.len() && (#[trigger] rs[j]).txn_id + 1 == e.txn_counter) || (
        exists|i: int, j: int|
            0 <= i < e.store.l2.cfs@.len() && 0 <= j < e.store.l2.cfs@[i].patches@.len() && (
            #[trigger] e.store.l2.cfs@[i].patches@[j]).max_txn + 1 == e.txn_counter) || (exists|
            i: int,
            j: int,
        |
            0 <= i < e.store.l3.cfs@.len() && 0 <= j < e.store.l3.cfs@[i].patches@.len() && (
            #[trigger] e.store.l3.cfs@[i].patches@[j]).max_txn + 1 == e.txn_counter),
        baseline.0 < u64::MAX ==> baseline.0 < e.txn_counter,
{
    let m = choose|m: TxnId| #[trigger]
        is_last_known(e.store.l2, e.store.l3, baseline.0, rs, m) && e.txn_counter
            == m.saturating_add(1);
    let (a, b) = choose|a: TxnId, b: TxnId|
        #![trigger is_top_txn(e.store.l2.cfs@, a), is_top_txn(e.store.l3.cfs@, b)]
        is_top_txn(e.store.l2.cfs@, a) && is_top_txn(e.store.l3.cfs@, b) && m == larger(
            larger(baseline.0, top_record_txn(rs)),
            larger(a, b),
        );
    lemma_top_record_txn(rs);
    assert(m == baseline.0 || m == top_record_txn(rs) || m == a || m == b);
}

/// A listed history holds every transaction of the history with its commit
/// timestamp, each once and ascending, and nothing else.
pub proof fn law_listed_history_is_exact(
    h: Map<TxnId, (u64, u64)>,
    list: Seq<(TxnId, u64)>,
    t: TxnId,
    ts: u64,
)
    requires
        h.dom().finite(),
        lists_history(h, list),
    ensures
        list.contains((t, ts)) <==> h.contains_key(t) && h[t].0 == ts,
        forall|i: int, j: int|
            0 <= i < j < list.len() ==> (#[trigger] list[i]).0 < (#[trigger] list[j]).0,
{
    if list.contains((t, ts)) {
        let i = choose|i: int| 0 <= i < list.len() && list[i] == (t, ts);
        assert(h.contains_key(list[i].0));
    }
    if h.contains_key(t) && h[t].0 == ts {
        let ids = list.map_values(|p: (TxnId, u64)| p.0);
        assert(ids.no_duplicates()) by {
            assert forall|i: int, j: int| 0 <= i < ids.len() && 0 <= j < ids.len() && i != j implies
                ids[i] != ids[j] by {
                if i < j {
                    assert(list[i].0 < list[j].0);
                } else {
                    assert(list[j].0 < list[i].0);
                }
            }
        }
        ids.unique_seq_to_set();
        assert(ids.to_set().subset_of(h.dom())) by {
            assert forall|x: TxnId| ids.to_set().contains(x) implies h.dom().contains(x) by {
                let i = choose|i: int| 0 <= i < ids.len() && ids[i] == x;
                assert(h.contains_key(list[i].0));
            }
        }
        vstd::set_lib::lemma_subset_equality(ids.to_set(), h.dom());
        assert(ids.to_set().contains(t));
        let i = choose|i: int| 0 <= i < ids.len() && ids[i] == t;
        assert(list[i] == (t, ts));
    }
}

/// Opening succeeds if and only if the whole log can be read, but for a record
/// at its very end that was not written to the end, and patch numbers are left.
/// The engine then starts with an empty cache, nothing active, and a flush
/// threshold of 64 MiB, on the layers and the WAL that it was given.
pub proof fn law_open_succeeds_exactly(
    data_dir: String,
    config: Z1Config,
    wal: WalWriter,
    l2: DiskLayer,
    l3: DiskLayer,
    baseline: (TxnId, Vec<(TxnId, u64)>),
    segments: Seq<Seq<u8>>,
    r: Result<Z1Kv>,
    k: int,
)
    requires
        opens(data_dir, config, wal, l2, l3, baseline, segments, r),
    ensures
        r is Ok <==> replayed(segments, 0).1 is End && !is_max_patch(l2.cfs@, u64::MAX)
            && !is_max_patch(l3.cfs@, u64::MAX),
        r is Ok && 0 <= k < segments.len() - 1 ==> sound_end(segments[k], 0) == segments[k].len(),
        r is Ok ==> {
            let e = r->Ok_0;
            &&& e.store.l2 == l2 && e.store.l3 == l3 && e.wal == wal && e.config == config
            &&& e.store.recent_flush.cache@.len() == 0
            &&& e.store.l1.flush_threshold == 67_108_864
            &&& forall|t: TxnId| !(#[trigger] e.mvcc@.active.contains_key(t))
            &&& opened_on(e, baseline, config, replayed(segments, 0).0)
        },
{
    if r is Ok {
        let e = r->Ok_0;
        assert forall|t: TxnId| !(#[trigger] e.mvcc@.active.contains_key(t)) by {
            assert(!e.mvcc@.active.dom().contains(t));
        }
        if 0 <= k < segments.len() - 1 {
            law_replay_skips_nothing(segments, 0, k);
        }
    }
}

} // verus!
