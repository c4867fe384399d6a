//! What holds of reads, commits and recovery as a whole.

use crate::bytes::{lemma_lex_irreflexive, lemma_lex_total, lemma_lex_transitive, lex_lt};
use crate::error::{Result, Z1Error};
use crate::mvcc::laws::{law_commit_is_visible, law_snapshot_covers_history};
use crate::mvcc::visibility::{
    check_outcome, lists_history, snapshot_of, IsolationLevel, ManagerModel, SnapshotModel,
    TxnSnapshot, VisibilityManager,
};
use crate::sort::Ranked;
use crate::store::disk::{
    as_entries, as_entry, everything, is_patch_of, is_top_txn, lemma_top_txn, lemma_within_top_txn,
    patch_list, placed, prepared, ref_of, sound_list, sound_ref, versions_in, versions_of,
    PatchWrite, RefModel,
};
use crate::store::flush::{
    as_patch, grouped, law_flush_loses_nothing, merges, same_as, FlushEngine, FlushGroup,
};
use crate::store::gc::{
    gc_merged, gc_spared, law_gc_keeps_what_nothing_hides, lemma_gc_spared_members,
    lemma_same_members,
};
use crate::store::mem::{l1_versions, MemStore};
use crate::store::select::{
    first_newest, has_key, in_range, kept, last_newest, lemma_first_newest, lemma_kept_concat,
    lemma_kept_members, lemma_last_newest, newest_listed, of_key, sight_of, Pick, Span,
};
use crate::store::types::{key_lt, patch_models, EntryModel, KeyModel, PatchEntry, PatchModel};
use crate::store::version_map::{
    all_upserted, lemma_upserted_ascends, lemma_upserted_members, same_version, upserted,
    version_lt, versions_ascend,
};
use crate::txn::engine::{
    be_u16, candidates, commit_went, committed, conflict_bytes, history_restored, is_gc_watermark,
    is_last_known, larger, listed_map, live, merged_history, opened_from, opened_on, read_value,
    recovered_as, replayed_version, replayed_versions, scanned, top_record_txn, Z1Kv,
};
use crate::wal::record::{RecordModel, WalModel};
use crate::wal::recovery::{
    commit_of, labelled, law_committed_and_only_committed, max_committed, pending_of, puts_model,
    recovers, replay_of, restored, RecoveryResult,
};
use crate::TxnId;
use vstd::prelude::*;

verus! {

broadcast use {
    vstd::std_specs::btree::group_btree_axioms,
    vstd::std_specs::hash::group_hash_axioms,
    vstd::laws_cmp::group_laws_cmp,
};

proof fn lemma_two_bytes(cf: u16)
    ensures
        be_u16(cf)[0] * 256 + be_u16(cf)[1] == cf,
{
    assert(cf / 256 <= 255);
    assert(cf % 256 <= 255);
    assert((cf / 256) * 256 + cf % 256 == cf);
}

/// Conflict keys stand in the order of column family and key, and only the
/// same key of the same column family gives the same conflict key.
pub proof fn law_conflict_key_order(a: KeyModel, b: KeyModel)
    ensures
        lex_lt(conflict_bytes(a.cf, a.key), conflict_bytes(b.cf, b.key)) <==> key_lt(a, b),
        conflict_bytes(a.cf, a.key) == conflict_bytes(b.cf, b.key) <==> a == b,
{
    let x = conflict_bytes(a.cf, a.key);
    let y = conflict_bytes(b.cf, b.key);
    lemma_two_bytes(a.cf);
    lemma_two_bytes(b.cf);
    assert(x[0] == be_u16(a.cf)[0] && x[1] == be_u16(a.cf)[1]);
    assert(y[0] == be_u16(b.cf)[0] && y[1] == be_u16(b.cf)[1]);
    assert(x.skip(1).skip(1) =~= a.key);
    assert(y.skip(1).skip(1) =~= b.key);
    assert(x.skip(1)[0] == x[1] && y.skip(1)[0] == y[1]);
    reveal_with_fuel(lex_lt, 3);
    if x == y {
        assert(a.key == b.key);
        assert(a.cf == b.cf);
    }
}

/// A version is on one of the layers, as far as they are in memory.
pub open spec fn holds_version(st: FlushEngine, cf: u16, span: Span, e: EntryModel) -> bool {
    ||| l1_versions(st.l1).contains(e)
    ||| st.recent_flush.cache@.contains(e)
    ||| versions_in(cf, patch_list(st.l2, cf), span).contains(e)
    ||| versions_in(cf, patch_list(st.l3, cf), span).contains(e)
}

pub proof fn lemma_concat_members(a: Seq<EntryModel>, b: Seq<EntryModel>, e: EntryModel)
    ensures
        (a + b).contains(e) <==> a.contains(e) || b.contains(e),
{
    if a.contains(e) {
        let i = choose|i: int| 0 <= i < a.len() && a[i] == e;
        assert((a + b)[i] == e);
    }
    if b.contains(e) {
        let i = choose|i: int| 0 <= i < b.len() && b[i] == e;
        assert((a + b)[a.len() + i] == e);
    }
    if (a + b).contains(e) {
        let i = choose|i: int| 0 <= i < (a + b).len() && (a + b)[i] == e;
        if i < a.len() {
            assert(a[i] == e);
        } else {
            assert(b[i - a.len()] == e);
        }
    }
}

/// A read considers exactly the versions of the layers that the snapshot
/// sees.
pub proof fn lemma_candidates(
    st: FlushEngine,
    snap: SnapshotModel,
    cf: u16,
    span: Span,
    e: EntryModel,
)
    ensures
        candidates(st, snap, cf, span).contains(e) <==> holds_version(st, cf, span, e) && (Pick {
            cf,
            span,
            sight: Some(sight_of(snap)),
        }).admits(e),
{
    let p = Pick { cf, span, sight: Some(sight_of(snap)) };
    let a = l1_versions(st.l1);
    let b = st.recent_flush.cache@;
    let c = versions_in(cf, patch_list(st.l2, cf), span);
    let d = versions_in(cf, patch_list(st.l3, cf), span);
    lemma_kept_members(a, p, e);
    lemma_kept_members(b, p, e);
    lemma_kept_members(c, p, e);
    lemma_kept_members(d, p, e);
    lemma_concat_members(kept(a, p), kept(b, p), e);
    lemma_concat_members(kept(a, p) + kept(b, p), kept(c, p), e);
    lemma_concat_members(kept(a, p) + kept(b, p) + kept(c, p), kept(d, p), e);
}

/// The newest version decides what is read.
proof fn lemma_read_newest(c: Seq<EntryModel>, e: EntryModel)
    requires
        c.contains(e),
        forall|x: EntryModel| #[trigger]
            c.contains(x) ==> x.txn_id < e.txn_id || (x.txn_id == e.txn_id && x.value == e.value),
    ensures
        read_value(c) == e.value,
{
    lemma_last_newest(c);
    let k = choose|k: int| 0 <= k < c.len() && c[k] == e;
    let b = last_newest(c)->0;
    assert(c[k].txn_id <= b.txn_id);
    assert(c.contains(b));
}

/// A point read gives the newest version that the snapshot sees, wherever it
/// lies; a tombstone reads as nothing.
pub proof fn law_newest_visible_version_is_read(st: FlushEngine, snap: SnapshotModel, e: EntryModel)
    requires
        holds_version(st, e.key.cf, Span::Key(e.key.key), e),
        snap.sees(e.txn_id),
        forall|x: EntryModel| #[trigger]
            holds_version(st, e.key.cf, Span::Key(e.key.key), x) && x.key == e.key && snap.sees(
                x.txn_id,
            ) ==> x.txn_id < e.txn_id || (x.txn_id == e.txn_id && x.value == e.value),
    ensures
        read_value(candidates(st, snap, e.key.cf, Span::Key(e.key.key))) == e.value,
{
    let span = Span::Key(e.key.key);
    let c = candidates(st, snap, e.key.cf, span);
    lemma_candidates(st, snap, e.key.cf, span, e);
    assert forall|x: EntryModel| #[trigger] c.contains(x) implies x.txn_id < e.txn_id || (x.txn_id
        == e.txn_id && x.value == e.value) by {
        lemma_candidates(st, snap, e.key.cf, span, x);
        assert(x.key == e.key);
    }
    lemma_read_newest(c, e);
}

/// A key of which the snapshot sees no version reads as nothing.
pub proof fn law_unseen_key_reads_as_nothing(
    st: FlushEngine,
    snap: SnapshotModel,
    cf: u16,
    key: Seq<u8>,
)
    requires
        forall|x: EntryModel| #[trigger]
            holds_version(st, cf, Span::Key(key), x) && x.key.cf == cf && x.key.key == key
                ==> !snap.sees(x.txn_id),
    ensures
        read_value(candidates(st, snap, cf, Span::Key(key))) is None,
{
    let c = candidates(st, snap, cf, Span::Key(key));
    lemma_last_newest(c);
    if c.len() > 0 {
        lemma_candidates(st, snap, cf, Span::Key(key), c[0]);
        assert(c.contains(c[0]));
    }
}

/// Read after commit: once a transaction has committed, and as long as the
/// history retains it, a read finds its write, unless a newer one is seen.
pub proof fn law_committed_write_is_read(
    before: Z1Kv,
    after: Z1Kv,
    inserted_at: u64,
    e: EntryModel,
)
    requires
        before.mvcc.wf(),
        committed(before.mvcc, e.txn_id, inserted_at, Ok::<(), Z1Error>(()), after.mvcc),
        after.store == before.store,
        holds_version(before.store, e.key.cf, Span::Key(e.key.key), e),
        after.mvcc@.history.contains_key(e.txn_id),
        forall|x: EntryModel| #[trigger]
            holds_version(before.store, e.key.cf, Span::Key(e.key.key), x) && x.key == e.key
                && snapshot_of(after.mvcc@, IsolationLevel::Snapshot).sees(x.txn_id) ==> x.txn_id
                < e.txn_id || (x.txn_id == e.txn_id && x.value == e.value),
    ensures
        snapshot_of(after.mvcc@, IsolationLevel::Snapshot).sees(e.txn_id),
        read_value(
            candidates(
                after.store,
                snapshot_of(after.mvcc@, IsolationLevel::Snapshot),
                e.key.cf,
                Span::Key(e.key.key),
            ),
        ) == e.value,
{
    let t = e.txn_id;
    let (commit_ts, now_ms, got) = choose|
        commit_ts: u64,
        now_ms: u64,
        got: Result<TxnSnapshot>,
    | #[trigger]
        commit_went(before.mvcc, t, inserted_at, commit_ts, now_ms, got, after.mvcc) && match (
            Ok::<(), Z1Error>(()),
            got,
        ) {
            (Ok(_), Ok(_)) => true,
            (Err(a), Err(b)) => a == b,
            _ => false,
        };
    assert(before.mvcc@.history.dom() == before.mvcc.committed_history@.dom());
    law_commit_is_visible(
        before.mvcc@,
        t,
        inserted_at,
        commit_ts,
        now_ms,
        got,
        after.mvcc@,
    );
    let snap = snapshot_of(after.mvcc@, IsolationLevel::Snapshot);
    assert(got->Ok_0@ == snap);
    law_newest_visible_version_is_read(after.store, snap, e);
}

/// A version that a pick does not admit can be put in without a trace.
proof fn lemma_kept_upserted(s: Seq<EntryModel>, e: EntryModel, p: Pick)
    requires
        !p.admits(e),
    ensures
        kept(upserted(s, e), p) == kept(s, p),
    decreases s.len(),
{
    if s.len() == 0 {
        assert(seq![e].drop_last() =~= s);
    } else if version_lt(s.last(), e) {
        assert(s.push(e).drop_last() =~= s);
    } else if same_version(s.last(), e) {
        assert(s.drop_last().push(e).drop_last() =~= s.drop_last());
    } else {
        let rest = upserted(s.drop_last(), e);
        assert(rest.push(s.last()).drop_last() =~= rest);
        lemma_kept_upserted(s.drop_last(), e, p);
    }
}

/// Repeatable reads: a write that a snapshot does not see changes nothing for
/// it, neither for point reads nor for scans.
pub proof fn law_unseen_write_changes_no_read(
    before: FlushEngine,
    after: FlushEngine,
    e: EntryModel,
    snap: SnapshotModel,
    cf: u16,
    span: Span,
)
    requires
        !snap.sees(e.txn_id),
        after.l1.hot@ == upserted(before.l1.hot@, e),
        after.l1 == (MemStore {
            hot: after.l1.hot,
            hot_size_bytes: after.l1.hot_size_bytes,
            ..before.l1
        }),
        after == (FlushEngine { l1: after.l1, ..before }),
    ensures
        candidates(after, snap, cf, span) == candidates(before, snap, cf, span),
{
    let p = Pick { cf, span, sight: Some(sight_of(snap)) };
    lemma_kept_upserted(before.l1.hot@, e, p);
    lemma_kept_concat(before.l1.hot@, before.l1.cold@, p);
    lemma_kept_concat(after.l1.hot@, after.l1.cold@, p);
    lemma_kept_concat(before.l1.hot@ + before.l1.cold@, before.l1.snapshot@, p);
    lemma_kept_concat(after.l1.hot@ + after.l1.cold@, after.l1.snapshot@, p);
}

/// What a transaction wrote is never read by a snapshot taken while it is
/// active, or when it has not committed: no candidate is from it.
pub proof fn law_uncommitted_write_is_not_read(
    st: FlushEngine,
    m: ManagerModel,
    t: TxnId,
    cf: u16,
    span: Span,
    i: int,
)
    requires
        !m.history.contains_key(t) || m.active.contains_key(t),
        0 <= i < candidates(st, snapshot_of(m, IsolationLevel::Snapshot), cf, span).len(),
    ensures
        candidates(st, snapshot_of(m, IsolationLevel::Snapshot), cf, span)[i].txn_id != t,
{
    let snap = snapshot_of(m, IsolationLevel::Snapshot);
    let c = candidates(st, snap, cf, span);
    lemma_candidates(st, snap, cf, span, c[i]);
    assert(c.contains(c[i]));
    crate::mvcc::laws::law_uncommitted_is_invisible(m, IsolationLevel::Snapshot, t);
}

/// The last of several puts of the same version counts.
proof fn lemma_last_put_counts(s: Seq<EntryModel>, es: Seq<EntryModel>, i: int)
    requires
        versions_ascend(s),
        0 <= i < es.len(),
        forall|j: int| i < j < es.len() ==> !same_version(es[i], #[trigger] es[j]),
    ensures
        versions_ascend(all_upserted(s, es)),
        all_upserted(s, es).contains(es[i]),
    decreases es.len(),
{
    let rest = es.drop_last();
    let mid = all_upserted(s, rest);
    lemma_all_upserted_ascends(s, rest);
    lemma_upserted_ascends(mid, es.last());
    lemma_upserted_members(mid, es.last(), es[i]);
    if i < es.len() - 1 {
        assert(rest[i] == es[i]);
        assert forall|j: int| i < j < rest.len() implies !same_version(rest[i], #[trigger] rest[j]) by {
            assert(rest[j] == es[j]);
        }
        lemma_last_put_counts(s, rest, i);
        assert(!same_version(es[i], es[es.len() - 1]));
    }
}

pub proof fn lemma_all_upserted_ascends(s: Seq<EntryModel>, es: Seq<EntryModel>)
    requires
        versions_ascend(s),
    ensures
        versions_ascend(all_upserted(s, es)),
    decreases es.len(),
{
    if es.len() > 0 {
        lemma_all_upserted_ascends(s, es.drop_last());
        lemma_upserted_ascends(all_upserted(s, es.drop_last()), es.last());
    }
}

/// What a transaction has pending are its puts.
pub proof fn lemma_pending_are_puts(rs: Seq<WalModel>, t: TxnId, k: int)
    requires
        pending_of(rs, t) matches Some(ops) && 0 <= k < ops.len(),
    ensures
        (pending_of(rs, t)->0)[k].record is Put,
    decreases rs.len(),
{
    let before = pending_of(rs.drop_last(), t);
    let e = rs.last();
    if e.txn_id != t {
        lemma_pending_are_puts(rs.drop_last(), t, k);
    } else if e.record is Put {
        let ops = match before {
            Some(ops) => ops,
            None => Seq::empty(),
        };
        if k < ops.len() {
            lemma_pending_are_puts(rs.drop_last(), t, k);
        }
    } else if before is Some {
        lemma_pending_are_puts(rs.drop_last(), t, k);
    }
}

/// The writes of a committed transaction are among those that a replay
/// restores, one after the other, and nothing after them is from it.
proof fn lemma_restored_puts(rs: Seq<WalModel>, order: Seq<TxnId>, strict: bool, t: TxnId) -> (r: (
    Seq<(TxnId, RecordModel)>,
    Seq<(TxnId, RecordModel)>,
))
    requires
        crate::maps::strictly_ascending(order),
        order.contains(t),
        replay_of(rs, t) is Some,
        commit_of(rs, t) is Some,
    ensures
        restored(rs, order, Map::empty(), strict).0.puts == r.0 + labelled(t, replay_of(rs, t)->0)
            + r.1,
        forall|i: int| 0 <= i < r.1.len() ==> (#[trigger] r.1[i]).0 != t,
        restored(rs, order, Map::empty(), strict).0.commits.contains_key(t),
        restored(rs, order, Map::empty(), strict).1 is None,
    decreases order.len(),
{
    let rest = order.drop_last();
    let (got, _) = restored(rs, rest, Map::<TxnId, Z1Error>::empty(), strict);
    let last = order.last();
    lemma_never_ends(rs, rest, strict);
    if last == t {
        let r = (got.puts, Seq::<(TxnId, RecordModel)>::empty());
        assert(restored(rs, order, Map::<TxnId, Z1Error>::empty(), strict).0.puts =~= r.0
            + labelled(t, replay_of(rs, t)->0) + r.1);
        r
    } else {
        let m = choose|m: int| 0 <= m < order.len() && order[m] == t;
        assert(rest[m] == t);
        assert(crate::maps::strictly_ascending(rest)) by {
            assert forall|i: int, j: int| 0 <= i < j < rest.len() implies #[trigger] rest[i]
                < #[trigger] rest[j] by {
                assert(order[i] < order[j]);
            }
        }
        let before = lemma_restored_puts(rs, rest, strict, t);
        match (replay_of(rs, last), commit_of(rs, last)) {
            (Some(ops), Some(_)) => {
                let r = (before.0, before.1 + labelled(last, ops));
                assert(restored(rs, order, Map::<TxnId, Z1Error>::empty(), strict).0.puts =~= r.0
                    + labelled(t, replay_of(rs, t)->0) + r.1);
                r
            },
            _ => before,
        }
    }
}

/// Without failures no replay ends early.
proof fn lemma_never_ends(rs: Seq<WalModel>, order: Seq<TxnId>, strict: bool)
    ensures
        restored(rs, order, Map::<TxnId, Z1Error>::empty(), strict).1 is None,
    decreases order.len(),
{
    if order.len() > 0 {
        lemma_never_ends(rs, order.drop_last(), strict);
    }
}

/// A transaction with a commit in the log, and no rollback, is seen again after
/// the engine was opened on the log. This does not take its writes to be in the
/// log: a checkpoint can have moved them to L2 before the transaction
/// committed.
pub proof fn law_committed_transaction_is_seen_again(
    e: Z1Kv,
    baseline: (TxnId, Vec<(TxnId, u64)>),
    rs: Seq<WalModel>,
    t: TxnId,
)
    requires
        opened_on(e, baseline, e.config, rs),
        e.mvcc@.active.dom() == Set::<TxnId>::empty(),
        commit_of(rs, t) is Some,
        replay_of(rs, t) is Some,
    ensures
        snapshot_of(e.mvcc@, IsolationLevel::Snapshot).sees(t),
{
    let rec = choose|rec: RecoveryResult| #[trigger]
        opened_from(e, rec, baseline, e.config) && recovered_as(rs, e.config.strict_mode, rec);
    lemma_restored_is_seen(e, rec, baseline, rs, t);
}

proof fn lemma_restored_is_seen(
    e: Z1Kv,
    rec: RecoveryResult,
    baseline: (TxnId, Vec<(TxnId, u64)>),
    rs: Seq<WalModel>,
    t: TxnId,
)
    requires
        opened_from(e, rec, baseline, e.config),
        recovered_as(rs, e.config.strict_mode, rec),
        e.mvcc@.active.dom() == Set::<TxnId>::empty(),
        commit_of(rs, t) is Some,
        replay_of(rs, t) is Some,
    ensures
        snapshot_of(e.mvcc@, IsolationLevel::Snapshot).sees(t),
{
    let strict = e.config.strict_mode;
    let order = choose|order: Seq<TxnId>| #[trigger]
        recovers(rs, order, Map::<TxnId, Z1Error>::empty(), strict, Ok(rec), Seq::empty());
    assert(order.contains(t));
    let _ = lemma_restored_puts(rs, order, strict, t);
    let now_ms = choose|now_ms: u64| #[trigger] history_restored(e, rec, baseline, now_ms);
    let merged = merged_history(baseline.1@, rec.commit_ts_map@);
    assert(merged.contains_key(t));
    assert(merged.dom().contains(t));
    assert(e.mvcc@.history.dom().contains(t));
    assert(e.mvcc@.history.dom() == e.mvcc.committed_history@.dom());
    assert(!e.mvcc@.active.dom().contains(t));
    law_snapshot_covers_history(e.mvcc@, IsolationLevel::Snapshot, t);
}

/// Durability: what a committed transaction wrote is there again after the
/// engine was opened on its log, and is read, unless a newer version is seen.
/// Of several writes of the transaction to one key the last counts.
pub proof fn law_committed_write_survives(
    e: Z1Kv,
    rec: RecoveryResult,
    baseline: (TxnId, Vec<(TxnId, u64)>),
    rs: Seq<WalModel>,
    t: TxnId,
    k: int,
    v: EntryModel,
)
    requires
        opened_from(e, rec, baseline, e.config),
        recovered_as(rs, e.config.strict_mode, rec),
        e.mvcc@.active.dom() == Set::<TxnId>::empty(),
        commit_of(rs, t) is Some,
        pending_of(rs, t) matches Some(ops) && 0 <= k < ops.len() && (ops[k].record
            == RecordModel::Put { cf: v.key.cf, key: v.key.key, value: v.value }) && (forall|j: int|
            k < j < ops.len() ==> !((#[trigger] ops[j].record) matches RecordModel::Put {
                cf,
                key,
                value,
            } && cf == v.key.cf && key == v.key.key)),
        v.txn_id == t,
        v.ts == 0,
    ensures
        e.store.l1.hot@.contains(v),
        snapshot_of(e.mvcc@, IsolationLevel::Snapshot).sees(t),
        (forall|x: EntryModel| #[trigger]
            holds_version(e.store, v.key.cf, Span::Key(v.key.key), x) && x.key == v.key
                && snapshot_of(e.mvcc@, IsolationLevel::Snapshot).sees(x.txn_id) ==> x.txn_id < t
                || (x.txn_id == t && x.value == v.value)) ==> read_value(
            candidates(
                e.store,
                snapshot_of(e.mvcc@, IsolationLevel::Snapshot),
                v.key.cf,
                Span::Key(v.key.key),
            ),
        ) == v.value,
{
    let strict = e.config.strict_mode;
    let order = choose|order: Seq<TxnId>| #[trigger]
        recovers(rs, order, Map::<TxnId, Z1Error>::empty(), strict, Ok(rec), Seq::empty());
    let ops = pending_of(rs, t)->0;
    assert(order.contains(t));
    let (a, b) = lemma_restored_puts(rs, order, strict, t);
    let puts = puts_model(rec.committed_puts@);
    assert(puts == a + labelled(t, ops) + b);
    let es = replayed_versions(puts);
    let i = a.len() + k;
    assert(puts[i] == (t, ops[k].record));
    assert(es[i] == v);
    assert forall|j: int| i < j < es.len() implies !same_version(es[i], #[trigger] es[j]) by {
        if j < a.len() + ops.len() {
            let m = j - a.len();
            assert(puts[j] == (t, ops[m].record));
            lemma_pending_are_puts(rs, t, m);
            assert(!(ops[m].record matches RecordModel::Put { cf, key, value } && cf == v.key.cf
                && key == v.key.key));
        } else {
            let m = j - a.len() - ops.len();
            assert(puts[j] == b[m]);
            assert(b[m].0 != t);
        }
    }
    lemma_last_put_counts(Seq::empty(), es, i);
    let now_ms = choose|now_ms: u64| #[trigger] history_restored(e, rec, baseline, now_ms);
    let merged = merged_history(baseline.1@, rec.commit_ts_map@);
    assert(merged.contains_key(t));
    assert(merged.dom().contains(t));
    assert(e.mvcc@.history.dom().contains(t));
    assert(e.mvcc@.history.dom() == e.mvcc.committed_history@.dom());
    assert(!e.mvcc@.active.dom().contains(t));
    law_snapshot_covers_history(e.mvcc@, IsolationLevel::Snapshot, t);
    let snap = snapshot_of(e.mvcc@, IsolationLevel::Snapshot);
    if forall|x: EntryModel| #[trigger]
        holds_version(e.store, v.key.cf, Span::Key(v.key.key), x) && x.key == v.key && snap.sees(
            x.txn_id,
        ) ==> x.txn_id < t || (x.txn_id == t && x.value == v.value) {
        assert(l1_versions(e.store.l1).contains(v)) by {
            lemma_concat_members(e.store.l1.hot@, e.store.l1.cold@, v);
            lemma_concat_members(
                e.store.l1.hot@ + e.store.l1.cold@,
                e.store.l1.snapshot@,
                v,
            );
        }
        law_newest_visible_version_is_read(e.store, snap, v);
    }
}

proof fn lemma_commit_at_most_max(rs: Seq<WalModel>, t: TxnId)
    requires
        commit_of(rs, t) is Some,
    ensures
        t <= max_committed(rs),
    decreases rs.len(),
{
    if rs.last().record is Commit && rs.last().txn_id == t {
    } else {
        lemma_commit_at_most_max(rs.drop_last(), t);
    }
}

proof fn lemma_listed(list: Seq<(TxnId, u64)>, t: TxnId)
    requires
        listed_map(list).contains_key(t),
    ensures
        exists|i: int| 0 <= i < list.len() && (#[trigger] list[i]).0 == t,
    decreases list.len(),
{
    if list.last().0 == t {
        assert(list[list.len() - 1].0 == t);
    } else {
        lemma_listed(list.drop_last(), t);
        let i = choose|i: int|
            0 <= i < list.drop_last().len() && (#[trigger] list.drop_last()[i]).0 == t;
        assert(list[i].0 == t);
    }
}

proof fn lemma_restored_are_committed(rs: Seq<WalModel>, order: Seq<TxnId>, strict: bool, t: TxnId)
    requires
        restored(rs, order, Map::<TxnId, Z1Error>::empty(), strict).0.commits.contains_key(t),
    ensures
        commit_of(rs, t) is Some,
    decreases order.len(),
{
    if order.len() > 0 {
        lemma_never_ends(rs, order.drop_last(), strict);
        if restored(
            rs,
            order.drop_last(),
            Map::<TxnId, Z1Error>::empty(),
            strict,
        ).0.commits.contains_key(t) {
            lemma_restored_are_committed(rs, order.drop_last(), strict, t);
        }
    }
}

proof fn lemma_top_record(rs: Seq<WalModel>, i: int)
    requires
        0 <= i < rs.len(),
    ensures
        rs[i].txn_id <= top_record_txn(rs),
    decreases rs.len(),
{
    if i < rs.len() - 1 {
        assert(rs.drop_last()[i] == rs[i]);
        lemma_top_record(rs.drop_last(), i);
    }
}

proof fn lemma_max_committed_is_recorded(rs: Seq<WalModel>)
    ensures
        max_committed(rs) <= top_record_txn(rs),
    decreases rs.len(),
{
    if rs.len() > 0 {
        lemma_max_committed_is_recorded(rs.drop_last());
    }
}

/// Transaction ids are not used again: after the engine was opened, the next
/// id lies above every transaction in the history, in the log and in a patch
/// on disk. So what a transaction that never committed has left there is never
/// taken for that of a later one. A checkpoint lists no transaction above the
/// one it was taken at.
pub proof fn law_ids_are_not_reused(
    e: Z1Kv,
    baseline: (TxnId, Vec<(TxnId, u64)>),
    rs: Seq<WalModel>,
    t: TxnId,
    cf: u16,
    i: int,
    name: Seq<char>,
    c: Seq<PatchModel>,
)
    requires
        opened_on(e, baseline, e.config, rs),
        forall|j: int| 0 <= j < baseline.1@.len() ==> (#[trigger] baseline.1@[j]).0 <= baseline.0,
        e.txn_counter < u64::MAX,
    ensures
        e.mvcc@.committed_txn < e.txn_counter,
        e.mvcc@.history.contains_key(t) ==> t < e.txn_counter,
        forall|j: int| 0 <= j < rs.len() ==> (#[trigger] rs[j]).txn_id < e.txn_counter,
        0 <= i < patch_list(e.store.l2, cf).len() && patch_list(e.store.l2, cf)[i] == ref_of(name, c)
            ==> forall|j: int| 0 <= j < c.len() ==> (#[trigger] c[j]).txn_id < e.txn_counter,
        0 <= i < patch_list(e.store.l3, cf).len() && patch_list(e.store.l3, cf)[i] == ref_of(name, c)
            ==> forall|j: int| 0 <= j < c.len() ==> (#[trigger] c[j]).txn_id < e.txn_counter,
{
    let strict = e.config.strict_mode;
    let rec = choose|rec: RecoveryResult| #[trigger]
        opened_from(e, rec, baseline, e.config) && recovered_as(rs, strict, rec);
    let order = choose|order: Seq<TxnId>| #[trigger]
        recovers(rs, order, Map::<TxnId, Z1Error>::empty(), strict, Ok(rec), Seq::empty());
    let m = choose|m: TxnId| #[trigger]
        is_last_known(e.store.l2, e.store.l3, baseline.0, rs, m) && e.txn_counter
            == m.saturating_add(1);
    let (x, y) = choose|x: TxnId, y: TxnId|
        #![trigger is_top_txn(e.store.l2.cfs@, x), is_top_txn(e.store.l3.cfs@, y)]
        is_top_txn(e.store.l2.cfs@, x) && is_top_txn(e.store.l3.cfs@, y) && m == larger(
            larger(baseline.0, top_record_txn(rs)),
            larger(x, y),
        );
    assert(m < e.txn_counter);
    assert forall|j: int| 0 <= j < rs.len() implies (#[trigger] rs[j]).txn_id < e.txn_counter by {
        lemma_top_record(rs, j);
    }
    lemma_max_committed_is_recorded(rs);
    let now_ms = choose|now_ms: u64| #[trigger] history_restored(e, rec, baseline, now_ms);
    let merged = merged_history(baseline.1@, rec.commit_ts_map@);
    assert forall|u: TxnId| merged.contains_key(u) implies u < e.txn_counter by {
        if rec.commit_ts_map@.contains_key(u) {
            lemma_restored_are_committed(rs, order, strict, u);
            lemma_commit_at_most_max(rs, u);
        } else {
            lemma_listed(baseline.1@, u);
        }
    }
    if e.mvcc@.history.contains_key(t) {
        assert(merged.dom().contains(t));
    }
    lemma_top_txn(c);
    if 0 <= i < patch_list(e.store.l2, cf).len() {
        lemma_within_top_txn(e.store.l2, x, cf, i);
    }
    if 0 <= i < patch_list(e.store.l3, cf).len() {
        lemma_within_top_txn(e.store.l3, y, cf, i);
    }
}

/// A patch gives a read of a range the same versions of a key as a read of
/// the key.
proof fn lemma_versions_of_key(
    cf: u16,
    r: RefModel,
    start: Seq<u8>,
    end: Option<Seq<u8>>,
    e: EntryModel,
)
    requires
        sound_ref(r),
        in_range(e.key.key, start, end),
    ensures
        versions_of(cf, r, Span::Range(start, end)).contains(e) <==> versions_of(
            cf,
            r,
            Span::Key(e.key.key),
        ).contains(e),
{
    if let Some(c) = r.content {
        let k = e.key.key;
        let all = as_entries(cf, c);
        lemma_kept_members(all, Pick { cf, span: Span::Range(start, end), sight: None }, e);
        lemma_kept_members(all, Pick { cf, span: Span::Key(k), sight: None }, e);
        if all.contains(e) {
            let i = choose|i: int| 0 <= i < all.len() && all[i] == e;
            assert(c[i].key == k);
            lemma_lex_total(k, r.min_key);
            lemma_lex_total(k, r.max_key);
            lemma_lex_total(k, start);
            if lex_lt(r.max_key, start) {
                if lex_lt(k, r.max_key) {
                    lemma_lex_transitive(k, r.max_key, start);
                }
            }
            if let Some(x) = end {
                if lex_lt(r.min_key, k) {
                    lemma_lex_transitive(r.min_key, k, x);
                }
            }
        }
    }
}

proof fn lemma_versions_in_key(
    cf: u16,
    list: Seq<RefModel>,
    start: Seq<u8>,
    end: Option<Seq<u8>>,
    e: EntryModel,
)
    requires
        sound_list(list),
        in_range(e.key.key, start, end),
    ensures
        versions_in(cf, list, Span::Range(start, end)).contains(e) <==> versions_in(
            cf,
            list,
            Span::Key(e.key.key),
        ).contains(e),
    decreases list.len(),
{
    if list.len() > 0 {
        let rest = list.drop_last();
        assert forall|i: int| 0 <= i < rest.len() implies sound_ref(#[trigger] rest[i]) by {
            assert(rest[i] == list[i]);
        }
        assert(sound_ref(list[list.len() - 1]));
        lemma_versions_in_key(cf, rest, start, end, e);
        lemma_versions_of_key(cf, list.last(), start, end, e);
        let range = Span::Range(start, end);
        let key = Span::Key(e.key.key);
        lemma_concat_members(versions_in(cf, rest, range), versions_of(cf, list.last(), range), e);
        lemma_concat_members(versions_in(cf, rest, key), versions_of(cf, list.last(), key), e);
    } else {
        assert(!versions_in(cf, list, Span::Range(start, end)).contains(e));
    }
}

proof fn lemma_of_key_members(s: Seq<EntryModel>, key: Seq<u8>, e: EntryModel)
    ensures
        of_key(s, key).contains(e) <==> s.contains(e) && e.key.key == key,
    decreases s.len(),
{
    if s.len() > 0 {
        let rest = s.drop_last();
        lemma_of_key_members(rest, key, e);
        assert(s =~= rest.push(s.last()));
        crate::store::select::lemma_push_members(rest, s.last(), e);
        if s.last().key.key == key {
            crate::store::select::lemma_push_members(of_key(rest, key), s.last(), e);
        }
    }
}

proof fn lemma_live_members(list: Seq<(Seq<u8>, EntryModel)>, k: Seq<u8>, v: Seq<u8>)
    ensures
        live(list).contains((k, v)) <==> exists|i: int|
            0 <= i < list.len() && (#[trigger] list[i]).0 == k && list[i].1.value == Some(v),
    decreases list.len(),
{
    let now = live(list);
    if list.len() > 0 {
        let rest = list.drop_last();
        let before = live(rest);
        lemma_live_members(rest, k, v);
        if before.contains((k, v)) {
            let j = choose|j: int| 0 <= j < before.len() && before[j] == (k, v);
            assert(now[j] == (k, v));
            let i = choose|i: int|
                0 <= i < rest.len() && (#[trigger] rest[i]).0 == k && rest[i].1.value == Some(v);
            assert(list[i].0 == k && list[i].1.value == Some(v));
        }
        if list.last().0 == k && list.last().1.value == Some(v) {
            assert(now[now.len() - 1] == (k, v));
            assert(list[list.len() - 1].0 == k);
        }
        if now.contains((k, v)) {
            let j = choose|j: int| 0 <= j < now.len() && now[j] == (k, v);
            if j < before.len() {
                assert(before[j] == (k, v));
            } else {
                assert(list[list.len() - 1].0 == k);
            }
        }
        if exists|i: int|
            0 <= i < list.len() && (#[trigger] list[i]).0 == k && list[i].1.value == Some(v) {
            let i = choose|i: int|
                0 <= i < list.len() && (#[trigger] list[i]).0 == k && list[i].1.value == Some(v);
            if i < rest.len() {
                assert(rest[i].0 == k);
            }
        }
    }
}

/// The live keys of an ascending list ascend.
proof fn lemma_live_order(list: Seq<(Seq<u8>, EntryModel)>)
    requires
        forall|i: int, j: int|
            0 <= i < j < list.len() ==> lex_lt((#[trigger] list[i]).0, (#[trigger] list[j]).0),
    ensures
        forall|i: int, j: int|
            0 <= i < j < live(list).len() ==> lex_lt(
                (#[trigger] live(list)[i]).0,
                (#[trigger] live(list)[j]).0,
            ),
        forall|i: int|
            0 <= i < live(list).len() ==> exists|m: int|
                0 <= m < list.len() && (#[trigger] list[m]).0 == (#[trigger] live(list)[i]).0,
    decreases list.len(),
{
    if list.len() > 0 {
        let rest = list.drop_last();
        assert forall|i: int, j: int| 0 <= i < j < rest.len() implies lex_lt(
            (#[trigger] rest[i]).0,
            (#[trigger] rest[j]).0,
        ) by {
            assert(lex_lt(list[i].0, list[j].0));
        }
        lemma_live_order(rest);
        let before = live(rest);
        let now = live(list);
        assert forall|i: int| 0 <= i < now.len() implies exists|m: int|
            0 <= m < list.len() && (#[trigger] list[m]).0 == (#[trigger] now[i]).0 by {
            if i < before.len() {
                assert(now[i] == before[i]);
                let m = choose|m: int| 0 <= m < rest.len() && (#[trigger] rest[m]).0 == before[i].0;
                assert(list[m].0 == now[i].0);
            } else {
                assert(list[list.len() - 1].0 == now[i].0);
            }
        }
        assert forall|i: int, j: int| 0 <= i < j < now.len() implies lex_lt(
            (#[trigger] now[i]).0,
            (#[trigger] now[j]).0,
        ) by {
            assert(now[i] == before[i]);
            if j < before.len() {
                assert(now[j] == before[j]);
            } else {
                let m = choose|m: int| 0 <= m < rest.len() && (#[trigger] rest[m]).0 == before[i].0;
                assert(list[m].0 == rest[m].0);
                assert(lex_lt(list[m].0, list[list.len() - 1].0));
            }
        }
    }
}

/// A scan agrees with point reads: it lists a key with a value if and only if
/// a read of the key at the same snapshot gives that value. It lists keys of
/// the range alone, ascending. The agreement holds where
/// the versions that one transaction wrote to a key all have the same value.
pub proof fn law_scan_agrees_with_reads(
    st: FlushEngine,
    snap: SnapshotModel,
    cf: u16,
    start: Seq<u8>,
    end: Option<Seq<u8>>,
    pairs: Seq<(Seq<u8>, Seq<u8>)>,
    k: Seq<u8>,
    v: Seq<u8>,
)
    requires
        st.wf(),
        scanned(candidates(st, snap, cf, Span::Range(start, end)), pairs),
        in_range(k, start, end),
        forall|x: EntryModel, y: EntryModel|
            candidates(st, snap, cf, Span::Key(k)).contains(x) && candidates(
                st,
                snap,
                cf,
                Span::Key(k),
            ).contains(y) && #[trigger] same_version(x, y) ==> x.value == y.value,
    ensures
        pairs.contains((k, v)) <==> read_value(candidates(st, snap, cf, Span::Key(k))) == Some(v),
        forall|i: int, j: int|
            0 <= i < j < pairs.len() ==> lex_lt((#[trigger] pairs[i]).0, (#[trigger] pairs[j]).0),
        forall|i: int| 0 <= i < pairs.len() ==> in_range((#[trigger] pairs[i]).0, start, end),
{
    let all = candidates(st, snap, cf, Span::Range(start, end));
    let one = candidates(st, snap, cf, Span::Key(k));
    let list = choose|list: Seq<(Seq<u8>, EntryModel)>| #[trigger]
        newest_listed(all, list) && pairs == live(list);
    let mine = of_key(all, k);
    assert(sound_list(patch_list(st.l2, cf)));
    assert(sound_list(patch_list(st.l3, cf)));
    assert forall|e: EntryModel| mine.contains(e) <==> #[trigger] one.contains(e) by {
        lemma_of_key_members(all, k, e);
        lemma_candidates(st, snap, cf, Span::Range(start, end), e);
        lemma_candidates(st, snap, cf, Span::Key(k), e);
        if e.key.key == k {
            lemma_versions_in_key(cf, patch_list(st.l2, cf), start, end, e);
            lemma_versions_in_key(cf, patch_list(st.l3, cf), start, end, e);
        }
    }
    lemma_live_order(list);
    assert forall|i: int| 0 <= i < pairs.len() implies in_range(
        (#[trigger] pairs[i]).0,
        start,
        end,
    ) by {
        let m = choose|m: int| 0 <= m < list.len() && (#[trigger] list[m]).0 == pairs[i].0;
        assert(has_key(all, list[m].0));
        let n = choose|n: int| 0 <= n < all.len() && (#[trigger] all[n]).key.key == list[m].0;
        assert(all.contains(all[n]));
        lemma_candidates(st, snap, cf, Span::Range(start, end), all[n]);
    }
    lemma_first_newest(mine);
    lemma_last_newest(one);
    lemma_live_members(list, k, v);
    if one.len() == 0 {
        if mine.len() > 0 {
            assert(mine.contains(mine[0]));
            assert(one.contains(mine[0]));
        }
        if exists|i: int|
            0 <= i < list.len() && (#[trigger] list[i]).0 == k && list[i].1.value == Some(v) {
            let i = choose|i: int|
                0 <= i < list.len() && (#[trigger] list[i]).0 == k && list[i].1.value == Some(v);
            assert(first_newest(of_key(all, list[i].0)) == Some(list[i].1));
        }
    } else {
        assert(one.contains(one[0]));
        assert(mine.contains(one[0]));
        let a = first_newest(mine)->0;
        let b = last_newest(one)->0;
        assert(one.contains(a));
        assert(mine.contains(b));
        let i = choose|i: int| 0 <= i < one.len() && one[i] == a;
        let j = choose|j: int| 0 <= j < mine.len() && mine[j] == b;
        assert(one[i].txn_id <= b.txn_id);
        assert(mine[j].txn_id <= a.txn_id);
        lemma_candidates(st, snap, cf, Span::Key(k), a);
        lemma_candidates(st, snap, cf, Span::Key(k), b);
        assert(same_version(a, b));
        assert(a.value == b.value);
        lemma_of_key_members(all, k, a);
        let n = choose|n: int| 0 <= n < all.len() && all[n] == a;
        assert(all[n].key.key == k);
        assert(has_key(all, k));
        let m = choose|m: int| 0 <= m < list.len() && (#[trigger] list[m]).0 == k;
        assert(list[m].1 == a);
        assert forall|q: int| 0 <= q < list.len() && (#[trigger] list[q]).0 == k implies q == m by {
            lemma_lex_irreflexive(k);
            if q < m {
                assert(lex_lt(list[q].0, list[m].0));
            } else if m < q {
                assert(lex_lt(list[m].0, list[q].0));
            }
        }
    }
}

/// The version is one of these patch entries.
pub open spec fn is_among(entries: Seq<PatchEntry>, cf: u16, e: EntryModel) -> bool {
    exists|i: int| 0 <= i < entries.len() && as_entry(cf, (#[trigger] entries[i])@) == e
}

proof fn lemma_versions_in_shape(cf: u16, list: Seq<RefModel>, span: Span, e: EntryModel)
    requires
        versions_in(cf, list, span).contains(e),
    ensures
        e.key.cf == cf,
        e.ts == 0,
    decreases list.len(),
{
    if list.len() > 0 {
        let rest = list.drop_last();
        let last = versions_of(cf, list.last(), span);
        lemma_concat_members(versions_in(cf, rest, span), last, e);
        if versions_in(cf, rest, span).contains(e) {
            lemma_versions_in_shape(cf, rest, span, e);
        } else if let Some(c) = list.last().content {
            let all = as_entries(cf, c);
            lemma_kept_members(all, Pick { cf, span, sight: None }, e);
            let i = choose|i: int| 0 <= i < all.len() && all[i] == e;
            assert(all[i] == as_entry(cf, c[i]));
        }
    }
}

/// What GC keeps of some versions is among them, and the newest one that a
/// snapshot sees of a key is kept, where the snapshot sees all that has
/// committed below the watermark.
proof fn lemma_merge_keeps_newest(
    versions: Seq<EntryModel>,
    cf: u16,
    watermark: TxnId,
    known: Set<TxnId>,
    retained: Seq<PatchEntry>,
    snap: SnapshotModel,
    b: EntryModel,
)
    requires
        merges(versions, watermark, known, retained),
        forall|e: EntryModel| #[trigger] versions.contains(e) ==> e.key.cf == cf && e.ts == 0,
        forall|u: TxnId| #[trigger] known.contains(u) && u < watermark ==> snap.sees(u),
    ensures
        forall|e: EntryModel| #[trigger] is_among(retained, cf, e) ==> versions.contains(e),
        versions.contains(b) && snap.sees(b.txn_id) && (forall|y: EntryModel| #[trigger]
            versions.contains(y) && y.key.key == b.key.key && snap.sees(y.txn_id) ==> y.txn_id
                <= b.txn_id) ==> exists|x: EntryModel| #[trigger]
            is_among(retained, cf, x) && same_version(x, b),
{
    let (entries, sorted) = choose|entries: Seq<PatchEntry>, sorted: Seq<PatchEntry>|
        same_as(entries, versions) && #[trigger] gc_merged(
            entries,
            watermark,
            known,
            sorted,
            retained,
        );
    let len = sorted.len() as int;
    let chosen = gc_spared(sorted, watermark, known, len);
    assert forall|e: PatchEntry| #[trigger] entries.contains(e) implies versions.contains(
        as_entry(cf, e@),
    ) by {
        let i = choose|i: int| 0 <= i < entries.len() && entries[i] == e;
        assert(patch_models(entries).len() == entries.len());
        assert(versions.map_values(|x: EntryModel| as_patch(x)).len() == versions.len());
        assert(patch_models(entries)[i] == as_patch(versions[i]));
        assert(versions.contains(versions[i]));
        assert(as_entry(cf, e@) =~= versions[i]);
    }
    lemma_gc_spared_members(sorted, watermark, known, len);
    assert forall|e: EntryModel| #[trigger] is_among(retained, cf, e) implies versions.contains(
        e,
    ) by {
        let i = choose|i: int| 0 <= i < retained.len() && as_entry(cf, (#[trigger] retained[i])@)
            == e;
        let j = choose|j: int| 0 <= j < len && sorted[j] == chosen[i];
        assert(sorted.contains(sorted[j]));
        lemma_same_members(entries, sorted, sorted[j]);
        assert(retained[i]@ == chosen[i]@);
    }
    let key = b.key.key;
    if versions.contains(b) && snap.sees(b.txn_id) && (forall|y: EntryModel| #[trigger]
        versions.contains(y) && y.key.key == key && snap.sees(y.txn_id) ==> y.txn_id <= b.txn_id) {
        let n = choose|n: int| 0 <= n < versions.len() && versions[n] == b;
        assert(patch_models(entries).len() == versions.len());
        assert(patch_models(entries)[n] == as_patch(b));
        let x = entries[n];
        assert(entries.contains(x));
        assert(x@ == as_patch(b));
        assert forall|y: PatchEntry| #[trigger]
            entries.contains(y) && y.key@ == x.key@ && y.txn_id < watermark && known.contains(
                y.txn_id,
            ) implies y.txn_id <= x.txn_id by {
            let v = as_entry(cf, y@);
            assert(versions.contains(v));
            assert(snap.sees(v.txn_id));
        }
        law_gc_keeps_what_nothing_hides(entries, watermark, known, sorted, x);
        let i = choose|i: int|
            0 <= i < chosen.len() && (#[trigger] chosen[i]).key@ == x.key@ && chosen[i].txn_id
                == x.txn_id;
        assert(retained[i]@ == chosen[i]@);
        let kept_one = as_entry(cf, retained[i]@);
        assert(is_among(retained, cf, kept_one));
        assert(same_version(kept_one, b));
    }
}

/// A patch in its place adds its versions.
proof fn lemma_placed_versions(
    cf: u16,
    list: Seq<RefModel>,
    r: RefModel,
    span: Span,
    x: EntryModel,
)
    ensures
        versions_in(cf, placed(list, r), span).contains(x) <==> versions_in(
            cf,
            list,
            span,
        ).contains(x) || versions_of(cf, r, span).contains(x),
    decreases list.len(),
{
    if list.len() == 0 {
        assert(placed(list, r).drop_last() =~= list);
        lemma_concat_members(versions_in(cf, list, span), versions_of(cf, r, span), x);
    } else if lex_lt(r.min_key, list.last().min_key) {
        let rest = list.drop_last();
        let now = placed(rest, r);
        lemma_placed_versions(cf, rest, r, span, x);
        assert(now.push(list.last()).drop_last() =~= now);
        lemma_concat_members(versions_in(cf, now, span), versions_of(cf, list.last(), span), x);
        lemma_concat_members(versions_in(cf, rest, span), versions_of(cf, list.last(), span), x);
    } else {
        assert(list.push(r).drop_last() =~= list);
        lemma_concat_members(versions_in(cf, list, span), versions_of(cf, r, span), x);
    }
}

/// What a read finds of a key in a patch are the entries it was made of.
proof fn lemma_patch_versions(
    cf: u16,
    entries: Seq<PatchEntry>,
    w: PatchWrite,
    patch_id: u64,
    key: Seq<u8>,
    x: EntryModel,
)
    requires
        is_patch_of(w, cf, entries, patch_id),
        entries.len() > 0,
    ensures
        versions_of(
            cf,
            RefModel { content: Some(w.patch.format@), ..ref_of(w.name@, w.patch.format@) },
            Span::Key(key),
        ).contains(x) <==> is_among(entries, cf, x) && x.key.key == key,
{
    let sorted = w.patch.format->entries@;
    let c = w.patch.format@;
    let r = RefModel { content: Some(c), ..ref_of(w.name@, c) };
    let all = as_entries(cf, c);
    lemma_kept_members(all, Pick { cf, span: Span::Key(key), sight: None }, x);
    if all.contains(x) {
        let i = choose|i: int| 0 <= i < all.len() && all[i] == x;
        assert(c[i] == sorted[i]@);
        assert(sorted.contains(sorted[i]));
        lemma_same_members(entries, sorted, sorted[i]);
        let j = choose|j: int| 0 <= j < entries.len() && entries[j] == sorted[i];
        assert(as_entry(cf, entries[j]@) == x);
    }
    if is_among(entries, cf, x) && x.key.key == key {
        let j = choose|j: int| 0 <= j < entries.len() && as_entry(cf, (#[trigger] entries[j])@)
            == x;
        assert(entries.contains(entries[j]));
        lemma_same_members(entries, sorted, entries[j]);
        let i = choose|i: int| 0 <= i < sorted.len() && sorted[i] == entries[j];
        assert(c[i] == sorted[i]@);
        assert(all[i] == x);
        let last = sorted.len() - 1;
        assert(sorted[0].ranks_le(sorted[i]));
        assert(sorted[i].ranks_le(sorted[last]));
        assert(c[0] == sorted[0]@ && c[last] == sorted[last]@);
        lemma_lex_irreflexive(key);
        if lex_lt(c[0].key, key) && lex_lt(key, c[0].key) {
            lemma_lex_transitive(key, c[0].key, key);
        }
        if lex_lt(key, c[last].key) && lex_lt(c[last].key, key) {
            lemma_lex_transitive(key, c[last].key, key);
        }
    }
}

/// A snapshot that a reader of the engine can hold to: that of an active
/// transaction, or the current one.
pub open spec fn is_protected(e: Z1Kv, snap: SnapshotModel) -> bool {
    ||| snap == snapshot_of(e.mvcc@, IsolationLevel::Snapshot)
    ||| exists|t: TxnId| #[trigger]
        e.mvcc@.active.contains_key(t) && snap == e.txn_snapshots@[t]@
}

/// Whatever has committed below the watermark is seen by every active
/// transaction, and by who reads now.
pub proof fn law_committed_below_watermark_is_seen(
    e: Z1Kv,
    snap: SnapshotModel,
    watermark: TxnId,
    u: TxnId,
)
    requires
        e.wf(),
        is_protected(e, snap),
        is_gc_watermark(e.mvcc@.active.dom(), e.txn_snapshots@, watermark),
        e.mvcc@.history.contains_key(u),
        u < watermark,
    ensures
        snap.sees(u),
{
    let active = e.mvcc@.active.dom();
    if snap == snapshot_of(e.mvcc@, IsolationLevel::Snapshot) {
        if e.mvcc@.active.contains_key(u) {
            assert(active.contains(u));
        }
        assert(e.mvcc@.history.dom() == e.mvcc.committed_history@.dom());
        law_snapshot_covers_history(e.mvcc@, IsolationLevel::Snapshot, u);
    } else {
        let t = choose|t: TxnId| #[trigger]
            e.mvcc@.active.contains_key(t) && snap == e.txn_snapshots@[t]@;
        assert(active.contains(t));
        if e.txn_snapshots@[t]@.active.contains(u) {
            assert(watermark <= u);
        }
    }
}

/// A compaction takes nothing from a reader: a read in any active transaction,
/// and one of the current state, gives the same after the versions of a column
/// family have moved from L2 to L3. GC runs at [`Z1Kv::gc_watermark`], or
/// below, and knows what has committed; `w` is the patch of what it keeps, and
/// `after` the store once that is in L3 and read, and L2 is dropped.
///
/// Versions that one transaction wrote to the key are taken to have the same
/// value.
pub proof fn law_compaction_keeps_reads(
    e: Z1Kv,
    after: FlushEngine,
    snap: SnapshotModel,
    cf: u16,
    key: Seq<u8>,
    limit: TxnId,
    watermark: TxnId,
    retained: Seq<PatchEntry>,
    w: PatchWrite,
    patch_id: u64,
)
    requires
        e.wf(),
        is_protected(e, snap),
        is_gc_watermark(e.mvcc@.active.dom(), e.txn_snapshots@, limit),
        watermark <= limit,
        merges(
            versions_in(cf, patch_list(e.store.l2, cf), everything()),
            watermark,
            e.mvcc@.history.dom(),
            retained,
        ),
        after.l1 == e.store.l1,
        after.recent_flush == e.store.recent_flush,
        patch_list(after.l2, cf).len() == 0,
        is_patch_of(w, cf, retained, patch_id),
        retained.len() > 0,
        patch_list(after.l3, cf) == placed(
            patch_list(e.store.l3, cf),
            RefModel { content: Some(w.patch.format@), ..ref_of(w.name@, w.patch.format@) },
        ),
        forall|x: EntryModel, y: EntryModel|
            candidates(e.store, snap, cf, Span::Key(key)).contains(x) && candidates(
                e.store,
                snap,
                cf,
                Span::Key(key),
            ).contains(y) && #[trigger] same_version(x, y) ==> x.value == y.value,
    ensures
        read_value(candidates(after, snap, cf, Span::Key(key))) == read_value(
            candidates(e.store, snap, cf, Span::Key(key)),
        ),
{
    let before = e.store;
    let known = e.mvcc@.history.dom();
    let new = RefModel { content: Some(w.patch.format@), ..ref_of(w.name@, w.patch.format@) };
    assert forall|x: EntryModel| #[trigger]
        versions_in(cf, patch_list(after.l3, cf), Span::Key(key)).contains(x) <==> versions_in(
            cf,
            patch_list(e.store.l3, cf),
            Span::Key(key),
        ).contains(x) || (is_among(retained, cf, x) && x.key.key == key) by {
        lemma_placed_versions(cf, patch_list(e.store.l3, cf), new, Span::Key(key), x);
        lemma_patch_versions(cf, retained, w, patch_id, key, x);
    }
    assert(sound_list(patch_list(before.l2, cf)));
    assert forall|u: TxnId| #[trigger] known.contains(u) && u < watermark implies snap.sees(u) by {
        law_committed_below_watermark_is_seen(e, snap, limit, u);
    }
    let span = Span::Key(key);
    let c0 = candidates(before, snap, cf, span);
    let c1 = candidates(after, snap, cf, span);
    let list = patch_list(before.l2, cf);
    let all = versions_in(cf, list, everything());
    let empty = Seq::<u8>::empty();
    assert forall|e: EntryModel| #[trigger] all.contains(e) implies e.key.cf == cf && e.ts == 0 by {
        lemma_versions_in_shape(cf, list, everything(), e);
    }
    assert forall|e: EntryModel| e.key.key == key implies (#[trigger] all.contains(e)
        <==> versions_in(cf, list, span).contains(e)) by {
        assert(in_range(key, empty, None)) by {
            assert(!lex_lt(key, empty));
        }
        lemma_versions_in_key(cf, list, empty, None, e);
    }
    lemma_last_newest(c0);
    lemma_last_newest(c1);
    let probe = if c0.len() > 0 {
        last_newest(c0)->0
    } else {
        EntryModel { key: KeyModel { cf, key }, txn_id: 0, value: None, ts: 0 }
    };
    if c0.len() > 0 {
        lemma_candidates(before, snap, cf, span, probe);
    }
    assert(probe.key.key == key);
    lemma_merge_keeps_newest(all, cf, watermark, known, retained, snap, probe);
    // nothing new is seen
    assert forall|e: EntryModel| #[trigger] c1.contains(e) implies c0.contains(e) by {
        lemma_candidates(after, snap, cf, span, e);
        lemma_candidates(before, snap, cf, span, e);
        assert(!versions_in(cf, patch_list(after.l2, cf), span).contains(e));
        if is_among(retained, cf, e) {
            assert(all.contains(e));
        }
    }
    if c0.len() == 0 {
        if c1.len() > 0 {
            assert(c1.contains(c1[0]));
            assert(c0.contains(c1[0]));
        }
    } else {
        let b = probe;
        // some version of the same transaction is still there
        let x = if l1_versions(before.l1).contains(b) || before.recent_flush.cache@.contains(b)
            || versions_in(cf, patch_list(before.l3, cf), span).contains(b) {
            b
        } else {
            assert(all.contains(b));
            assert forall|y: EntryModel| #[trigger] all.contains(y) && y.key.key == key
                && snap.sees(y.txn_id) implies y.txn_id <= b.txn_id by {
                assert(versions_in(cf, list, span).contains(y));
                lemma_candidates(before, snap, cf, span, y);
                let k = choose|k: int| 0 <= k < c0.len() && c0[k] == y;
                assert(c0[k].txn_id <= b.txn_id);
            }
            choose|x: EntryModel| #[trigger] is_among(retained, cf, x) && same_version(x, b)
        };
        assert(same_version(x, b));
        if x != b || !(l1_versions(before.l1).contains(b) || before.recent_flush.cache@.contains(b)
            || versions_in(cf, patch_list(before.l3, cf), span).contains(b)) {
            assert(versions_in(cf, patch_list(after.l3, cf), span).contains(x));
        } else {
            assert(versions_in(cf, patch_list(before.l3, cf), span).contains(x)
                ==> versions_in(cf, patch_list(after.l3, cf), span).contains(x));
        }
        lemma_candidates(after, snap, cf, span, x);
        assert(c1.contains(x));
        let d = last_newest(c1)->0;
        assert(c0.contains(d));
        let i = choose|i: int| 0 <= i < c1.len() && c1[i] == x;
        assert(c1[i].txn_id <= d.txn_id);
        let j = choose|j: int| 0 <= j < c0.len() && c0[j] == d;
        assert(c0[j].txn_id <= b.txn_id);
        lemma_candidates(before, snap, cf, span, d);
        assert(same_version(d, b));
        assert(c0.contains(b));
    }
}

pub proof fn lemma_upserted_origin(s: Seq<EntryModel>, es: Seq<EntryModel>, v: EntryModel)
    requires
        versions_ascend(s),
        all_upserted(s, es).contains(v),
    ensures
        s.contains(v) || es.contains(v),
    decreases es.len(),
{
    if es.len() > 0 {
        let rest = es.drop_last();
        lemma_all_upserted_ascends(s, rest);
        lemma_upserted_members(all_upserted(s, rest), es.last(), v);
        if v == es.last() {
            assert(es[es.len() - 1] == v);
        } else {
            lemma_upserted_origin(s, rest, v);
            if rest.contains(v) {
                let i = choose|i: int| 0 <= i < rest.len() && rest[i] == v;
                assert(es[i] == v);
            }
        }
    }
}

/// Uncommitted writes are discarded: after the engine was opened, L1 holds
/// nothing of a transaction without a commit in the log, and, unless the
/// checkpoint lists it, no read considers anything of it on any layer.
pub proof fn law_uncommitted_write_is_discarded(
    e: Z1Kv,
    rec: RecoveryResult,
    baseline: (TxnId, Vec<(TxnId, u64)>),
    rs: Seq<WalModel>,
    t: TxnId,
    v: EntryModel,
    cf: u16,
    span: Span,
)
    requires
        opened_from(e, rec, baseline, e.config),
        recovered_as(rs, e.config.strict_mode, rec),
        commit_of(rs, t) is None,
        v.txn_id == t,
    ensures
        !e.store.l1.hot@.contains(v),
        (forall|i: int| 0 <= i < baseline.1@.len() ==> (#[trigger] baseline.1@[i]).0 != t)
            ==> !candidates(
            e.store,
            snapshot_of(e.mvcc@, IsolationLevel::Snapshot),
            cf,
            span,
        ).contains(v),
{
    let strict = e.config.strict_mode;
    let order = choose|order: Seq<TxnId>| #[trigger]
        recovers(rs, order, Map::<TxnId, Z1Error>::empty(), strict, Ok(rec), Seq::empty());
    law_committed_and_only_committed(
        rs,
        order,
        Map::<TxnId, Z1Error>::empty(),
        strict,
        t,
    );
    let puts = puts_model(rec.committed_puts@);
    let es = replayed_versions(puts);
    if e.store.l1.hot@.contains(v) {
        lemma_upserted_origin(Seq::empty(), es, v);
        assert(!Seq::<EntryModel>::empty().contains(v));
        let i = choose|i: int| 0 <= i < es.len() && es[i] == v;
        assert(es[i] == replayed_version(puts[i]));
        assert(puts[i].0 == t);
        assert(commit_of(rs, puts[i].0) is Some);
    }
    if forall|i: int| 0 <= i < baseline.1@.len() ==> (#[trigger] baseline.1@[i]).0 != t {
        let now_ms = choose|now_ms: u64| #[trigger] history_restored(e, rec, baseline, now_ms);
        let merged = merged_history(baseline.1@, rec.commit_ts_map@);
        if merged.contains_key(t) {
            if !rec.commit_ts_map@.contains_key(t) {
                lemma_listed(baseline.1@, t);
            }
        }
        assert(!merged.dom().contains(t));
        assert(!e.mvcc@.history.dom().contains(t));
        let c = candidates(
            e.store,
            snapshot_of(e.mvcc@, IsolationLevel::Snapshot),
            cf,
            span,
        );
        if c.contains(v) {
            let i = choose|i: int| 0 <= i < c.len() && c[i] == v;
            law_uncommitted_write_is_not_read(e.store, e.mvcc@, t, cf, span, i);
        }
    }
}

proof fn lemma_history_listed(h: Map<TxnId, (u64, u64)>, list: Seq<(TxnId, u64)>, t: TxnId)
    requires
        h.dom().finite(),
        lists_history(h, list),
        h.contains_key(t),
    ensures
        listed_map(list).contains_key(t),
        listed_map(list)[t] == h[t].0,
{
    let ids = list.map_values(|p: (TxnId, u64)| p.0);
    let set = ids.to_set();
    assert(ids.no_duplicates()) by {
        assert forall|i: int, j: int| 0 <= i < ids.len() && 0 <= j < ids.len() && i
            != j implies ids[i] != ids[j] by {
            if i < j {
                assert(list[i].0 < list[j].0);
            } else {
                assert(list[j].0 < list[i].0);
            }
        }
    }
    ids.unique_seq_to_set();
    assert(set.subset_of(h.dom())) by {
        assert forall|u: TxnId| set.contains(u) implies h.dom().contains(u) by {
            let i = choose|i: int| 0 <= i < ids.len() && ids[i] == u;
            assert(h.contains_key(list[i].0));
        }
    }
    vstd::set_lib::lemma_subset_equality(set, h.dom());
    assert(set.contains(t));
    let i = choose|i: int| 0 <= i < ids.len() && ids[i] == t;
    lemma_listed_value(list, i);
}

/// A pair that no later pair replaces is in the map.
proof fn lemma_listed_value(list: Seq<(TxnId, u64)>, i: int)
    requires
        0 <= i < list.len(),
        forall|a: int, b: int|
            0 <= a < b < list.len() ==> (#[trigger] list[a]).0 < (#[trigger] list[b]).0,
    ensures
        listed_map(list).contains_key(list[i].0),
        listed_map(list)[list[i].0] == list[i].1,
    decreases list.len(),
{
    let rest = list.drop_last();
    if i < rest.len() {
        assert forall|a: int, b: int| 0 <= a < b < rest.len() implies (#[trigger] rest[a]).0 < (
        #[trigger] rest[b]).0 by {
            assert(list[a].0 < list[b].0);
        }
        assert(rest[i] == list[i]);
        lemma_listed_value(rest, i);
        assert(list[i].0 < list[list.len() - 1].0);
    }
}

/// A checkpoint carries the history over: every transaction that was in the
/// history when the checkpoint was taken is in it again after the engine was
/// opened on that checkpoint, whatever the WAL still holds. Its commit
/// timestamp is that of the checkpoint, unless the WAL has it too.
pub proof fn law_checkpoint_keeps_history(
    before: ManagerModel,
    e: Z1Kv,
    rec: RecoveryResult,
    baseline: (TxnId, Vec<(TxnId, u64)>),
    t: TxnId,
)
    requires
        before.history.dom().finite(),
        lists_history(before.history, baseline.1@),
        opened_from(e, rec, baseline, e.config),
        before.history.contains_key(t),
    ensures
        e.mvcc@.history.contains_key(t),
        e.mvcc@.history[t].0 == (if rec.commit_ts_map@.contains_key(t) {
            rec.commit_ts_map@[t]
        } else {
            before.history[t].0
        }),
        e.mvcc@.committed_txn >= baseline.0,
{
    lemma_history_listed(before.history, baseline.1@, t);
    let now_ms = choose|now_ms: u64| #[trigger] history_restored(e, rec, baseline, now_ms);
    let merged = merged_history(baseline.1@, rec.commit_ts_map@);
    assert(merged.contains_key(t));
    assert(merged.dom().contains(t));
    assert(e.mvcc@.history.dom().contains(t));
}

/// Durability through a checkpoint: a version that a flush has written to L2
/// is read again after the engine was opened on a checkpoint that lists its
/// transaction, also where the log has been truncated, unless a newer version
/// is seen. `st` is the store of the opened engine once it has read the patch.
pub proof fn law_flushed_write_survives(
    before: ManagerModel,
    e: Z1Kv,
    rec: RecoveryResult,
    baseline: (TxnId, Vec<(TxnId, u64)>),
    cache: Seq<EntryModel>,
    k: int,
    groups: Seq<FlushGroup>,
    g: int,
    w: PatchWrite,
    patch_id: u64,
    st: FlushEngine,
    i: int,
)
    requires
        before.history.dom().finite(),
        lists_history(before.history, baseline.1@),
        opened_from(e, rec, baseline, e.config),
        e.mvcc@.active.dom() == Set::<TxnId>::empty(),
        grouped(cache, groups),
        0 <= k < cache.len(),
        before.history.contains_key(cache[k].txn_id),
        0 <= g < groups.len(),
        groups[g].cf == cache[k].key.cf,
        prepared(w, groups[g].cf, groups[g].entries@, patch_id),
        0 <= i < patch_list(st.l2, groups[g].cf).len(),
        patch_list(st.l2, groups[g].cf)[i] == (RefModel {
            content: Some(w.patch.format@),
            ..ref_of(w.name@, w.patch.format@)
        }),
        forall|x: EntryModel| #[trigger]
            holds_version(st, cache[k].key.cf, Span::Key(cache[k].key.key), x) && x.key
                == cache[k].key && snapshot_of(e.mvcc@, IsolationLevel::Snapshot).sees(x.txn_id)
                ==> x.txn_id < cache[k].txn_id || (x.txn_id == cache[k].txn_id && x.value
                == cache[k].value),
    ensures
        snapshot_of(e.mvcc@, IsolationLevel::Snapshot).sees(cache[k].txn_id),
        read_value(
            candidates(
                st,
                snapshot_of(e.mvcc@, IsolationLevel::Snapshot),
                cache[k].key.cf,
                Span::Key(cache[k].key.key),
            ),
        ) == cache[k].value,
{
    let t = cache[k].txn_id;
    let snap = snapshot_of(e.mvcc@, IsolationLevel::Snapshot);
    law_checkpoint_keeps_history(before, e, rec, baseline, t);
    let now_ms = choose|now_ms: u64| #[trigger] history_restored(e, rec, baseline, now_ms);
    let merged = merged_history(baseline.1@, rec.commit_ts_map@);
    assert(e.mvcc@.history.dom().contains(t));
    assert(merged.dom().contains(t));
    assert(merged.contains_key(t));
    assert(e.mvcc@.history.dom() == e.mvcc.committed_history@.dom());
    assert(!e.mvcc@.active.dom().contains(t));
    law_snapshot_covers_history(e.mvcc@, IsolationLevel::Snapshot, t);
    law_flush_loses_nothing(
        cache,
        groups,
        g,
        w,
        patch_id,
        patch_list(st.l2, groups[g].cf),
        i,
        k,
    );
    let v = EntryModel { ts: 0, ..cache[k] };
    law_newest_visible_version_is_read(st, snap, v);
}

/// A commit that passed the check for conflicts is not refused any more, as
/// long as the manager has not changed.
pub proof fn law_checked_commit_succeeds(
    before: VisibilityManager,
    t: TxnId,
    inserted_at: u64,
    r: Result<()>,
    after: VisibilityManager,
)
    requires
        before@.active.contains_key(t),
        check_outcome(before@, t, Ok::<(), Z1Error>(()), before@),
        committed(before, t, inserted_at, r, after),
    ensures
        r is Ok,
{
}

} // verus!
