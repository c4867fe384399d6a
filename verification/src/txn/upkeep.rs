//! What holds of ids, of what is logged, of compactions and of checkpoints.

use crate::bytes::le_u64;
use crate::codec::payload::encoded_history;
use crate::error::{Result, Z1Error};
use crate::mvcc::laws::{law_commit_enters_the_history, law_snapshot_sees_exactly};
use crate::mvcc::visibility::{
    lists_history, snapshot_of, IsolationLevel, ManagerModel, TxnSnapshot, VisibilityManager,
};
use crate::store::disk::{
    everything, is_patch_of, patch_file, patch_list, ref_of, versions_in, PatchWrite, RefModel,
};
use crate::store::flush::{as_patch, merges, FlushEngine};
use crate::store::gc_exact::{law_compaction_reclaims_what_is_hidden, law_gc_invents_nothing};
use crate::store::jobs::{
    compact_stepped, flush_stepped, indexed, is_merged, merged_into_l3, ref_holds, taken_over,
    CompactJob, CompactTask, FlushJob, FlushStep,
};
use crate::store::laws::{
    law_everything_is_everything, law_group_holds_its_versions, law_index_gains_one,
    law_layer_serves_exactly, law_read_waits_for_every_patch, law_writes_replace_only_themselves,
};
use crate::store::types::{patch_models, EntryModel, PatchEntry, PatchModel};
use crate::txn::engine::{
    begun, commit_begun, commit_went, committed, is_gc_watermark, rollback_begun, write_outcome,
    Begun, CommitTicket, WritePlan, Z1Kv, BEGIN_RETRY,
};
use crate::txn::maintain::{
    checkpoint_stepped, files_of, flush_begun, is_state_of, lowered, sync_plan, CheckpointJob,
    FlushPlan,
};
use crate::txn::reads::in_patches;
use crate::wal::checkpoint::{
    checkpoint_payload, opened, pointed_at, task_of, CheckpointFiles, CheckpointModel,
    CheckpointTask,
};
use crate::wal::checkpoint_laws::{law_envelope_round_trip, law_pointer_round_trip};
use crate::wal::laws::{law_durable_plan_ends_in_a_sync, law_plan_of_one_record};
use crate::wal::record::{fits, record_bytes, RecordModel, WalModel};
use crate::wal::writer::{action_models, ActionModel, WalPlan};
use crate::TxnId;
use vstd::prelude::*;

verus! {

broadcast use {
    vstd::std_specs::btree::group_btree_axioms,
    vstd::std_specs::hash::group_hash_axioms,
    vstd::laws_cmp::group_laws_cmp,
};

/// Beginning a transaction takes the first id that is neither below the counter
/// nor already committed, if it is among the next `tries` ids and not the
/// largest number; the counter goes on behind it.
pub proof fn law_begin_takes_the_next_id(m: ManagerModel, counter: u64, tries: nat)
    requires
        forall|t: TxnId| #[trigger] m.active.contains_key(t) ==> t < counter,
        tries > 0,
    ensures
        ({
            let first = if counter > m.committed_txn {
                counter as int
            } else {
                m.committed_txn + 1
            };
            if first < counter + tries && first < u64::MAX {
                begun(m, counter, tries) == (Begun::Started(first as u64), (first + 1) as u64)
            } else if counter + tries <= u64::MAX {
                begun(m, counter, tries) == (
                    Begun::Committed((counter + tries - 1) as u64),
                    (counter + tries) as u64,
                )
            } else {
                begun(m, counter, tries) == (Begun::Overflow, u64::MAX)
            }
        }),
    decreases tries,
{
    if counter < u64::MAX && counter <= m.committed_txn && tries > 1 {
        law_begin_takes_the_next_id(m, (counter + 1) as u64, (tries - 1) as nat);
    }
}

/// The watermark of GC lies above no transaction that is active, nor above one
/// that was when an active one took its snapshot; it is one of these. With
/// nobody active there is no limit.
pub proof fn law_watermark_is_exact(
    active: Set<TxnId>,
    snaps: Map<TxnId, TxnSnapshot>,
    w: TxnId,
    t: TxnId,
    u: TxnId,
)
    requires
        is_gc_watermark(active, snaps, w),
    ensures
        active.contains(t) ==> w <= t,
        active.contains(t) && snaps[t]@.active.contains(u) ==> w <= u,
        active.contains(t) ==> active.contains(w) || exists|o: TxnId|
            active.contains(o) && (#[trigger] snaps[o])@.active.contains(w),
        (forall|o: TxnId| !(#[trigger] active.contains(o))) ==> w == u64::MAX,
{
}

/// A compaction goes on at the smaller of two watermarks, and is otherwise the
/// same.
pub proof fn law_watermark_is_only_lowered(job: CompactJob, w: TxnId)
    ensures
        lowered(job, w).watermark <= w,
        lowered(job, w).watermark <= job.watermark,
        lowered(job, w).watermark == w || lowered(job, w).watermark == job.watermark,
        lowered(job, w) == (CompactJob { watermark: lowered(job, w).watermark, ..job }),
{
}

/// What a write plans for the WAL: the record of the write, as it is, in the
/// current segment or the next. It is refused if and only if the transaction is
/// not active, the record is larger than 64 MiB, or there is no segment left.
pub proof fn law_write_is_logged(
    before: Z1Kv,
    cf: u16,
    key: Seq<u8>,
    value: Option<Seq<u8>>,
    t: TxnId,
    r: Result<WritePlan>,
    after: Z1Kv,
)
    requires
        write_outcome(before, cf, key, value, t, r, after),
    ensures
        ({
            let e = WalModel { txn_id: t, record: RecordModel::Put { cf, key, value } };
            let c = before.wal.cursor;
            let full = c.segment_bytes > 0 && c.segment_bytes + record_bytes(e).len()
                > before.wal.config.max_file_size;
            &&& r is Ok <==> before.mvcc@.active.contains_key(t) && fits(e) && !(full && c.seq
                == u64::MAX)
            &&& r is Ok ==> action_models(r->Ok_0.actions@).len() > 0 && action_models(
                r->Ok_0.actions@,
            ).last() == (ActionModel::Write { bytes: record_bytes(e) })
            &&& r is Ok && !full ==> action_models(r->Ok_0.actions@).len() == 1
            &&& r is Ok ==> r->Ok_0.entry@ == (EntryModel {
                key: crate::store::types::KeyModel { cf, key },
                txn_id: t,
                value,
                ts: r->Ok_0.entry@.ts,
            })
        }),
        !before.mvcc@.active.contains_key(t) ==> after == before && r == Err::<WritePlan, Z1Error>(
            Z1Error::TxnNotFound(t),
        ),
{
    let e = WalModel { txn_id: t, record: RecordModel::Put { cf, key, value } };
    law_plan_of_one_record(
        before.wal.cursor,
        before.wal.config.max_file_size,
        before.wal.config.write_through,
        e,
    );
}

/// What a commit plans for the WAL: its commit record, with its own id as
/// commit timestamp and the insertion time of the ticket, and a sync behind it.
pub proof fn law_commit_is_logged_and_synced(
    before: Z1Kv,
    t: TxnId,
    ticket: CommitTicket,
    after: Z1Kv,
)
    requires
        commit_begun(before, t, Ok::<CommitTicket, Z1Error>(ticket), after),
        ticket.plan.error is None,
    ensures
        ({
            let e = WalModel {
                txn_id: t,
                record: RecordModel::Commit { commit_ts: t, inserted_at: ticket.inserted_at },
            };
            let a = action_models(ticket.plan.actions@);
            &&& a.len() >= 2
            &&& a[a.len() - 1] == (ActionModel::Sync {
                to_disk: !before.wal.config.write_through,
            })
            &&& a[a.len() - 2] == (ActionModel::Write { bytes: record_bytes(e) })
            &&& forall|i: int| 0 <= i < a.len() - 2 ==> !((#[trigger] a[i]) is Write)
        }),
        ticket.txn_id == t,
        after.mvcc@ == before.mvcc@,
        after.store == before.store,
{
    let e = WalModel {
        txn_id: t,
        record: RecordModel::Commit { commit_ts: t, inserted_at: ticket.inserted_at },
    };
    law_plan_of_one_record(
        before.wal.cursor,
        before.wal.config.max_file_size,
        before.wal.config.write_through,
        e,
    );
}

/// What a rollback plans for the WAL: its record and nothing else.
pub proof fn law_rollback_is_logged(before: Z1Kv, t: TxnId, r: Result<WalPlan>, after: Z1Kv)
    requires
        rollback_begun(before, t, r, after),
    ensures
        r is Ok <==> before.mvcc@.active.contains_key(t),
        r is Ok && r->Ok_0.error is None ==> ({
            let a = action_models(r->Ok_0.actions@);
            &&& a.len() > 0
            &&& a.last() == (ActionModel::Write {
                bytes: record_bytes(WalModel { txn_id: t, record: RecordModel::Rollback }),
            })
            &&& forall|i: int| 0 <= i < a.len() - 1 ==> !((#[trigger] a[i]) is Write)
        }),
        after.mvcc == before.mvcc,
        after.store == before.store,
{
    law_plan_of_one_record(
        before.wal.cursor,
        before.wal.config.max_file_size,
        before.wal.config.write_through,
        WalModel { txn_id: t, record: RecordModel::Rollback },
    );
}

/// A patch of entries holds exactly these, sorted by key and then by
/// transaction, under the name of its number.
pub proof fn law_patch_holds_its_entries(
    w: PatchWrite,
    cf: u16,
    entries: Seq<PatchEntry>,
    patch_id: u64,
    p: PatchModel,
)
    requires
        is_patch_of(w, cf, entries, patch_id),
    ensures
        w.cf == cf,
        w.patch.format@.len() == entries.len(),
        w.patch.format@.contains(p) <==> patch_models(entries).contains(p),
        forall|a: int, b: int|
            0 <= a < b < w.patch.format@.len() ==> crate::bytes::lex_lt(
                (#[trigger] w.patch.format@[a]).key,
                (#[trigger] w.patch.format@[b]).key,
            ) || (w.patch.format@[a].key == w.patch.format@[b].key && w.patch.format@[a].txn_id
                <= w.patch.format@[b].txn_id),
        w.patch.format@.contains(p) ==> w.patch.zone_map.min_txn <= p.txn_id
            <= w.patch.zone_map.max_txn,
        w.patch.zone_map.entry_count == entries.len(),
{
    let sorted = w.patch.format->entries@;
    let c = w.patch.format@;
    assert(c == patch_models(sorted));
    let models = patch_models(entries);
    if c.contains(p) {
        let i = choose|i: int| 0 <= i < c.len() && c[i] == p;
        assert(sorted[i]@ == p);
        assert(sorted.contains(sorted[i]));
        crate::store::gc::lemma_same_members(entries, sorted, sorted[i]);
        let j = choose|j: int| 0 <= j < entries.len() && entries[j] == sorted[i];
        assert(models[j] == p);
    }
    if models.contains(p) {
        let j = choose|j: int| 0 <= j < models.len() && models[j] == p;
        assert(entries[j]@ == p);
        assert(entries.contains(entries[j]));
        crate::store::gc::lemma_same_members(entries, sorted, entries[j]);
        let i = choose|i: int| 0 <= i < sorted.len() && sorted[i] == entries[j];
        assert(c[i] == p);
    }
    assert forall|a: int, b: int| 0 <= a < b < c.len() implies crate::bytes::lex_lt(
        (#[trigger] c[a]).key,
        (#[trigger] c[b]).key,
    ) || (c[a].key == c[b].key && c[a].txn_id <= c[b].txn_id) by {
        assert(crate::sort::Ranked::ranks_le(sorted[a], sorted[b]));
    }
}

/// The patch that a compaction writes: every entry of it is in an L2 patch of
/// the column family, and is from the watermark on, or no committed version of
/// its key below the watermark that L2 holds is newer.
pub proof fn law_compacted_patch_holds_nothing_hidden(
    st: FlushEngine,
    cf: u16,
    watermark: TxnId,
    known: Set<TxnId>,
    w: PatchWrite,
    patch_id: u64,
    p: PatchModel,
    u: TxnId,
    value: Option<Seq<u8>>,
)
    requires
        st.wf(),
        is_merged(st, cf, watermark, known, w, patch_id),
        w.patch.format@.contains(p),
    ensures
        in_patches(patch_list(st.l2, cf), p.key, p.txn_id, p.value),
        in_patches(patch_list(st.l2, cf), p.key, u, value) && u < watermark && known.contains(u)
            ==> p.txn_id >= watermark || u <= p.txn_id,
{
    let list = patch_list(st.l2, cf);
    let versions = versions_in(cf, list, everything());
    let retained = choose|retained: Seq<PatchEntry>|
        merges(versions, watermark, known, retained) && #[trigger] is_patch_of(
            w,
            cf,
            retained,
            patch_id,
        );
    law_patch_holds_its_entries(w, cf, retained, patch_id, p);
    let models = patch_models(retained);
    let a = choose|a: int| 0 <= a < models.len() && models[a] == p;
    assert(retained[a]@ == p);
    let (entries, sorted) = choose|entries: Seq<PatchEntry>, sorted: Seq<PatchEntry>|
        crate::store::flush::same_as(entries, versions) && #[trigger] crate::store::gc::gc_merged(
            entries,
            watermark,
            known,
            sorted,
            retained,
        );
    law_gc_invents_nothing(entries, watermark, known, sorted, retained, a, a);
    let i = choose|i: int|
        0 <= i < entries.len() && (#[trigger] entries[i]).key@ == retained[a].key@
            && entries[i].txn_id == retained[a].txn_id && entries[i]@.value == retained[a]@.value;
    assert(patch_models(entries)[i] == entries[i]@);
    assert(patch_models(entries).len() == versions.len());
    assert(patch_models(entries)[i] == crate::store::flush::as_patch(versions[i]));
    let e = versions[i];
    assert(versions.contains(e));
    law_layer_serves_exactly(cf, list, everything(), e);
    assert(PatchModel { key: e.key.key, value: e.value, txn_id: e.txn_id } == p);
    if in_patches(list, p.key, u, value) && u < watermark && known.contains(u) {
        let x = EntryModel {
            key: crate::store::types::KeyModel { cf, key: p.key },
            txn_id: u,
            value,
            ts: 0,
        };
        law_everything_is_everything(p.key, list[0]);
        law_layer_serves_exactly(cf, list, everything(), x);
        let j = choose|j: int| 0 <= j < versions.len() && versions[j] == x;
        law_compaction_reclaims_what_is_hidden(
            versions,
            watermark,
            known,
            retained,
            a,
            a,
            j,
        );
    }
}

/// What a compaction reports: the number of versions that the patches it wrote
/// left out, and of column families whose L2 patches were dropped. The epoch
/// goes on if and only if there was one.
pub proof fn law_compaction_counts(
    job0: CompactJob,
    st0: FlushEngine,
    known: Set<TxnId>,
    r: CompactTask,
    job1: CompactJob,
    st1: FlushEngine,
)
    requires
        compact_stepped(job0, st0, known, r, job1, st1),
    ensures
        r is Done ==> r->Done_cfs == job1.compacted && r->Done_reclaimed == job1.reclaimed
            && job1.reclaimed == job0.reclaimed && (r->Done_cfs > 0 <==> st1.flush_epoch
            != st0.flush_epoch),
        job1.compacted == job0.compacted + (if job0.dropping {
            1int
        } else {
            0int
        }),
        r is Write && job0.reclaimed + versions_in(
            r->Write_cf,
            patch_list(st1.l2, r->Write_cf),
            everything(),
        ).len() <= usize::MAX ==> job1.out is Some && job1.reclaimed - job0.reclaimed
            == versions_in(r->Write_cf, patch_list(st1.l2, r->Write_cf), everything()).len() - (
        job1.out->0).patch.format@.len(),
        r is Read ==> job1.reclaimed == job0.reclaimed,
        // L1, the recent-flush cache and the log of column families stay
        st1.l1 == st0.l1,
        st1.recent_flush == st0.recent_flush,
        job1.cfs == job0.cfs,
        job1.watermark == job0.watermark,
{
    assert(st0.flush_epoch.wrapping_add(1) != st0.flush_epoch);
}

/// What a checkpoint does when: the state is written only after the WAL was
/// synced, the pointer only after the state, and the WAL is truncated only
/// after the pointer and the mark, up to the segment that is being written and
/// without it.
pub proof fn law_checkpoint_does_one_thing_after_the_other(
    e0: Z1Kv,
    job0: CheckpointJob,
    r: CheckpointTask,
    job1: CheckpointJob,
    e1: Z1Kv,
)
    requires
        checkpoint_stepped(e0, job0, r, job1, e1),
    ensures
        r is WritePatch ==> job0.stage is FlushData && job1.stage is FlushData,
        r is WriteState ==> job0.stage is SyncWal && job1.stage is WriteState,
        r is WriteLatest ==> job0.stage is WriteState && job1.stage is WriteLatest,
        r is Truncate ==> job0.stage is MarkWal && job1.stage is TruncateWal && r->Truncate_0.seq
            == e0.wal.cursor.seq,
        r is Wal ==> job0.stage is FlushData || job0.stage is WriteLatest,
        r is Failed ==> job1.stage is Failed,
        r is WriteLatest ==> r->WriteLatest_bytes@ == job0.files.latest@,
        r is WriteState ==> r->WriteState_bytes@ == job1.files.bytes@,
        r is WriteState ==> files_of(e0, job1.files),
{
}

/// What a checkpoint holds: its pointer names the largest committed
/// transaction, and its file, in an intact envelope, that transaction and every
/// transaction of the history with its commit timestamp.
pub proof fn law_checkpoint_holds_the_history(e: Z1Kv, files: CheckpointFiles) -> (s: CheckpointModel)
    requires
        files_of(e, files),
    ensures
        pointed_at(files.latest@) == Some(e.mvcc@.committed_txn),
        opened(files.bytes@) == Some(
            encoded_history(
                e.mvcc@.committed_txn,
                e.mvcc@.committed_txn,
                s.timestamp_ms,
                s.committed_history,
            ),
        ),
        lists_history(e.mvcc@.history, s.committed_history),
{
    let s = choose|s: CheckpointModel| #[trigger]
        is_state_of(e, s) && checkpoint_payload(s).len() <= u32::MAX && files.name@
            == crate::wal::checkpoint::checkpoint_file(s.checkpoint_id) && files.bytes@
            == crate::wal::checkpoint::enveloped(checkpoint_payload(s)) && files.latest@ == le_u64(
            s.checkpoint_id,
        );
    law_pointer_round_trip(s.checkpoint_id, files.latest@);
    law_envelope_round_trip(checkpoint_payload(s), Seq::empty());
    assert(files.bytes@ + Seq::<u8>::empty() =~= files.bytes@);
    s
}

/// A compaction passes over a column family only where none of its L2 patches
/// holds anything.
pub proof fn law_passed_over_holds_nothing(
    job0: CompactJob,
    st0: FlushEngine,
    known: Set<TxnId>,
    r: CompactTask,
    job1: CompactJob,
    st1: FlushEngine,
    j: int,
    key: Seq<u8>,
    t: TxnId,
    value: Option<Seq<u8>>,
)
    requires
        compact_stepped(job0, st0, known, r, job1, st1),
        job0.next + (if job0.dropping {
            1int
        } else {
            0int
        }) <= j < job1.next,
    ensures
        !in_patches(patch_list(st1.l2, job0.cfs@[j]), key, t, value),
        forall|i: int|
            0 <= i < patch_list(st1.l2, job0.cfs@[j]).len() ==> (#[trigger] patch_list(
                st1.l2,
                job0.cfs@[j],
            )[i]).content is Some,
{
    let cf = job0.cfs@[j];
    let list = patch_list(st1.l2, cf);
    assert(crate::store::jobs::nothing_in(st1.l2, cf));
    let e = EntryModel {
        key: crate::store::types::KeyModel { cf, key },
        txn_id: t,
        value,
        ts: 0,
    };
    law_everything_is_everything(key, list[0]);
    law_layer_serves_exactly(cf, list, everything(), e);
    law_read_waits_for_every_patch(list, everything());
    assert forall|i: int| 0 <= i < list.len() implies (#[trigger] list[i]).content is Some by {
        law_everything_is_everything(key, list[i]);
    }
}

/// A commit stays, and leaves the commits before it: as long as there is room
/// in the history, the transaction is in it afterwards with its insertion time,
/// and so is every other that is not older than the time-to-live; what is
/// committed is then seen by everyone who reads now.
pub proof fn law_recent_commits_stay_visible(
    before: VisibilityManager,
    t: TxnId,
    inserted_at: u64,
    after: VisibilityManager,
    u: TxnId,
)
    requires
        committed(before, t, inserted_at, Ok::<(), Z1Error>(()), after),
        before@.history.len() < before@.config.max_history_entries,
        before@.history.contains_key(u) ==> u <= before@.committed_txn,
    ensures
        after.clock.last_valid - inserted_at <= before@.config.history_ttl_secs * 1000
            ==> after@.history.contains_key(t) && after@.history[t].1 == inserted_at
            && snapshot_of(after@, IsolationLevel::Snapshot).sees(t),
        u != t && before@.history.contains_key(u) && !before@.active.contains_key(u)
            && after.clock.last_valid - before@.history[u].1 <= before@.config.history_ttl_secs
            * 1000 ==> after@.history.contains_key(u) && after@.history[u] == before@.history[u]
            && snapshot_of(after@, IsolationLevel::Snapshot).sees(u),
        after@.config == before@.config,
        after@.active == before@.active.remove(t),
        after.clock.last_valid >= before.clock.last_valid,
{
    let (commit_ts, now_ms, got) = choose|
        commit_ts: u64,
        now_ms: u64,
        got: Result<TxnSnapshot>,
    | #[trigger]
        commit_went(before, t, inserted_at, commit_ts, now_ms, got, after) && got is Ok;
    assert(before@.history.dom().finite());
    assert(after@.history.dom().finite());
    law_commit_enters_the_history(
        before@,
        t,
        inserted_at,
        commit_ts,
        now_ms,
        got,
        after@,
        u,
    );
    law_snapshot_sees_exactly(after@, IsolationLevel::Snapshot, 0, t);
    law_snapshot_sees_exactly(after@, IsolationLevel::Snapshot, 0, u);
}

/// Sixteen ids are tried for a transaction.
pub proof fn law_sixteen_ids_are_tried(m: ManagerModel, counter: u64)
    requires
        forall|t: TxnId| #[trigger] m.active.contains_key(t) ==> t < counter,
        counter < u64::MAX,
    ensures
        m.committed_txn < counter ==> begun(m, counter, BEGIN_RETRY as nat) == (
            Begun::Started(counter),
            (counter + 1) as u64,
        ),
        counter <= m.committed_txn < counter + 15 && m.committed_txn + 1 < u64::MAX ==> begun(
            m,
            counter,
            BEGIN_RETRY as nat,
        ) == (Begun::Started((m.committed_txn + 1) as u64), (m.committed_txn + 2) as u64),
        m.committed_txn >= counter + 15 && counter + 16 <= u64::MAX ==> begun(
            m,
            counter,
            BEGIN_RETRY as nat,
        ).0 is Committed,
{
    law_begin_takes_the_next_id(m, counter, BEGIN_RETRY as nat);
}

/// Beginning a flush: the WAL is made durable first, with all that was queued.
/// The hot buffer is then empty, and every version it held is in the
/// recent-flush cache, stays readable, and belongs to a group that is to be
/// written.
pub proof fn law_flush_begins(before: Z1Kv, p: FlushPlan, after: Z1Kv, e: EntryModel)
    requires
        before.wf(),
        flush_begun(before, p, after),
    ensures
        p.wal.error is None ==> action_models(p.wal.actions@).len() > 0 && action_models(
            p.wal.actions@,
        ).last() == (ActionModel::Sync { to_disk: !before.wal.config.write_through }),
        after.wal.queue@.len() == 0,
        after.store.l1.hot@.len() == 0,
        before.store.l1.hot@.contains(e) ==> {
            &&& after.store.recent_flush.cache@.contains(e)
            &&& after.store.l1.snapshot@.contains(e)
            &&& exists|g: int|
                0 <= g < p.job.groups@.len() && (#[trigger] p.job.groups@[g]).cf == e.key.cf
                    && patch_models(p.job.groups@[g].entries@).contains(
                    PatchModel { key: e.key.key, value: e.value, txn_id: e.txn_id },
                )
        },
        // what an earlier flush could not write is written with it
        before.store.recent_flush.cache@.contains(e) && (forall|i: int|
            0 <= i < before.store.l1.hot@.len() ==> !((#[trigger] before.store.l1.hot@[i]).key
                == e.key && before.store.l1.hot@[i].txn_id == e.txn_id))
            ==> after.store.recent_flush.cache@.contains(e),
        after.store.l2 == before.store.l2,
        after.store.l3 == before.store.l3,
        after.mvcc == before.mvcc,
{
    let hot = before.store.l1.hot@;
    let old_cache = before.store.recent_flush.cache@;
    let cache = after.store.recent_flush.cache@;
    law_writes_replace_only_themselves(old_cache, hot, e);
    if hot.contains(e) {
        let i = choose|i: int| 0 <= i < hot.len() && hot[i] == e;
        assert forall|j: int| i < j < hot.len() implies !((#[trigger] hot[j]).key == e.key
            && hot[j].txn_id == e.txn_id) by {
            assert(crate::store::version_map::version_lt(hot[i], hot[j]));
            crate::bytes::lemma_lex_irreflexive(e.key.key);
        }
        assert(hot[i] == e);
        assert(cache.contains(e));
        let k = choose|k: int| 0 <= k < cache.len() && cache[k] == e;
        assert(cache[k].key.cf == e.key.cf);
        let g = choose|g: int|
            0 <= g < p.job.groups@.len() && (#[trigger] p.job.groups@[g]).cf
                == cache[k].key.cf;
        law_group_holds_its_versions(
            cache,
            e.key.cf,
            PatchModel { key: e.key.key, value: e.value, txn_id: e.txn_id },
            k,
        );
        assert(patch_models(p.job.groups@[g].entries@) == crate::store::flush::of_cf(
            cache,
            e.key.cf,
        ));
    }
    let c = before.wal.config;
    let queue = crate::wal::record::wal_models(before.wal.queue@);
    let plan = crate::wal::writer::flushed(
        before.wal.cursor,
        c.max_file_size,
        c.write_through,
        queue,
    );
    law_durable_plan_ends_in_a_sync(
        plan,
        before.wal.cursor,
        c.max_file_size,
        c.write_through,
        queue,
    );
}

/// A step of a flush enters the patch that was written in the index of L2,
/// takes none out of it, and leaves every other column family and L3 alone. A
/// patch that it hands out takes a number of its own, and the number after it
/// is the next.
pub proof fn law_flush_step_indexes_the_patch(
    job0: FlushJob,
    st0: FlushEngine,
    r: FlushStep,
    job1: FlushJob,
    st1: FlushEngine,
    cf: u16,
    x: RefModel,
)
    requires
        flush_stepped(job0, st0, r, job1, st1),
    ensures
        job0.out is None ==> st1.l2 == st0.l2,
        job0.out is Some && cf == (job0.out->0).cf ==> (patch_list(st1.l2, cf).contains(x)
            <==> patch_list(st0.l2, cf).contains(x) || x == ref_of(
            (job0.out->0).name@,
            (job0.out->0).patch.format@,
        )) && patch_list(st1.l2, cf).len() == patch_list(st0.l2, cf).len() + 1,
        job0.out is Some && cf != (job0.out->0).cf ==> patch_list(st1.l2, cf) == patch_list(
            st0.l2,
            cf,
        ),
        st1.l3 == st0.l3,
        st1.l1 == st0.l1,
        r is Write ==> r->Write_name@ == patch_file(st0.next_patch_id) && st1.next_patch_id
            == st0.next_patch_id.wrapping_add(1) && st1.recent_flush == st0.recent_flush,
        r is Done ==> st1.recent_flush.cache@.len() == 0 && st1.flush_epoch != st0.flush_epoch,
        r is Failed ==> st1.recent_flush == st0.recent_flush && st1.flush_epoch == st0.flush_epoch,
{
    if let Some(w) = job0.out {
        law_index_gains_one(patch_list(st0.l2, w.cf), ref_of(w.name@, w.patch.format@));
    }
    assert(st0.flush_epoch.wrapping_add(1) != st0.flush_epoch);
}

/// A step of a compaction enters the patch that was written in the index of L3
/// and takes none out of it; the L2 patches of a column family leave the index
/// only when their files were deleted, which is asked for only once L3 has what
/// is kept of them. Everything else stays.
pub proof fn law_compaction_step_moves_the_patches(
    job0: CompactJob,
    st0: FlushEngine,
    known: Set<TxnId>,
    r: CompactTask,
    job1: CompactJob,
    st1: FlushEngine,
    cf: u16,
    x: RefModel,
)
    requires
        compact_stepped(job0, st0, known, r, job1, st1),
    ensures
        job0.out is None ==> st1.l3 == st0.l3,
        job0.out is Some && cf == (job0.out->0).cf ==> (patch_list(st1.l3, cf).contains(x)
            <==> patch_list(st0.l3, cf).contains(x) || x == ref_of(
            (job0.out->0).name@,
            (job0.out->0).patch.format@,
        )) && patch_list(st1.l3, cf).len() == patch_list(st0.l3, cf).len() + 1,
        job0.out is Some && cf != (job0.out->0).cf ==> patch_list(st1.l3, cf) == patch_list(
            st0.l3,
            cf,
        ),
        job0.out is Some ==> r is Drop && r->Drop_cf == (job0.out->0).cf,
        !job0.dropping ==> st1.l2 == st0.l2,
        job0.dropping && cf == job0.cfs@[job0.next as int] ==> patch_list(st1.l2, cf).len() == 0,
        job0.dropping && cf != job0.cfs@[job0.next as int] ==> patch_list(st1.l2, cf)
            == patch_list(st0.l2, cf),
        r is Write ==> r->Write_name@ == patch_file(st0.next_patch_id) && st1.next_patch_id
            == st0.next_patch_id.wrapping_add(1),
{
    if let Some(w) = job0.out {
        law_index_gains_one(patch_list(st0.l3, w.cf), ref_of(w.name@, w.patch.format@));
    }
}

/// Before a checkpoint writes its state, everything that was in the
/// recent-flush cache is in L2 patches, and the WAL is synced with all that was
/// queued.
pub proof fn law_checkpoint_flushes_everything_first(
    e0: Z1Kv,
    job0: CheckpointJob,
    r: CheckpointTask,
    job1: CheckpointJob,
    e1: Z1Kv,
    k: int,
)
    requires
        checkpoint_stepped(e0, job0, r, job1, e1),
        job0.stage is FlushData,
    ensures
        job1.stage is SyncWal ==> {
            &&& r is Wal
            &&& action_models(r->Wal_0@).len() > 0
            &&& action_models(r->Wal_0@).last() == (ActionModel::Sync {
                to_disk: !e0.wal.config.write_through,
            })
            &&& e1.wal.queue@.len() == 0
            &&& e1.store.recent_flush.cache@.len() == 0
            &&& 0 <= k < e0.store.recent_flush.cache@.len() ==> exists|
                i: int,
                c: Seq<PatchModel>,
            |
                0 <= i < patch_list(
                    e1.store.l2,
                    e0.store.recent_flush.cache@[k].key.cf,
                ).len() && #[trigger] ref_of(
                    patch_list(e1.store.l2, e0.store.recent_flush.cache@[k].key.cf)[i].name,
                    c,
                ) == patch_list(e1.store.l2, e0.store.recent_flush.cache@[k].key.cf)[i]
                    && c.contains(
                    PatchModel {
                        key: e0.store.recent_flush.cache@[k].key.key,
                        value: e0.store.recent_flush.cache@[k].value,
                        txn_id: e0.store.recent_flush.cache@[k].txn_id,
                    },
                )
        },
        job1.stage is FlushData || job1.stage is SyncWal || job1.stage is Failed,
{
    let step = choose|step: FlushStep| #[trigger]
        flush_stepped(job0.flush, e0.store, step, job1.flush, e1.store) && match step {
            FlushStep::Write { cf, name, bytes } => r == (CheckpointTask::WritePatch {
                cf,
                name,
                bytes,
            }) && job1.stage is FlushData && e1.wal == e0.wal,
            FlushStep::Failed(e) => r == CheckpointTask::Failed(e) && e1.wal == e0.wal,
            FlushStep::Done(_) => task_of(r, sync_plan(e0.wal)) && e1.wal.queue@.len() == 0,
        };
    let c = e0.wal.config;
    let queue = crate::wal::record::wal_models(e0.wal.queue@);
    let plan = crate::wal::writer::flushed(e0.wal.cursor, c.max_file_size, c.write_through, queue);
    law_durable_plan_ends_in_a_sync(plan, e0.wal.cursor, c.max_file_size, c.write_through, queue);
    if job1.stage is SyncWal {
        assert(step is Done);
        let cache = e0.store.recent_flush.cache@;
        if 0 <= k < cache.len() {
            let e = cache[k];
            let list = patch_list(e1.store.l2, e.key.cf);
            let p = PatchModel { key: e.key.key, value: e.value, txn_id: e.txn_id };
            assert(indexed(list, as_patch(cache[k])));
            let i = choose|i: int| 0 <= i < list.len() && ref_holds(#[trigger] list[i], p);
            let held = choose|held: Seq<PatchModel>|
                list[i] == #[trigger] ref_of(list[i].name, held) && held.contains(p);
            assert(ref_of(list[i].name, held) == list[i]);
        }
    }
}

/// A compaction takes the column families one after the other and leaves none
/// out: it is done only behind the last one. It reads only patches that are not
/// in memory, merges a column family only with all of its patches in memory,
/// and has the L2 patches deleted only once the index of L3 has what GC keeps of
/// them.
pub proof fn law_compaction_leaves_none_out(
    job0: CompactJob,
    st0: FlushEngine,
    known: Set<TxnId>,
    r: CompactTask,
    job1: CompactJob,
    st1: FlushEngine,
)
    requires
        compact_stepped(job0, st0, known, r, job1, st1),
    ensures
        r is Done ==> job1.next == job1.cfs@.len(),
        job1.next >= job0.next,
        r is Read ==> job1.next < job1.cfs@.len() && r->Read_cf == job1.cfs@[job1.next as int]
            && exists|i: int|
            0 <= i < patch_list(st1.l2, r->Read_cf).len() && (#[trigger] patch_list(
                st1.l2,
                r->Read_cf,
            )[i]).name == r->Read_name@ && patch_list(st1.l2, r->Read_cf)[i].content is None,
        r is Write ==> job1.next < job1.cfs@.len() && r->Write_cf == job1.cfs@[job1.next as int]
            && !job1.dropping && forall|i: int|
            0 <= i < patch_list(st1.l2, r->Write_cf).len() ==> (#[trigger] patch_list(
                st1.l2,
                r->Write_cf,
            )[i]).content is Some,
        r is Drop ==> job1.dropping && r->Drop_cf == job1.cfs@[job1.next as int] && exists|
            watermark: TxnId,
            ks: Set<TxnId>,
            retained: Seq<PatchEntry>,
        | #[trigger]
            merges(
                versions_in(r->Drop_cf, patch_list(st1.l2, r->Drop_cf), everything()),
                watermark,
                ks,
                retained,
            ) && forall|p: PatchModel| #[trigger]
                patch_models(retained).contains(p) ==> exists|i: int|
                    0 <= i < patch_list(st1.l3, r->Drop_cf).len() && ref_holds(
                        #[trigger] patch_list(st1.l3, r->Drop_cf)[i],
                        p,
                    ),
{
    match r {
        CompactTask::Read { cf, name } => {
            law_read_waits_for_every_patch(patch_list(st1.l2, cf), everything());
        },
        CompactTask::Write { cf, .. } => {
            let list = patch_list(st1.l2, cf);
            assert(job1.wf(st1));
            law_read_waits_for_every_patch(list, everything());
            assert forall|i: int| 0 <= i < list.len() implies (#[trigger] list[i]).content
                is Some by {
                law_everything_is_everything(Seq::empty(), list[i]);
            }
        },
        CompactTask::Drop { cf } => {
            assert(taken_over(st1, cf));
            let (wm, ks) = choose|wm: TxnId, ks: Set<TxnId>| #[trigger]
                merged_into_l3(st1, cf, wm, ks);
            let retained = choose|retained: Seq<PatchEntry>| #[trigger]
                merges(
                    versions_in(cf, patch_list(st1.l2, cf), everything()),
                    wm,
                    ks,
                    retained,
                ) && forall|p: PatchModel| #[trigger]
                    patch_models(retained).contains(p) ==> indexed(patch_list(st1.l3, cf), p);
            assert forall|p: PatchModel| #[trigger]
                patch_models(retained).contains(p) implies exists|i: int|
                0 <= i < patch_list(st1.l3, cf).len() && ref_holds(
                    #[trigger] patch_list(st1.l3, cf)[i],
                    p,
                ) by {
                assert(indexed(patch_list(st1.l3, cf), p));
            }
        },
        _ => {},
    }
}

} // verus!
