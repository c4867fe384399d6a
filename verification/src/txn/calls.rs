//! What calls give, stated of the calls themselves.

use crate::bytes::lex_lt;
use crate::codec::payload::vec_model;
use crate::mvcc::visibility::{IsolationLevel, TxnSnapshot, VisibilityManager};
use crate::store::mem::MemStore;
use crate::store::select::{end_model, key_in_range};
use crate::store::SyncLevel;
use crate::txn::engine::{pairs_model, Read, Z1Kv};
use crate::txn::reads::{law_read_is_complete, law_scan_is_complete, seen, stored, wrote_newest};
use crate::TxnId;
use vstd::prelude::*;

verus! {

/// A checkpoint is due when the WAL has reached the configured size, and a
/// compaction when L2 has reached the configured number of patches; a setting
/// of zero turns either off.
pub proof fn law_when_upkeep_is_due(
    e: &Z1Kv,
    wal_size: u64,
    patch_count: usize,
    checkpoint: bool,
    compaction: bool,
)
    requires
        call_ensures(Z1Kv::checkpoint_due, (e, wal_size), checkpoint),
        call_ensures(Z1Kv::compaction_due, (e, patch_count), compaction),
    ensures
        e.config.checkpoint_wal_size_threshold == 0 ==> !checkpoint,
        e.config.checkpoint_wal_size_threshold > 0 ==> (checkpoint <==> wal_size
            >= e.config.checkpoint_wal_size_threshold),
        e.config.l2_compaction_threshold == 0 ==> !compaction,
        e.config.l2_compaction_threshold > 0 ==> (compaction <==> patch_count
            >= e.config.l2_compaction_threshold),
{
}

/// A flush is due when the hot buffer has grown over the threshold. A sync of a
/// batch is due when enough writes are pending or enough time has passed, and
/// never where writes are not synced in batches.
pub proof fn law_when_a_flush_is_due(m: &MemStore, since_ms: u64, flush: bool, sync: bool)
    requires
        call_ensures(MemStore::should_flush, (m,), flush),
        call_ensures(MemStore::sync_due, (m, since_ms), sync),
    ensures
        flush <==> m.hot_size_bytes > m.flush_threshold,
        m.sync_level == SyncLevel::Immediate || m.sync_level == SyncLevel::Async ==> !sync,
        m.sync_level is Batch ==> (sync <==> m.batch_pending >= m.sync_level->Batch_max_pending
            || since_ms >= m.sync_level->Batch_ms),
{
}

/// A key lies in a range if and only if it is the start or behind it, and
/// before the end, where there is one.
pub proof fn law_key_in_range(key: &[u8], start: &[u8], end: Option<&[u8]>, r: bool)
    requires
        call_ensures(key_in_range, (key, start, end), r),
    ensures
        r <==> (key@ == start@ || lex_lt(start@, key@)) && (end is Some ==> lex_lt(
            key@,
            (end->0)@,
        )),
{
}

/// A read as of a snapshot gives the newest version that the snapshot sees, of
/// all that the store holds of the key.
pub proof fn law_get_at(
    e: &Z1Kv,
    snap: &TxnSnapshot,
    cf: u16,
    key: &[u8],
    r: Read<Option<Vec<u8>>>,
)
    requires
        e.store.wf(),
        call_ensures(Z1Kv::get_at, (e, snap, cf, key), r),
        r is Done,
    ensures
        vec_model(r->Done_0) is Some ==> exists|t: TxnId| #[trigger]
            stored(e.store, cf, key@, t, vec_model(r->Done_0)) && seen(snap@, t) && wrote_newest(
                e.store,
                snap@,
                cf,
                key@,
                t,
            ),
        vec_model(r->Done_0) is None ==> (forall|t: TxnId, value: Option<Seq<u8>>| #[trigger]
            stored(e.store, cf, key@, t, value) ==> !seen(snap@, t)) || exists|t: TxnId| #[trigger]
            stored(e.store, cf, key@, t, None) && seen(snap@, t) && wrote_newest(
                e.store,
                snap@,
                cf,
                key@,
                t,
            ),
{
    law_read_is_complete(e.store, snap@, cf, key@, r);
}

/// A scan as of a snapshot lists a key only with the value of the newest version
/// that the snapshot sees, and only from the start on and before the end; and it
/// lists every such key, where the layers agree on what was written to it.
pub proof fn law_scan_at(
    e: &Z1Kv,
    snap: &TxnSnapshot,
    cf: u16,
    start: &[u8],
    end: Option<&[u8]>,
    r: Read<Vec<(Vec<u8>, Vec<u8>)>>,
    key: Seq<u8>,
    value: Seq<u8>,
)
    requires
        e.store.wf(),
        call_ensures(Z1Kv::scan_at, (e, snap, cf, start, end), r),
        r is Done,
    ensures
        pairs_model(r->Done_0@).contains((key, value)) ==> {
            &&& key == start@ || lex_lt(start@, key)
            &&& end is Some ==> lex_lt(key, (end->0)@)
            &&& exists|t: TxnId| #[trigger]
                stored(e.store, cf, key, t, Some(value)) && seen(snap@, t) && wrote_newest(
                    e.store,
                    snap@,
                    cf,
                    key,
                    t,
                )
        },
        (key == start@ || lex_lt(start@, key)) && (end is Some ==> lex_lt(key, (end->0)@)) && (
        exists|t: TxnId| #[trigger]
            stored(e.store, cf, key, t, Some(value)) && seen(snap@, t) && wrote_newest(
                e.store,
                snap@,
                cf,
                key,
                t,
            ) && forall|v: Option<Seq<u8>>| #[trigger]
                stored(e.store, cf, key, t, v) ==> v == Some(value))
            ==> pairs_model(r->Done_0@).contains((key, value)),
{
    law_scan_is_complete(e.store, snap@, cf, start@, end_model(end), r, key, value);
}

/// A snapshot of the state at `at` holds the transactions that had committed by
/// then, and takes those that had begun by then and not ended for active.
pub proof fn law_snapshot_at(
    m: &VisibilityManager,
    at: TxnId,
    isolation: IsolationLevel,
    r: TxnSnapshot,
    t: TxnId,
)
    requires
        call_ensures(VisibilityManager::snapshot_at, (m, at, isolation), r),
    ensures
        r@.snapshot_id == at,
        r@.isolation == isolation,
        r@.commits.contains_key(t) <==> m@.history.contains_key(t) && m@.history[t].0 <= at,
        r@.commits.contains_key(t) ==> r@.commits[t] == m@.history[t].0,
        r@.active.contains(t) <==> m@.active.contains_key(t) && m@.active[t].begin_ts <= at,
{
}

} // verus!
