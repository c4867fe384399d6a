//! What holds of transactions that run at the same time.

use crate::codec::payload::vec_model;
use crate::error::{Result, Z1Error};
use crate::mvcc::laws::law_check_is_exact;
use crate::txn::engine::{
    commit_begun, conflict_bytes, goes_on, read_in_txn, write_outcome, CommitTicket, Read,
    WritePlan, Z1Kv,
};
use crate::txn::reads::{law_read_is_complete, seen, stored, wrote_newest};
use crate::txn::runs::engine_runs;
use crate::TxnId;
use vstd::prelude::*;

verus! {

/// A write adds its key to what its transaction has written, whatever that was
/// before, and leaves what it has read, all other transactions and the history
/// alone.
pub proof fn law_write_is_recorded(
    before: Z1Kv,
    cf: u16,
    key: Seq<u8>,
    value: Option<Seq<u8>>,
    t: TxnId,
    r: Result<WritePlan>,
    after: Z1Kv,
)
    requires
        write_outcome(before, cf, key, value, t, r, after),
        r is Ok,
    ensures
        before.mvcc@.active.contains_key(t),
        after.mvcc@.active[t].writes == before.mvcc@.active[t].writes.insert(
            conflict_bytes(cf, key),
        ),
        after.mvcc@.active[t].reads == before.mvcc@.active[t].reads,
        after.mvcc@.active.dom() == before.mvcc@.active.dom(),
        forall|o: TxnId| o != t ==> #[trigger] after.mvcc@.active[o] == before.mvcc@.active[o],
        after.mvcc@.history == before.mvcc@.history,
        r->Ok_0.entry@.key.cf == cf,
        r->Ok_0.entry@.key.key == key,
        r->Ok_0.entry@.value == value,
        r->Ok_0.entry@.txn_id == t,
{
    assert(after.mvcc@.active.dom() =~= before.mvcc@.active.dom());
}

/// A read within a transaction adds its key to what the transaction has read,
/// whether or not it is done, and leaves everything else alone.
pub proof fn law_read_is_recorded(
    before: Z1Kv,
    cf: u16,
    key: Seq<u8>,
    t: TxnId,
    r: Result<Read<Option<Vec<u8>>>>,
    after: Z1Kv,
)
    requires
        read_in_txn(before, cf, key, t, r, after),
        r is Ok,
    ensures
        before.mvcc@.active.contains_key(t),
        after.mvcc@.active[t].reads == before.mvcc@.active[t].reads.insert(
            conflict_bytes(cf, key),
        ),
        after.mvcc@.active[t].writes == before.mvcc@.active[t].writes,
        after.mvcc@.active.dom() == before.mvcc@.active.dom(),
        forall|o: TxnId| o != t ==> #[trigger] after.mvcc@.active[o] == before.mvcc@.active[o],
        after.mvcc@.history == before.mvcc@.history,
{
    assert(after.mvcc@.active.dom() =~= before.mvcc@.active.dom());
}

/// A transaction forgets nothing that it has read or written.
proof fn lemma_keeps_its_keys(states: Seq<Z1Kv>, t: TxnId, a: int, b: int)
    requires
        engine_runs(states),
        0 <= a <= b < states.len(),
        t < states[a].txn_counter,
        states[b].mvcc@.active.contains_key(t),
    ensures
        states[a].txn_counter <= states[b].txn_counter,
        states[a].mvcc@.active.contains_key(t),
        states[a].mvcc@.active[t].reads.subset_of(states[b].mvcc@.active[t].reads),
        states[a].mvcc@.active[t].writes.subset_of(states[b].mvcc@.active[t].writes),
    decreases b - a,
{
    if a < b {
        lemma_counter_goes_up(states, a, b - 1);
        assert(goes_on(states[b - 1], states[b]));
        lemma_keeps_its_keys(states, t, a, b - 1);
    }
}

proof fn lemma_counter_goes_up(states: Seq<Z1Kv>, a: int, b: int)
    requires
        engine_runs(states),
        0 <= a <= b < states.len(),
    ensures
        states[a].txn_counter <= states[b].txn_counter,
    decreases b - a,
{
    if a < b {
        lemma_counter_goes_up(states, a, b - 1);
        assert(goes_on(states[b - 1], states[b]));
    }
}

/// Lost updates are refused: of two active transactions that have each written
/// a key, at any time and whatever else they have done, the one that commits
/// first is refused and is active no longer.
pub proof fn law_conflicting_writes_are_refused(
    states: Seq<Z1Kv>,
    i: int,
    j: int,
    cf: u16,
    key: Seq<u8>,
    t: TxnId,
    value: Option<Seq<u8>>,
    plan: WritePlan,
    o: TxnId,
    other_value: Option<Seq<u8>>,
    other_plan: WritePlan,
    r: Result<CommitTicket>,
    after: Z1Kv,
)
    requires
        engine_runs(states),
        forall|n: int| 0 <= n < states.len() ==> (#[trigger] states[n]).wf(),
        0 <= i < states.len() - 1,
        0 <= j < states.len() - 1,
        write_outcome(states[i], cf, key, value, t, Ok::<WritePlan, Z1Error>(plan), states[i + 1]),
        write_outcome(
            states[j],
            cf,
            key,
            other_value,
            o,
            Ok::<WritePlan, Z1Error>(other_plan),
            states[j + 1],
        ),
        t != o,
        states.last().mvcc@.active.contains_key(t),
        states.last().mvcc@.active.contains_key(o),
        commit_begun(states.last(), t, r, after),
    ensures
        r is Err,
        r->Err_0 is MvccConflict,
        !after.mvcc@.active.contains_key(t),
{
    let n = states.len() - 1;
    let c = conflict_bytes(cf, key);
    let last = states.last();
    assert(states[i + 1].wf() && states[j + 1].wf());
    lemma_keeps_its_keys(states, t, i + 1, n);
    lemma_keeps_its_keys(states, o, j + 1, n);
    assert(last.mvcc@.active[t].writes.contains(c));
    assert(last.mvcc@.active[o].writes.contains(c));
    assert(!last.mvcc@.active[t].writes.disjoint(last.mvcc@.active[o].writes));
    lemma_commit_meets(last, t, o, r, after);
}

/// A key that one transaction has read and another has written, both still
/// active, refuses the one of them that commits first, whichever it is.
pub proof fn law_read_and_write_conflict(
    states: Seq<Z1Kv>,
    i: int,
    j: int,
    cf: u16,
    key: Seq<u8>,
    reader: TxnId,
    read: Read<Option<Vec<u8>>>,
    writer: TxnId,
    value: Option<Seq<u8>>,
    plan: WritePlan,
    t: TxnId,
    r: Result<CommitTicket>,
    after: Z1Kv,
)
    requires
        engine_runs(states),
        forall|n: int| 0 <= n < states.len() ==> (#[trigger] states[n]).wf(),
        0 <= i < states.len() - 1,
        0 <= j < states.len() - 1,
        read_in_txn(
            states[i],
            cf,
            key,
            reader,
            Ok::<Read<Option<Vec<u8>>>, Z1Error>(read),
            states[i + 1],
        ),
        write_outcome(
            states[j],
            cf,
            key,
            value,
            writer,
            Ok::<WritePlan, Z1Error>(plan),
            states[j + 1],
        ),
        reader != writer,
        states.last().mvcc@.active.contains_key(reader),
        states.last().mvcc@.active.contains_key(writer),
        t == reader || t == writer,
        commit_begun(states.last(), t, r, after),
    ensures
        r is Err,
        r->Err_0 is MvccConflict,
        !after.mvcc@.active.contains_key(t),
{
    let n = states.len() - 1;
    let c = conflict_bytes(cf, key);
    let last = states.last();
    assert(states[i + 1].wf() && states[j + 1].wf());
    lemma_keeps_its_keys(states, reader, i + 1, n);
    lemma_keeps_its_keys(states, writer, j + 1, n);
    assert(last.mvcc@.active[reader].reads.contains(c));
    assert(last.mvcc@.active[writer].writes.contains(c));
    assert(!last.mvcc@.active[reader].reads.disjoint(last.mvcc@.active[writer].writes));
    assert(!last.mvcc@.active[writer].writes.disjoint(last.mvcc@.active[reader].reads));
    if t == reader {
        lemma_commit_meets(last, reader, writer, r, after);
    } else {
        lemma_commit_meets(last, writer, reader, r, after);
    }
}

proof fn lemma_commit_meets(e: Z1Kv, t: TxnId, o: TxnId, r: Result<CommitTicket>, after: Z1Kv)
    requires
        e.mvcc@.active.contains_key(t),
        e.mvcc@.active.contains_key(o),
        t != o,
        !e.mvcc@.active[t].reads.disjoint(e.mvcc@.active[o].writes)
            || !e.mvcc@.active[t].writes.disjoint(e.mvcc@.active[o].reads)
            || !e.mvcc@.active[t].writes.disjoint(e.mvcc@.active[o].writes),
        commit_begun(e, t, r, after),
    ensures
        r is Err,
        r->Err_0 is MvccConflict,
        !after.mvcc@.active.contains_key(t),
{
    match r {
        Ok(_) => {
            law_check_is_exact(e.mvcc@, t, Ok(()), e.mvcc@);
        },
        Err(x) => {
            law_check_is_exact(e.mvcc@, t, Err(x), after.mvcc@);
        },
    }
}

/// A transaction that shares no key with another active one is never refused,
/// and one that is refused shares a key with one: the read of one of the two
/// and the write of the other, or the writes of both.
pub proof fn law_commit_is_refused_only_for_conflicts(
    e: Z1Kv,
    t: TxnId,
    r: Result<CommitTicket>,
    after: Z1Kv,
)
    requires
        commit_begun(e, t, r, after),
        e.mvcc@.active.contains_key(t),
    ensures
        r is Ok <==> forall|o: TxnId| o != t && #[trigger]
            e.mvcc@.active.contains_key(o) ==> e.mvcc@.active[t].reads.disjoint(
            e.mvcc@.active[o].writes,
        ) && e.mvcc@.active[t].writes.disjoint(e.mvcc@.active[o].reads)
            && e.mvcc@.active[t].writes.disjoint(e.mvcc@.active[o].writes),
{
    match r {
        Ok(_) => {
            law_check_is_exact(e.mvcc@, t, Ok(()), e.mvcc@);
        },
        Err(x) => {
            law_check_is_exact(e.mvcc@, t, Err(x), after.mvcc@);
        },
    }
}

proof fn lemma_keeps_its_snapshot(states: Seq<Z1Kv>, t: TxnId, a: int, b: int)
    requires
        engine_runs(states),
        0 <= a <= b < states.len(),
        t < states[a].txn_counter,
        states[b].mvcc@.active.contains_key(t),
    ensures
        states[a].mvcc@.active.contains_key(t),
        states[b].txn_snapshots@[t] == states[a].txn_snapshots@[t],
    decreases b - a,
{
    if a < b {
        lemma_counter_goes_up(states, a, b - 1);
        assert(goes_on(states[b - 1], states[b]));
        lemma_keeps_its_snapshot(states, t, a, b - 1);
    }
}

/// Repeatable reads: whatever happens after a transaction has begun, each of
/// its reads goes by the snapshot that it pinned then. A read that is done
/// gives the newest version that this snapshot sees, of all that the store
/// holds of the key; nothing means that it sees none, or that the newest is a
/// tombstone.
pub proof fn law_reads_go_by_the_pinned_snapshot(
    states: Seq<Z1Kv>,
    a: int,
    b: int,
    cf: u16,
    key: Seq<u8>,
    t: TxnId,
    read: Read<Option<Vec<u8>>>,
    after: Z1Kv,
)
    requires
        engine_runs(states),
        forall|n: int| 0 <= n < states.len() ==> (#[trigger] states[n]).wf(),
        0 <= a <= b < states.len(),
        t < states[a].txn_counter,
        read_in_txn(states[b], cf, key, t, Ok::<Read<Option<Vec<u8>>>, Z1Error>(read), after),
        read is Done,
    ensures
        states[a].mvcc@.active.contains_key(t),
        ({
            let snap = states[a].txn_snapshots@[t]@;
            let st = states[b].store;
            &&& vec_model(read->Done_0) is Some ==> exists|u: TxnId| #[trigger]
                stored(st, cf, key, u, vec_model(read->Done_0)) && seen(snap, u) && wrote_newest(
                    st,
                    snap,
                    cf,
                    key,
                    u,
                )
            &&& vec_model(read->Done_0) is None ==> (forall|u: TxnId, value: Option<Seq<u8>>|
                #[trigger]
                stored(st, cf, key, u, value) ==> !seen(snap, u)) || exists|u: TxnId| #[trigger]
                stored(st, cf, key, u, None) && seen(snap, u) && wrote_newest(st, snap, cf, key, u)
        }),
{
    lemma_keeps_its_snapshot(states, t, a, b);
    assert(states[b].wf());
    law_read_is_complete(states[b].store, states[a].txn_snapshots@[t]@, cf, key, read);
}

} // verus!
