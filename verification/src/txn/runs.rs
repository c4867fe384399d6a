//! Runs: what holds after any sequence of calls.

use crate::config::Z1Config;
use crate::error::{Result, Z1Error};
use crate::mvcc::visibility::{begin_outcome, snapshot_of, without_active, IsolationLevel};
use crate::store::disk::{patch_list, DiskLayer};
use crate::store::select::Span;
use crate::store::types::{EntryModel, KeyModel};
use crate::store::version_map::{all_upserted, same_version, version_lt};
use crate::txn::engine::{
    begun, candidates, commit_begun, committed, goes_on, lemma_commit_frame, opened_from, opened_on,
    opens, opens_what_was_written, patches_used_up, read_in_txn, read_value, recovered_as,
    replayed_version, replayed_versions, rollback_begun, write_outcome, Begun, CommitTicket, Read,
    WritePlan, Z1Kv, BEGIN_RETRY,
};
use crate::txn::laws::{
    holds_version, law_committed_write_survives, law_unseen_key_reads_as_nothing,
    lemma_all_upserted_ascends, lemma_concat_members, lemma_upserted_origin,
};
use crate::wal::record::{log_bytes, RecordModel, WalModel};
use crate::wal::recovery::{
    commit_of, labelled, pending_of, puts_model, recovers, replay_of, restored, rolled_back,
    RecoveryResult,
};
use crate::wal::replay::{broken_off, holds, joined, segments_hold};
use crate::wal::writer::{
    action_models, all_performed, law_plan_appends, lemma_performed_push, planned, ActionModel,
    WalPlan, WalWriter,
};
use crate::TxnId;
use vstd::prelude::*;

verus! {

/// A transaction that has begun and ended.
pub open spec fn is_finished(e: Z1Kv, t: TxnId) -> bool {
    t < e.txn_counter && !e.mvcc@.active.contains_key(t)
}

/// `states` are the states of an engine over some calls, whatever they are.
pub open spec fn engine_runs(states: Seq<Z1Kv>) -> bool {
    &&& states.len() > 0
    &&& forall|i: int| 0 <= i < states.len() - 1 ==> goes_on(#[trigger] states[i], states[i + 1])
}

proof fn lemma_stays_finished(states: Seq<Z1Kv>, t: TxnId, n: int)
    requires
        engine_runs(states),
        is_finished(states[0], t),
        0 <= n < states.len(),
    ensures
        is_finished(states[n], t),
    decreases n,
{
    if n > 0 {
        lemma_stays_finished(states, t, n - 1);
        assert(goes_on(states[n - 1], states[n]));
    }
}

/// A transaction that has ended stays refused for good: after any calls, every
/// write, read, commit and rollback under its id reports that it is unknown,
/// and changes nothing; a write, a commit and a rollback plan nothing for the
/// WAL.
pub proof fn law_finished_is_refused(states: Seq<Z1Kv>, t: TxnId, after: Z1Kv)
    requires
        engine_runs(states),
        is_finished(states[0], t),
    ensures
        is_finished(states.last(), t),
        forall|cf: u16, key: Seq<u8>, value: Option<Seq<u8>>, r: Result<WritePlan>| #[trigger]
            write_outcome(states.last(), cf, key, value, t, r, after) ==> after == states.last()
                && (r matches Err(Z1Error::TxnNotFound(u)) && u == t),
        forall|r: Result<CommitTicket>| #[trigger]
            commit_begun(states.last(), t, r, after) ==> after == states.last() && (r matches Err(
                Z1Error::TxnNotFound(u),
            ) && u == t),
        forall|r: Result<WalPlan>| #[trigger]
            rollback_begun(states.last(), t, r, after) ==> after == states.last() && (r matches Err(
                Z1Error::TxnNotFound(u),
            ) && u == t),
        forall|cf: u16, key: Seq<u8>, r: Result<Read<Option<Vec<u8>>>>| #[trigger]
            read_in_txn(states.last(), cf, key, t, r, after) ==> after == states.last() && (
            r matches Err(Z1Error::TxnNotFound(u)) && u == t),
{
    lemma_stays_finished(states, t, states.len() - 1);
}

/// A commit, whatever it comes to, ends the transaction; the others stay
/// active, with the snapshots that they have pinned. `after` is the engine
/// after [`Z1Kv::finish_commit`].
pub proof fn law_commit_ends_the_transaction(
    before: Z1Kv,
    t: TxnId,
    inserted_at: u64,
    r: Result<()>,
    after: Z1Kv,
    u: TxnId,
)
    requires
        before.wf(),
        before.mvcc@.active.contains_key(t),
        committed(before.mvcc, t, inserted_at, r, after.mvcc),
        after.txn_snapshots@ == before.txn_snapshots@.remove(t),
        after.txn_counter == before.txn_counter,
    ensures
        is_finished(after, t),
        u != t && before.mvcc@.active.contains_key(u) ==> after.mvcc@.active.contains_key(u)
            && after.txn_snapshots@[u] == before.txn_snapshots@[u],
{
    lemma_commit_frame(before.mvcc, t, inserted_at, r, after.mvcc);
    assert(!after.mvcc@.active.dom().contains(t));
    if u != t && before.mvcc@.active.contains_key(u) {
        assert(before.mvcc@.active.dom().contains(u));
        assert(after.mvcc@.active.dom().contains(u));
    }
}

/// So does a commit that is refused for a conflict.
pub proof fn law_refused_commit_ends_the_transaction(
    before: Z1Kv,
    t: TxnId,
    e: Z1Error,
    after: Z1Kv,
    u: TxnId,
)
    requires
        before.wf(),
        before.mvcc@.active.contains_key(t),
        commit_begun(before, t, Err::<CommitTicket, Z1Error>(e), after),
    ensures
        is_finished(after, t),
        u != t && before.mvcc@.active.contains_key(u) ==> after.mvcc@.active.contains_key(u)
            && after.txn_snapshots@[u] == before.txn_snapshots@[u],
{
}

/// And so does a rollback; `after` is the engine after
/// [`Z1Kv::finish_rollback`].
pub proof fn law_rollback_ends_the_transaction(before: Z1Kv, t: TxnId, after: Z1Kv, u: TxnId)
    requires
        before.wf(),
        before.mvcc@.active.contains_key(t),
        after.mvcc@ == without_active(before.mvcc@, t),
        after.txn_snapshots@ == before.txn_snapshots@.remove(t),
        after.txn_counter == before.txn_counter,
    ensures
        is_finished(after, t),
        u != t && before.mvcc@.active.contains_key(u) ==> after.mvcc@.active.contains_key(u)
            && after.txn_snapshots@[u] == before.txn_snapshots@[u],
{
}

/// A call that has succeeded.
pub enum Call {
    Begin { t: TxnId },
    /// A put, or a delete where there is no value.
    Write { t: TxnId, cf: u16, key: Seq<u8>, value: Option<Seq<u8>> },
    Commit { t: TxnId, inserted_at: u64 },
    Rollback { t: TxnId },
    /// Anything that neither begins a transaction nor logs: a read, a write or
    /// a commit that is refused.
    Other,
}

/// What a call logs.
pub open spec fn logged(c: Call) -> Seq<WalModel> {
    match c {
        Call::Write { t, cf, key, value } => seq![
            WalModel { txn_id: t, record: RecordModel::Put { cf, key, value } },
        ],
        Call::Commit { t, inserted_at } => seq![
            WalModel {
                txn_id: t,
                record: RecordModel::Commit { commit_ts: t, inserted_at },
            },
        ],
        Call::Rollback { t } => seq![WalModel { txn_id: t, record: RecordModel::Rollback }],
        _ => Seq::empty(),
    }
}

/// What these calls have logged.
pub open spec fn log_of(calls: Seq<Call>) -> Seq<WalModel>
    decreases calls.len(),
{
    if calls.len() == 0 {
        Seq::empty()
    } else {
        log_of(calls.drop_last()) + logged(calls.last())
    }
}

/// The call takes an engine from `before` to `after`, and the segments of its
/// log from `log0` to `log1`: what it plans for the WAL is performed. Between
/// its steps only the WAL and L1 change.
pub open spec fn call_runs(
    before: Z1Kv,
    log0: Seq<Seq<u8>>,
    c: Call,
    after: Z1Kv,
    log1: Seq<Seq<u8>>,
) -> bool {
    match c {
        Call::Begin { t } => {
            let b = begun(before.mvcc@, before.txn_counter, BEGIN_RETRY as nat);
            &&& b.0 == Begun::Started(t)
            &&& after.txn_counter == b.1
            &&& begin_outcome(before.mvcc@, t, Ok::<(), Z1Error>(()), after.mvcc@)
            &&& log1 == log0
        },
        Call::Write { t, cf, key, value } => {
            &&& exists|w: WritePlan, mid: Z1Kv| #[trigger]
                write_outcome(before, cf, key, value, t, Ok::<WritePlan, Z1Error>(w), mid)
                    && after.mvcc == mid.mvcc && after.txn_counter == mid.txn_counter && log1
                    == all_performed(log0, action_models(w.actions@))
        },
        Call::Commit { t, inserted_at } => {
            &&& exists|ticket: CommitTicket, mid: Z1Kv|
                #[trigger] commit_begun(before, t, Ok::<CommitTicket, Z1Error>(ticket), mid)
                    && ticket.inserted_at == inserted_at && committed(
                    mid.mvcc,
                    t,
                    inserted_at,
                    Ok::<(), Z1Error>(()),
                    after.mvcc,
                ) && after.txn_counter == mid.txn_counter && ticket.plan.error is None && log1
                    == all_performed(log0, action_models(ticket.plan.actions@))
        },
        Call::Rollback { t } => {
            &&& exists|plan: WalPlan, mid: Z1Kv| #[trigger]
                rollback_begun(before, t, Ok::<WalPlan, Z1Error>(plan), mid) && after.mvcc@
                    == without_active(mid.mvcc@, t) && after.txn_counter == mid.txn_counter
                    && plan.error is None && log1 == all_performed(
                    log0,
                    action_models(plan.actions@),
                )
        },
        Call::Other => goes_on(before, after) && log1 == log0,
    }
}

/// `states` are the states of an engine over these calls, and `disks` the
/// segments of its log, which begins with an empty one.
pub open spec fn calls_run(
    states: Seq<Z1Kv>,
    disks: Seq<Seq<Seq<u8>>>,
    calls: Seq<Call>,
) -> bool {
    &&& states.len() == calls.len() + 1
    &&& disks.len() == calls.len() + 1
    &&& disks[0] == seq![Seq::<u8>::empty()]
    &&& forall|i: int| 0 <= i < states.len() ==> (#[trigger] states[i]).wf()
    &&& forall|i: int|
        0 <= i < calls.len() ==> call_runs(
            states[i],
            disks[i],
            #[trigger] calls[i],
            states[i + 1],
            disks[i + 1],
        )
}

pub open spec fn commits(c: Call, t: TxnId) -> bool {
    c matches Call::Commit { t: u, .. } && u == t
}

pub open spec fn rolls_back(c: Call, t: TxnId) -> bool {
    c matches Call::Rollback { t: u } && u == t
}

/// Transaction `t` has committed.
pub open spec fn has_committed(calls: Seq<Call>, t: TxnId) -> bool {
    exists|i: int| 0 <= i < calls.len() && commits(#[trigger] calls[i], t)
}

/// The last write of transaction `t` to a key; nothing where it wrote none.
pub open spec fn last_write(
    calls: Seq<Call>,
    t: TxnId,
    cf: u16,
    key: Seq<u8>,
) -> Option<Option<Seq<u8>>>
    decreases calls.len(),
{
    if calls.len() == 0 {
        None
    } else {
        match calls.last() {
            Call::Write { t: u, cf: c, key: k, value } => if u == t && c == cf && k == key {
                Some(value)
            } else {
                last_write(calls.drop_last(), t, cf, key)
            },
            _ => last_write(calls.drop_last(), t, cf, key),
        }
    }
}

/// Transaction `t` is the newest one that has committed a write to the key.
pub open spec fn is_newest_writer(calls: Seq<Call>, t: TxnId, cf: u16, key: Seq<u8>) -> bool {
    &&& has_committed(calls, t)
    &&& last_write(calls, t, cf, key) is Some
    &&& forall|u: TxnId| #[trigger]
        has_committed(calls, u) && last_write(calls, u, cf, key) is Some ==> u <= t
}

proof fn lemma_begun(before: Z1Kv, counter: u64, tries: nat, t: TxnId)
    requires
        begun(before.mvcc@, counter, tries).0 == Begun::Started(t),
    ensures
        counter <= t < begun(before.mvcc@, counter, tries).1,
    decreases tries,
{
    if counter < u64::MAX && !before.mvcc@.active.contains_key(counter) && counter
        <= before.mvcc@.committed_txn && tries > 1 {
        lemma_begun(before, (counter + 1) as u64, (tries - 1) as nat, t);
    }
}

/// What has ended does not come back.
proof fn lemma_call_keeps_finished(
    before: Z1Kv,
    log0: Seq<Seq<u8>>,
    c: Call,
    after: Z1Kv,
    log1: Seq<Seq<u8>>,
    t: TxnId,
)
    requires
        call_runs(before, log0, c, after, log1),
        is_finished(before, t),
    ensures
        is_finished(after, t),
{
    match c {
        Call::Begin { t: u } => {
            lemma_begun(before, before.txn_counter, BEGIN_RETRY as nat, u);
        },
        Call::Commit { t: u, inserted_at } => {
            let (ticket, mid) = choose|ticket: CommitTicket, mid: Z1Kv|
                #[trigger] commit_begun(before, u, Ok::<CommitTicket, Z1Error>(ticket), mid)
                    && ticket.inserted_at == inserted_at && committed(
                    mid.mvcc,
                    u,
                    inserted_at,
                    Ok::<(), Z1Error>(()),
                    after.mvcc,
                ) && after.txn_counter == mid.txn_counter;
            lemma_commit_frame(mid.mvcc, u, inserted_at, Ok::<(), Z1Error>(()), after.mvcc);
            if after.mvcc@.active.contains_key(t) {
                assert(after.mvcc@.active.dom().contains(t));
                assert(mid.mvcc@.active.dom().contains(t));
            }
        },
        Call::Write { t: u, cf, key, value } => {
            let (w, mid) = choose|w: WritePlan, mid: Z1Kv| #[trigger]
                write_outcome(before, cf, key, value, u, Ok::<WritePlan, Z1Error>(w), mid)
                    && after.mvcc == mid.mvcc && after.txn_counter == mid.txn_counter;
        },
        _ => {},
    }
}

/// A commit and a rollback need an active transaction, and end it.
proof fn lemma_call_ends(
    before: Z1Kv,
    log0: Seq<Seq<u8>>,
    c: Call,
    after: Z1Kv,
    log1: Seq<Seq<u8>>,
    t: TxnId,
)
    requires
        before.wf(),
        call_runs(before, log0, c, after, log1),
        commits(c, t) || rolls_back(c, t),
    ensures
        before.mvcc@.active.contains_key(t),
        is_finished(after, t),
{
    match c {
        Call::Commit { t: u, inserted_at } => {
            let (ticket, mid) = choose|ticket: CommitTicket, mid: Z1Kv|
                #[trigger] commit_begun(before, u, Ok::<CommitTicket, Z1Error>(ticket), mid)
                    && ticket.inserted_at == inserted_at && committed(
                    mid.mvcc,
                    u,
                    inserted_at,
                    Ok::<(), Z1Error>(()),
                    after.mvcc,
                ) && after.txn_counter == mid.txn_counter;
            lemma_commit_frame(mid.mvcc, u, inserted_at, Ok::<(), Z1Error>(()), after.mvcc);
            assert(!after.mvcc@.active.dom().contains(u));
        },
        _ => {},
    }
}

proof fn lemma_run_keeps_finished(
    states: Seq<Z1Kv>,
    disks: Seq<Seq<Seq<u8>>>,
    calls: Seq<Call>,
    t: TxnId,
    i: int,
    j: int,
)
    requires
        calls_run(states, disks, calls),
        0 <= i <= j < states.len(),
        is_finished(states[i], t),
    ensures
        is_finished(states[j], t),
    decreases j - i,
{
    if i < j {
        lemma_run_keeps_finished(states, disks, calls, t, i, j - 1);
        assert(call_runs(
            states[j - 1],
            disks[j - 1],
            calls[j - 1],
            states[j - 1 + 1],
            disks[j - 1 + 1],
        ));
        lemma_call_keeps_finished(states[j - 1], disks[j - 1], calls[j - 1], states[j], disks[j], t);
    }
}

/// What has committed is never rolled back.
proof fn lemma_commit_excludes_rollback(
    states: Seq<Z1Kv>,
    disks: Seq<Seq<Seq<u8>>>,
    calls: Seq<Call>,
    t: TxnId,
    i: int,
    j: int,
)
    requires
        calls_run(states, disks, calls),
        0 <= i < calls.len(),
        0 <= j < calls.len(),
        commits(calls[i], t),
    ensures
        !rolls_back(calls[j], t),
{
    if rolls_back(calls[j], t) {
        assert(call_runs(states[i], disks[i], calls[i], states[i + 1], disks[i + 1]));
        assert(call_runs(states[j], disks[j], calls[j], states[j + 1], disks[j + 1]));
        assert(states[i].wf() && states[j].wf());
        lemma_call_ends(states[i], disks[i], calls[i], states[i + 1], disks[i + 1], t);
        lemma_call_ends(states[j], disks[j], calls[j], states[j + 1], disks[j + 1], t);
        if i < j {
            lemma_run_keeps_finished(states, disks, calls, t, i + 1, j);
        } else if j < i {
            lemma_run_keeps_finished(states, disks, calls, t, j + 1, i);
        }
    }
}

/// The commits in the log are those of the run.
proof fn lemma_log_commits(calls: Seq<Call>, t: TxnId)
    ensures
        commit_of(log_of(calls), t) is Some <==> has_committed(calls, t),
    decreases calls.len(),
{
    if calls.len() > 0 {
        let rest = calls.drop_last();
        let before = log_of(rest);
        let now = log_of(calls);
        lemma_log_commits(rest, t);
        if logged(calls.last()).len() > 0 {
            assert(now =~= before.push(logged(calls.last())[0]));
            assert(now.drop_last() =~= before);
        } else {
            assert(now =~= before);
        }
        if has_committed(rest, t) {
            let i = choose|i: int| 0 <= i < rest.len() && commits(#[trigger] rest[i], t);
            assert(commits(calls[i], t));
        }
        if commits(calls.last(), t) {
            assert(commits(calls[calls.len() - 1], t));
        }
        if has_committed(calls, t) && !has_committed(rest, t) {
            let i = choose|i: int| 0 <= i < calls.len() && commits(#[trigger] calls[i], t);
            if i < rest.len() {
                assert(commits(rest[i], t));
            }
        }
    } else {
        assert(!has_committed(calls, t));
    }
}

/// What a transaction without a rollback has pending are its writes, and the
/// last one to a key is the last in the run.
proof fn lemma_log_pending(calls: Seq<Call>, t: TxnId, cf: u16, key: Seq<u8>)
    requires
        forall|i: int| 0 <= i < calls.len() ==> !rolls_back(#[trigger] calls[i], t),
    ensures
        !rolled_back(log_of(calls), t),
        match last_write(calls, t, cf, key) {
            Some(value) => pending_of(log_of(calls), t) matches Some(ops) && exists|k: int|
                is_last_put(ops, k, cf, key, value),
            None => pending_of(log_of(calls), t) matches Some(ops) ==> forall|k: int|
                0 <= k < ops.len() ==> !puts_key(#[trigger] ops[k].record, cf, key),
        },
    decreases calls.len(),
{
    if calls.len() > 0 {
        let rest = calls.drop_last();
        let before = log_of(rest);
        let now = log_of(calls);
        let c = calls.last();
        assert(calls[calls.len() - 1] == c);
        assert forall|i: int| 0 <= i < rest.len() implies !rolls_back(#[trigger] rest[i], t) by {
            assert(rest[i] == calls[i]);
        }
        lemma_log_pending(rest, t, cf, key);
        if logged(c).len() > 0 {
            assert(now =~= before.push(logged(c)[0]));
            assert(now.drop_last() =~= before);
        } else {
            assert(now =~= before);
        }
        match c {
            Call::Write { t: u, cf: d, key: k, value } => {
                if u == t {
                    let old_ops = match pending_of(before, t) {
                        Some(ops) => ops,
                        None => Seq::empty(),
                    };
                    let ops = pending_of(now, t)->0;
                    let n = old_ops.len() as int;
                    assert(ops == old_ops.push(logged(c)[0]));
                    if d == cf && k == key {
                        assert(is_last_put(ops, n, cf, key, value));
                    } else {
                        match last_write(rest, t, cf, key) {
                            Some(v) => {
                                let m = choose|m: int| is_last_put(old_ops, m, cf, key, v);
                                assert(ops[m] == old_ops[m]);
                                assert forall|j: int| m < j < ops.len() implies !puts_key(
                                    #[trigger] ops[j].record,
                                    cf,
                                    key,
                                ) by {
                                    if j < n {
                                        assert(ops[j] == old_ops[j]);
                                    }
                                }
                                assert(is_last_put(ops, m, cf, key, v));
                            },
                            None => {
                                assert forall|j: int| 0 <= j < ops.len() implies !puts_key(
                                    #[trigger] ops[j].record,
                                    cf,
                                    key,
                                ) by {
                                    if j < n {
                                        assert(ops[j] == old_ops[j]);
                                    }
                                }
                            },
                        }
                    }
                }
            },
            _ => {},
        }
    }
}

/// The record writes the key.
pub open spec fn puts_key(r: RecordModel, cf: u16, key: Seq<u8>) -> bool {
    r matches RecordModel::Put { cf: c, key: k, value } && c == cf && k == key
}

/// The write at `k` is the last one to the key, and writes this value.
spec fn is_last_put(
    ops: Seq<WalModel>,
    k: int,
    cf: u16,
    key: Seq<u8>,
    value: Option<Seq<u8>>,
) -> bool {
    &&& 0 <= k < ops.len()
    &&& ops[k].record == (RecordModel::Put { cf, key, value })
    &&& forall|j: int| k < j < ops.len() ==> !puts_key(#[trigger] ops[j].record, cf, key)
}

/// What recovery puts into L1 are pending writes of committed transactions.
proof fn lemma_restored_is_pending(
    rs: Seq<WalModel>,
    order: Seq<TxnId>,
    strict: bool,
    i: int,
) -> (k: int)
    requires
        0 <= i < restored(rs, order, Map::<TxnId, Z1Error>::empty(), strict).0.puts.len(),
    ensures
        ({
            let put = restored(rs, order, Map::<TxnId, Z1Error>::empty(), strict).0.puts[i];
            &&& commit_of(rs, put.0) is Some
            &&& pending_of(rs, put.0) matches Some(ops) && 0 <= k < ops.len() && ops[k].record
                == put.1
        }),
    decreases order.len(),
{
    let none = Map::<TxnId, Z1Error>::empty();
    let rest = order.drop_last();
    let (got, end) = restored(rs, rest, none, strict);
    let now = restored(rs, order, none, strict).0;
    let t = order.last();
    if i < got.puts.len() {
        assert(now.puts[i] == got.puts[i]);
        lemma_restored_is_pending(rs, rest, strict, i)
    } else {
        let ops = replay_of(rs, t)->0;
        assert(now.puts == got.puts + labelled(t, ops));
        let k = i - got.puts.len();
        assert(now.puts[i] == labelled(t, ops)[k]);
        k
    }
}

/// What is in L1 after opening on a log: committed writes, each version once.
proof fn lemma_opened_versions(
    e: Z1Kv,
    rec: RecoveryResult,
    baseline: (TxnId, Vec<(TxnId, u64)>),
    rs: Seq<WalModel>,
    x: EntryModel,
)
    requires
        opened_from(e, rec, baseline, e.config),
        recovered_as(rs, e.config.strict_mode, rec),
        e.store.l1.hot@.contains(x),
    ensures
        commit_of(rs, x.txn_id) is Some,
        pending_of(rs, x.txn_id) matches Some(ops) && exists|k: int|
            0 <= k < ops.len() && puts_key(#[trigger] ops[k].record, x.key.cf, x.key.key),
{
    let strict = e.config.strict_mode;
    let order = choose|order: Seq<TxnId>| #[trigger]
        recovers(rs, order, Map::<TxnId, Z1Error>::empty(), strict, Ok(rec), Seq::empty());
    let puts = puts_model(rec.committed_puts@);
    let es = replayed_versions(puts);
    lemma_upserted_origin(Seq::empty(), es, x);
    assert(!Seq::<EntryModel>::empty().contains(x));
    let i = choose|i: int| 0 <= i < es.len() && es[i] == x;
    assert(es[i] == replayed_version(puts[i]));
    let k = lemma_restored_is_pending(rs, order, strict, i);
    let ops = pending_of(rs, puts[i].0)->0;
    crate::txn::laws::lemma_pending_are_puts(rs, puts[i].0, k);
    assert(puts_key(ops[k].record, x.key.cf, x.key.key));
}

/// The layers hold no patches.
pub open spec fn has_no_patches(l: DiskLayer) -> bool {
    forall|cf: u16| #[trigger] patch_list(l, cf).len() == 0
}

proof fn lemma_only_l1(
    e: Z1Kv,
    cf: u16,
    span: Span,
    x: EntryModel,
)
    requires
        has_no_patches(e.store.l2),
        has_no_patches(e.store.l3),
        e.store.recent_flush.cache@.len() == 0,
        e.store.l1.cold@.len() == 0,
        e.store.l1.snapshot@.len() == 0,
        holds_version(e.store, cf, span, x),
    ensures
        e.store.l1.hot@.contains(x),
{
    assert(patch_list(e.store.l2, cf).len() == 0);
    assert(patch_list(e.store.l3, cf).len() == 0);
    let l1 = e.store.l1;
    lemma_concat_members(l1.hot@, l1.cold@, x);
    lemma_concat_members(l1.hot@ + l1.cold@, l1.snapshot@, x);
}

/// The segments with something more at the end.
pub open spec fn torn(segs: Seq<Seq<u8>>, tail: Seq<u8>) -> Seq<Seq<u8>> {
    segs.drop_last().push(segs.last() + tail)
}

proof fn lemma_torn(segs: Seq<Seq<u8>>, logs: Seq<Seq<WalModel>>, tail: Seq<u8>)
    requires
        segs.len() > 0,
        segments_hold(segs, logs, Seq::empty()),
        tail.len() == 0 || broken_off(tail),
    ensures
        segments_hold(torn(segs, tail), logs, tail),
{
    let now = torn(segs, tail);
    let none = Seq::<u8>::empty();
    assert forall|i: int| 0 <= i < now.len() implies holds(
        #[trigger] now[i],
        logs[i],
        if i + 1 == now.len() {
            tail
        } else {
            Seq::empty()
        },
        i + 1 == now.len(),
    ) by {
        assert(holds(segs[i], logs[i], none, i + 1 == segs.len()));
        assert(segs[i] =~= log_bytes(logs[i]));
    }
}

/// What the segments hold after some calls is what these have logged.
proof fn lemma_disk(
    states: Seq<Z1Kv>,
    disks: Seq<Seq<Seq<u8>>>,
    calls: Seq<Call>,
    n: int,
) -> (logs: Seq<Seq<WalModel>>)
    requires
        calls_run(states, disks, calls),
        0 <= n <= calls.len(),
    ensures
        disks[n].len() > 0,
        segments_hold(disks[n], logs, Seq::empty()),
        joined(logs, 0) == log_of(calls.take(n)),
    decreases n,
{
    if n == 0 {
        let none = Seq::<WalModel>::empty();
        let logs = seq![none];
        assert(calls.take(0) =~= Seq::<Call>::empty());
        assert(log_bytes(none) + Seq::<u8>::empty() =~= Seq::<u8>::empty());
        assert(holds(disks[0][0], logs[0], Seq::empty(), true));
        reveal_with_fuel(joined, 2);
        assert(joined(logs, 0) =~= none);
        logs
    } else {
        let logs = lemma_disk(states, disks, calls, n - 1);
        let c = calls[n - 1];
        let before = states[n - 1];
        let log0 = disks[n - 1];
        let log1 = disks[n];
        assert(call_runs(
            states[n - 1],
            disks[n - 1],
            calls[n - 1],
            states[n - 1 + 1],
            disks[n - 1 + 1],
        ));
        assert(calls.take(n).drop_last() =~= calls.take(n - 1));
        assert(calls.take(n).last() == c);
        let cursor = before.wal.cursor;
        let size = before.wal.config.max_file_size;
        let through = before.wal.config.write_through;
        let es = logged(c);
        let plan = planned(cursor, size, through, es);
        if es.len() == 0 {
            assert(log_of(calls.take(n)) =~= log_of(calls.take(n - 1)));
            logs
        } else {
            match c {
                Call::Commit { .. } => {
                    lemma_performed_push(
                        log0,
                        plan.actions,
                        ActionModel::Sync { to_disk: !through },
                    );
                },
                _ => {},
            }
            assert(plan.stop is None);
            assert(log1 == all_performed(log0, plan.actions));
            law_plan_appends(cursor, size, through, es, log0, logs)
        }
    }
}

/// Durability of a whole run: an engine ran some calls without a flush or a
/// checkpoint, and stopped at any point; opening again on what its log holds
/// succeeds, logs nothing, and then every key reads as the last write of the
/// newest transaction that had committed one. Where none had, it reads as
/// nothing: what was rolled back, or had not committed, is never seen.
///
/// `tail` is what reached the disk of one more record, perhaps nothing.
pub proof fn law_run_is_read_back(
    states: Seq<Z1Kv>,
    disks: Seq<Seq<Seq<u8>>>,
    calls: Seq<Call>,
    tail: Seq<u8>,
    data_dir: String,
    config: Z1Config,
    wal: WalWriter,
    l2: DiskLayer,
    l3: DiskLayer,
    baseline: (TxnId, Vec<(TxnId, u64)>),
    r: Result<Z1Kv>,
    cf: u16,
    key: Seq<u8>,
)
    requires
        calls_run(states, disks, calls),
        tail.len() == 0 || broken_off(tail),
        has_no_patches(l2),
        has_no_patches(l3),
        !patches_used_up(l2, l3),
        baseline.0 == 0,
        baseline.1@.len() == 0,
        opens(data_dir, config, wal, l2, l3, baseline, torn(disks.last(), tail), r),
        opens_what_was_written(config, l2, l3, baseline, torn(disks.last(), tail), r),
    ensures
        r is Ok,
        r->Ok_0.wal == wal,
        forall|t: TxnId| #[trigger]
            is_newest_writer(calls, t, cf, key) ==> read_value(
                candidates(
                    r->Ok_0.store,
                    snapshot_of(r->Ok_0.mvcc@, IsolationLevel::Snapshot),
                    cf,
                    Span::Key(key),
                ),
            ) == last_write(calls, t, cf, key)->0,
        (forall|t: TxnId| #[trigger]
            has_committed(calls, t) ==> last_write(calls, t, cf, key) is None) ==> read_value(
            candidates(
                r->Ok_0.store,
                snapshot_of(r->Ok_0.mvcc@, IsolationLevel::Snapshot),
                cf,
                Span::Key(key),
            ),
        ) is None,
{
    let e = r->Ok_0;
    let rs = log_of(calls);
    let span = Span::Key(key);
    let snap = snapshot_of(e.mvcc@, IsolationLevel::Snapshot);
    let n = calls.len() as int;
    let logs = lemma_disk(states, disks, calls, n);
    assert(calls.take(n) =~= calls);
    lemma_torn(disks.last(), logs, tail);
    assert(opened_on(e, baseline, config, rs));
    let rec = choose|rec: RecoveryResult| #[trigger]
        opened_from(e, rec, baseline, e.config) && recovered_as(rs, e.config.strict_mode, rec);
    // what a layer holds of the key is a committed write of the run
    assert forall|x: EntryModel| #[trigger]
        holds_version(e.store, cf, span, x) && x.key == (KeyModel { cf, key }) implies
        has_committed(calls, x.txn_id) && last_write(calls, x.txn_id, cf, key) is Some
            && e.store.l1.hot@.contains(x) by {
        lemma_only_l1(e, cf, span, x);
        lemma_opened_versions(e, rec, baseline, rs, x);
        lemma_log_commits(calls, x.txn_id);
        lemma_no_rollback(states, disks, calls, x.txn_id);
        lemma_log_pending(calls, x.txn_id, cf, key);
        let ops = pending_of(rs, x.txn_id)->0;
        let k = choose|k: int| 0 <= k < ops.len() && puts_key(#[trigger] ops[k].record, cf, key);
        assert(puts_key(ops[k].record, cf, key));
    }
    assert forall|t: TxnId| #[trigger] is_newest_writer(calls, t, cf, key) implies read_value(
        candidates(e.store, snap, cf, span),
    ) == last_write(calls, t, cf, key)->0 by {
        let value = last_write(calls, t, cf, key)->0;
        lemma_log_commits(calls, t);
        lemma_no_rollback(states, disks, calls, t);
        lemma_log_pending(calls, t, cf, key);
        let ops = pending_of(rs, t)->0;
        let k = choose|k: int| is_last_put(ops, k, cf, key, value);
        let v = EntryModel { key: KeyModel { cf, key }, txn_id: t, value, ts: 0 };
        assert forall|j: int| k < j < ops.len() implies !((
        #[trigger] ops[j].record) matches RecordModel::Put { cf: c, key: q, value: _ } && c
            == v.key.cf && q == v.key.key) by {
            assert(!puts_key(ops[j].record, cf, key));
        }
        law_committed_write_survives(e, rec, baseline, rs, t, k, v);
        assert forall|x: EntryModel| #[trigger]
            holds_version(e.store, v.key.cf, Span::Key(v.key.key), x) && x.key == v.key
                && snap.sees(x.txn_id) implies x.txn_id < t || (x.txn_id == t && x.value
            == v.value) by {
            assert(x.txn_id <= t);
            if x.txn_id == t {
                lemma_one_version(e, rec, x, v);
            }
        }
    }
    if forall|t: TxnId| #[trigger]
        has_committed(calls, t) ==> last_write(calls, t, cf, key) is None {
        assert forall|x: EntryModel| #[trigger]
            holds_version(e.store, cf, Span::Key(key), x) && x.key.cf == cf && x.key.key
                == key implies !snap.sees(x.txn_id) by {
            assert(x.key == (KeyModel { cf, key }));
            assert(has_committed(calls, x.txn_id));
        }
        law_unseen_key_reads_as_nothing(e.store, snap, cf, key);
    }
}

/// L1 holds a version once.
proof fn lemma_one_version(e: Z1Kv, rec: RecoveryResult, x: EntryModel, v: EntryModel)
    requires
        e.store.l1.hot@ == all_upserted(
            Seq::empty(),
            replayed_versions(puts_model(rec.committed_puts@)),
        ),
        e.store.l1.hot@.contains(x),
        e.store.l1.hot@.contains(v),
        same_version(x, v),
    ensures
        x == v,
{
    let hot = e.store.l1.hot@;
    lemma_all_upserted_ascends(Seq::empty(), replayed_versions(puts_model(rec.committed_puts@)));
    let i = choose|i: int| 0 <= i < hot.len() && hot[i] == x;
    let j = choose|j: int| 0 <= j < hot.len() && hot[j] == v;
    crate::bytes::lemma_lex_irreflexive(x.key.key);
    if i < j {
        assert(version_lt(hot[i], hot[j]));
    } else if j < i {
        assert(version_lt(hot[j], hot[i]));
    }
}

proof fn lemma_no_rollback(states: Seq<Z1Kv>, disks: Seq<Seq<Seq<u8>>>, calls: Seq<Call>, t: TxnId)
    requires
        calls_run(states, disks, calls),
        has_committed(calls, t),
    ensures
        forall|j: int| 0 <= j < calls.len() ==> !rolls_back(#[trigger] calls[j], t),
{
    let i = choose|i: int| 0 <= i < calls.len() && commits(#[trigger] calls[i], t);
    assert forall|j: int| 0 <= j < calls.len() implies !rolls_back(#[trigger] calls[j], t) by {
        lemma_commit_excludes_rollback(states, disks, calls, t, i, j);
    }
}

} // verus!
