//! The commit protocol: everything a commit does after its WAL record is
//! durable, as a list of operations applied in order.
//!
//! 1. prepare: the operations are gathered in memory
//! 2. commit: the WAL record becomes durable
//! 3. apply: the operations are applied in order
//!
//! What is applied is never rolled back: once the commit record is durable,
//! recovery takes the transaction as committed.

use crate::error::{Result, Z1Error};
use crate::text::copy_str;
use crate::TxnId;
use vstd::prelude::*;

verus! {

/// An operation waiting to be applied.
#[derive(Debug, Clone, Copy, PartialEq, Eq, Structural)]
pub enum PendingOp {
    /// Enter the transaction in the committed history.
    MvccCommit { inserted_at: u64 },
    /// Persist the committed transaction; the WAL commit record carries it.
    PutCommittedTxn { counter: u64 },
    /// Persist the commit timestamp; the WAL commit record carries it.
    CommitTxnRecord { txn_id: TxnId, commit_ts: u64 },
    /// Invalidate the snapshot cache.
    SnapshotInvalidate,
}

/// An operation as its applier gets it.
pub enum Effect {
    MvccCommit { txn_id: TxnId, inserted_at: u64 },
    PutCommittedTxn { counter: u64 },
    CommitTxnRecord { txn_id: TxnId, commit_ts: u64 },
    SnapshotInvalidate,
}

pub open spec fn effect_of(txn_id: TxnId, op: PendingOp) -> Effect {
    match op {
        PendingOp::MvccCommit { inserted_at } => Effect::MvccCommit { txn_id, inserted_at },
        PendingOp::PutCommittedTxn { counter } => Effect::PutCommittedTxn { counter },
        PendingOp::CommitTxnRecord { txn_id, commit_ts } => Effect::CommitTxnRecord {
            txn_id,
            commit_ts,
        },
        PendingOp::SnapshotInvalidate => Effect::SnapshotInvalidate,
    }
}

/// Who applies the operations of a commit.
pub trait CommitApplier: Sized {
    /// The applier is in a state in which it can apply operations: by default,
    /// always.
    open spec fn ready(&self) -> bool {
        true
    }

    /// `after` and `r` are what applying an operation may come to: by default,
    /// anything.
    open spec fn applied(before: Self, op: Effect, r: Result<()>, after: Self) -> bool {
        true
    }

    fn apply_mvcc_commit(&mut self, txn_id: TxnId, inserted_at: u64) -> (r: Result<()>)
        requires
            old(self).ready(),
        ensures
            final(self).ready(),
            Self::applied(*old(self), Effect::MvccCommit { txn_id, inserted_at }, r, *final(self)),
    ;

    fn apply_put_committed_txn(&mut self, counter: u64) -> (r: Result<()>)
        requires
            old(self).ready(),
        ensures
            final(self).ready(),
            Self::applied(*old(self), Effect::PutCommittedTxn { counter }, r, *final(self)),
    ;

    fn apply_commit_txn_record(&mut self, txn_id: u64, commit_ts: u64) -> (r: Result<()>)
        requires
            old(self).ready(),
        ensures
            final(self).ready(),
            Self::applied(
                *old(self),
                Effect::CommitTxnRecord { txn_id, commit_ts },
                r,
                *final(self),
            ),
    ;

    fn apply_snapshot_invalidate(&mut self) -> (r: Result<()>)
        requires
            old(self).ready(),
        ensures
            final(self).ready(),
            Self::applied(*old(self), Effect::SnapshotInvalidate, r, *final(self)),
    ;
}

/// All operations pending for a commit.
#[derive(Debug)]
pub struct CommitProtocol {
    pub txn_id: TxnId,
    pub pending_ops: Vec<PendingOp>,
}

impl Clone for CommitProtocol {
    fn clone(&self) -> (r: Self)
        ensures
            r.txn_id == self.txn_id,
            r.pending_ops@ == self.pending_ops@,
    {
        let mut pending_ops: Vec<PendingOp> = Vec::new();
        let mut i: usize = 0;
        while i < self.pending_ops.len()
            invariant
                i <= self.pending_ops@.len(),
                pending_ops@ == self.pending_ops@.take(i as int),
            decreases self.pending_ops@.len() - i,
        {
            pending_ops.push(self.pending_ops[i]);
            i = i + 1;
        }
        assert(pending_ops@ =~= self.pending_ops@);
        CommitProtocol { txn_id: self.txn_id, pending_ops }
    }
}

/// `states` are the states of an applier while it applies `ops` in order: the
/// first operation that fails is the last one applied.
pub open spec fn runs<A: CommitApplier>(
    txn_id: TxnId,
    ops: Seq<PendingOp>,
    states: Seq<A>,
    r: Result<()>,
) -> bool {
    let n = states.len() - 1;
    &&& 0 <= n <= ops.len()
    &&& forall|i: int|
        0 <= i < n && !(r is Err && i == n - 1) ==> A::applied(
            #[trigger] states[i],
            effect_of(txn_id, ops[i]),
            Ok::<(), Z1Error>(()),
            states[i + 1],
        )
    &&& r is Ok ==> n == ops.len()
    &&& r is Err ==> n > 0 && A::applied(
        states[n - 1],
        effect_of(txn_id, ops[n - 1]),
        r,
        states[n],
    )
}

impl CommitProtocol {
    pub fn new(txn_id: TxnId) -> (r: Self)
        ensures
            r.txn_id == txn_id,
            r.pending_ops@.len() == 0,
    {
        CommitProtocol { txn_id, pending_ops: Vec::new() }
    }

    /// A commit has something to do.
    pub fn validate(&self) -> (r: Result<()>)
        ensures
            match r {
                Ok(_) => self.pending_ops@.len() > 0,
                Err(e) => self.pending_ops@.len() == 0 && (e matches Z1Error::Internal(m) && m@
                    == "CommitProtocol: pending_ops is empty, commit_txn has no work to do"@),
            },
    {
        if self.pending_ops.len() == 0 {
            return Err(
                Z1Error::Internal(
                    copy_str(
                        "CommitProtocol: pending_ops is empty, commit_txn has no work to do",
                    ),
                ),
            );
        }
        Ok(())
    }

    /// Apply the operations in order, until one fails. The WAL commit record
    /// has to be durable before.
    pub fn apply_all<A: CommitApplier>(&self, applier: &mut A) -> (r: Result<()>)
        requires
            old(applier).ready(),
        ensures
            final(applier).ready(),
            self.pending_ops@.len() == 0 ==> *final(applier) == *old(applier) && (r matches Err(
                Z1Error::Internal(m),
            ) && m@ == "CommitProtocol: pending_ops is empty, commit_txn has no work to do"@),
            self.pending_ops@.len() > 0 ==> exists|states: Seq<A>| #[trigger]
                runs(self.txn_id, self.pending_ops@, states, r) && states[0] == *old(applier)
                    && states.last() == *final(applier),
    {
        match self.validate() {
            Ok(_) => {},
            Err(e) => {
                return Err(e);
            },
        }
        let ghost mut states: Seq<A> = seq![*applier];
        let mut i: usize = 0;
        while i < self.pending_ops.len()
            invariant
                i <= self.pending_ops@.len(),
                applier.ready(),
                states.len() == i + 1,
                states[0] == *old(applier),
                states.last() == *applier,
                forall|j: int|
                    0 <= j < i ==> A::applied(
                        #[trigger] states[j],
                        effect_of(self.txn_id, self.pending_ops@[j]),
                        Ok::<(), Z1Error>(()),
                        states[j + 1],
                    ),
            decreases self.pending_ops@.len() - i,
        {
            let ghost before = states;
            let r = match self.pending_ops[i] {
                PendingOp::MvccCommit { inserted_at } => applier.apply_mvcc_commit(
                    self.txn_id,
                    inserted_at,
                ),
                PendingOp::PutCommittedTxn { counter } => applier.apply_put_committed_txn(counter),
                PendingOp::CommitTxnRecord {
                    txn_id,
                    commit_ts,
                } => applier.apply_commit_txn_record(txn_id, commit_ts),
                PendingOp::SnapshotInvalidate => applier.apply_snapshot_invalidate(),
            };
            proof {
                states = states.push(*applier);
                assert(states[i as int] == before[i as int]);
                assert forall|j: int| 0 <= j < i implies A::applied(
                    #[trigger] states[j],
                    effect_of(self.txn_id, self.pending_ops@[j]),
                    Ok::<(), Z1Error>(()),
                    states[j + 1],
                ) by {
                    assert(states[j] == before[j] && states[j + 1] == before[j + 1]);
                }
            }
            match r {
                Ok(u) => {
                    assert(r == Ok::<(), Z1Error>(()));
                },
                Err(e) => {
                    let out: Result<()> = Err(e);
                    assert(runs(self.txn_id, self.pending_ops@, states, out));
                    return out;
                },
            }
            i = i + 1;
        }
        let out: Result<()> = Ok(());
        assert(runs(self.txn_id, self.pending_ops@, states, out));
        out
    }
}

/// What the operations of a commit do: each its own thing, for the transaction
/// of the commit, with the times that it carries.
pub proof fn law_effects(
    txn_id: TxnId,
    inserted_at: u64,
    counter: u64,
    record_txn: TxnId,
    commit_ts: u64,
)
    ensures
        effect_of(txn_id, PendingOp::MvccCommit { inserted_at }) == (Effect::MvccCommit {
            txn_id,
            inserted_at,
        }),
        effect_of(txn_id, PendingOp::PutCommittedTxn { counter }) == (Effect::PutCommittedTxn {
            counter,
        }),
        effect_of(txn_id, PendingOp::CommitTxnRecord { txn_id: record_txn, commit_ts }) == (
        Effect::CommitTxnRecord { txn_id: record_txn, commit_ts }),
        effect_of(txn_id, PendingOp::SnapshotInvalidate) == Effect::SnapshotInvalidate,
{
}

/// The operations of a commit are applied one after the other: all of them
/// where the commit succeeds, and none after the first that fails.
pub proof fn law_operations_are_applied_in_order<A: CommitApplier>(
    txn_id: TxnId,
    ops: Seq<PendingOp>,
    states: Seq<A>,
    r: Result<()>,
    i: int,
)
    requires
        runs(txn_id, ops, states, r),
    ensures
        r is Ok ==> states.len() == ops.len() + 1,
        r is Err ==> 1 < states.len() <= ops.len() + 1,
        0 <= i < states.len() - 1 && (r is Ok || i < states.len() - 2) ==> A::applied(
            states[i],
            effect_of(txn_id, ops[i]),
            Ok::<(), Z1Error>(()),
            states[i + 1],
        ),
        r is Err ==> A::applied(
            states[states.len() - 2],
            effect_of(txn_id, ops[states.len() - 2]),
            r,
            states[states.len() - 1],
        ),
{
}

} // verus!
