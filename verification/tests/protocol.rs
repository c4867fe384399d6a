//! The commit protocol.

use z1kv::error::{Result, Z1Error};
use z1kv::txn::protocol::{CommitApplier, CommitProtocol, PendingOp};
use z1kv::TxnId;

struct MockApplier {
    log: Vec<String>,
    fail_at: Option<usize>,
}

impl MockApplier {
    fn note(&mut self, what: String) -> Result<()> {
        self.log.push(what);
        if self.fail_at == Some(self.log.len()) {
            return Err(Z1Error::Internal("stop".to_string()));
        }
        Ok(())
    }
}

impl CommitApplier for MockApplier {
    fn apply_mvcc_commit(&mut self, _txn: TxnId, _ts: u64) -> Result<()> {
        self.note("mvcc".to_string())
    }

    fn apply_put_committed_txn(&mut self, c: u64) -> Result<()> {
        self.note(format!("pct:{}", c))
    }

    fn apply_commit_txn_record(&mut self, t: u64, c: u64) -> Result<()> {
        self.note(format!("ctr:{}:{}", t, c))
    }

    fn apply_snapshot_invalidate(&mut self) -> Result<()> {
        self.note("snap".to_string())
    }
}

fn full_protocol() -> CommitProtocol {
    let mut p = CommitProtocol::new(42);
    p.pending_ops.push(PendingOp::MvccCommit { inserted_at: 1 });
    p.pending_ops.push(PendingOp::PutCommittedTxn { counter: 42 });
    p.pending_ops.push(PendingOp::CommitTxnRecord { txn_id: 42, commit_ts: 42 });
    p.pending_ops.push(PendingOp::SnapshotInvalidate);
    p
}

#[test]
fn apply_all_runs_in_order() {
    let mut applier = MockApplier { log: Vec::new(), fail_at: None };
    full_protocol().apply_all(&mut applier).unwrap();
    assert_eq!(applier.log, vec!["mvcc", "pct:42", "ctr:42:42", "snap"]);
}

#[test]
fn empty_protocol_rejected() {
    let mut applier = MockApplier { log: Vec::new(), fail_at: None };
    let p = CommitProtocol::new(1);
    assert!(p.apply_all(&mut applier).is_err());
    assert!(applier.log.is_empty());
}

#[test]
fn first_failure_ends_the_protocol() {
    let mut applier = MockApplier { log: Vec::new(), fail_at: Some(2) };
    let err = full_protocol().apply_all(&mut applier).unwrap_err();
    assert!(matches!(&err, Z1Error::Internal(m) if m == "stop"));
    assert_eq!(applier.log, vec!["mvcc", "pct:42"]);
}
