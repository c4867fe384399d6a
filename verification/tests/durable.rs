//! Durable writes: the order of their steps, and which failures are tried
//! again.

use z1kv::durable_writer::{
    rename_error, temp_name, WriteJob, WriteStage, WriteStep, WRITE_ATTEMPTS,
};
use z1kv::error::{IoError, IoErrorKind};
use z1kv::Z1Error;

fn io(kind: IoErrorKind) -> Z1Error {
    Z1Error::Io(IoError { kind, message: "m".to_string() })
}

#[test]
fn a_write_goes_through_its_four_steps() {
    let mut job = WriteJob::new();
    let mut seen = Vec::new();
    loop {
        seen.push(job.stage);
        match job.step(Ok(())) {
            WriteStep::Go => {}
            WriteStep::Done => break,
            other => panic!("got {:?}", other),
        }
    }
    assert_eq!(
        seen,
        vec![WriteStage::WriteTemp, WriteStage::SyncData, WriteStage::Rename, WriteStage::SyncDir]
    );
    assert_eq!(job.stage, WriteStage::Durable);
    assert_eq!(job.attempt, 0);
}

#[test]
fn interference_starts_a_write_over() {
    let mut job = WriteJob::new();
    assert!(matches!(job.step(Ok(())), WriteStep::Go));
    let step = job.step(Err(io(IoErrorKind::NotFound)));
    assert!(matches!(step, WriteStep::Again { pause_ms: 10 }), "got {:?}", step);
    assert_eq!(job, WriteJob { attempt: 1, stage: WriteStage::WriteTemp });
    let step = job.step(Err(io(IoErrorKind::PermissionDenied)));
    assert!(matches!(step, WriteStep::Again { pause_ms: 20 }), "got {:?}", step);
    let step = job.step(Err(io(IoErrorKind::NotFound)));
    assert!(matches!(&step, WriteStep::Failed(Z1Error::Io(e)) if matches!(e.kind, IoErrorKind::NotFound)));
    assert_eq!(job, WriteJob { attempt: WRITE_ATTEMPTS - 1, stage: WriteStage::Failed });
}

#[test]
fn other_failures_end_a_write() {
    for e in [
        io(IoErrorKind::AlreadyExists),
        io(IoErrorKind::Named("StorageFull".to_string())),
        Z1Error::Internal("final_path missing parent".to_string()),
    ] {
        let mut job = WriteJob::new();
        let text = e.to_text();
        match job.step(Err(e)) {
            WriteStep::Failed(e) => assert_eq!(e.to_text(), text),
            other => panic!("got {:?}", other),
        }
        assert_eq!(job.stage, WriteStage::Failed);
    }
}

#[test]
fn names_of_temporary_files() {
    assert_eq!(temp_name(Some("_LATEST"), "u-1"), "._LATEST.u-1.tmp");
    assert_eq!(temp_name(None, "u-1"), ".export.u-1.tmp");
}

#[test]
fn a_failed_rename_keeps_its_kind() {
    let e = rename_error(IoError {
        kind: IoErrorKind::PermissionDenied,
        message: "denied".to_string(),
    });
    assert_eq!(e.to_text(), "IO error: IO error: denied");
    let mut job = WriteJob { attempt: 0, stage: WriteStage::Rename };
    assert!(matches!(job.step(Err(e)), WriteStep::Again { .. }));
}
