//! The WAL: records, segments, replay, recovery and checkpoints.

use std::collections::{BTreeMap, HashSet};

use z1kv::error::{IoError, IoErrorKind, Z1Error};
use z1kv::metrics::DegradeCounts;
use z1kv::store::config::SyncLevel;
use z1kv::store::mem::{LogMode, MemStore};
use z1kv::store::{Z1Entry, Z1Key};
use z1kv::wal::checkpoint::{CheckpointStage, CheckpointTask};
use z1kv::wal::names::{latest_segment, segment_name, segment_numbers};
use z1kv::wal::record::{read_one_record, MAX_WAL_RECORD_LEN};
use z1kv::wal::recovery::{
    classify_apply_error, CorruptionLocation, RecoverableReason, RecoveryResult, ReplayError,
    ReplayErrorKind,
};
use z1kv::wal::replay::sound_len;
use z1kv::wal::writer::{WalAction, WalPlan};
use z1kv::wal::{
    is_non_fatal_sync_error, replay_all, replay_committed_ops, CheckpointManager, CheckpointState,
    GroupCommitConfig, SyncPolicy, WalConfig, WalEntry, WalRecord, WalWriter,
};
use z1kv::{Result, TxnId};

/// A writer and the segments that its plans have written.
struct Log {
    wal: WalWriter,
    segments: BTreeMap<u64, Vec<u8>>,
    syncs: usize,
}

impl Log {
    fn open(config: WalConfig) -> Self {
        Self::open_on(config, false)
    }

    fn open_on(config: WalConfig, windows: bool) -> Self {
        let mut segments: BTreeMap<u64, Vec<u8>> = BTreeMap::new();
        segments.insert(0, Vec::new());
        Log { wal: WalWriter::open(config, None, windows), segments, syncs: 0 }
    }

    fn perform(&mut self, plan: WalPlan) -> Result<()> {
        for a in &plan.actions {
            match a {
                WalAction::Open { seq } => {
                    self.segments.insert(*seq, Vec::new());
                }
                WalAction::Write { bytes } => {
                    let seq = self.wal.cursor.seq;
                    self.segments.get_mut(&seq).unwrap().extend_from_slice(bytes);
                }
                WalAction::Sync { .. } => self.syncs += 1,
                WalAction::Seal => {}
            }
            self.wal.applied(a);
        }
        match plan.error {
            Some(e) => Err(e),
            None => Ok(()),
        }
    }

    fn append_durable(&mut self, txn: TxnId, record: WalRecord) -> Result<()> {
        let plan = self.wal.append_durable(txn, record);
        self.perform(plan)
    }

    fn bytes(&self) -> Vec<Vec<u8>> {
        self.segments.values().cloned().collect()
    }

    fn replay(&self) -> Result<Vec<WalEntry>> {
        replay_all(&self.bytes())
    }

    fn names(&self) -> Vec<String> {
        self.segments.keys().map(|seq| segment_name(*seq)).collect()
    }
}

fn sync_config() -> WalConfig {
    let mut c = WalConfig::default();
    c.group_commit = Some(GroupCommitConfig {
        policy: SyncPolicy::SyncEach,
        ..GroupCommitConfig::default()
    });
    c
}

fn put(key: &[u8], value: &[u8]) -> WalRecord {
    WalRecord::Put { cf: 0, key: key.to_vec(), value: Some(value.to_vec()) }
}

fn written(entries: Vec<WalEntry>) -> Vec<Vec<u8>> {
    let mut log = Log::open(sync_config());
    for e in entries {
        log.append_durable(e.txn_id, e.record).unwrap();
    }
    log.bytes()
}

fn e(txn_id: TxnId, record: WalRecord) -> WalEntry {
    WalEntry { txn_id, record }
}

fn commit(t: u64) -> WalRecord {
    WalRecord::Commit { commit_ts: t, inserted_at: t }
}

#[test]
fn encode_decode_roundtrip_via_replay() {
    let mut log = Log::open(sync_config());
    log.append_durable(1, put(b"k", b"v")).unwrap();
    log.append_durable(1, WalRecord::Commit { commit_ts: 1, inserted_at: 1 }).unwrap();

    let records = log.replay().unwrap();
    assert_eq!(records.len(), 2);
    assert!(matches!(&records[0].record, WalRecord::Put { value: Some(v), .. } if v == b"v"));
    assert!(matches!(&records[1].record, WalRecord::Commit { commit_ts: 1, inserted_at: 1 }));
    assert_eq!(log.syncs, 2);
}

#[test]
fn corrupt_record_detected_by_crc() {
    let mut log = Log::open(sync_config());
    log.append_durable(1, put(b"k", b"v")).unwrap();
    let mut bytes = log.bytes();
    let last = bytes[0].len() - 1;
    bytes[0][last] ^= 0xFF;
    assert!(replay_all(&bytes).is_err());
}

#[test]
fn oversized_record_len_rejected_without_alloc() {
    let mut log = Log::open(sync_config());
    log.append_durable(1, WalRecord::Begin).unwrap();
    let mut bytes = log.bytes();
    bytes[0][0..4].copy_from_slice(&u32::MAX.to_le_bytes());
    let err = replay_all(&bytes).unwrap_err();
    assert!(err.to_text().contains("exceeds limit"), "got: {}", err.to_text());
}

#[test]
fn oversized_record_rejected_at_write_boundary() {
    let mut log = Log::open(sync_config());
    let big_value = vec![0u8; (MAX_WAL_RECORD_LEN as usize) + 1];
    let err = log.append_durable(1, put(b"k", &big_value)).unwrap_err();
    assert!(err.to_text().contains("WAL record too large"), "got: {}", err.to_text());

    log.append_durable(1, WalRecord::Begin).unwrap();
    let records = log.replay().unwrap();
    assert_eq!(records.len(), 1);
}

#[test]
fn group_commit_queues_until_flush() {
    let mut config = WalConfig::default();
    config.group_commit = Some(GroupCommitConfig {
        max_batch_size: 100,
        max_wait_ms: 50,
        policy: SyncPolicy::GroupCommitStrict,
    });
    let mut log = Log::open(config);
    log.append_durable(1, WalRecord::Begin).unwrap();
    log.append_durable(1, put(b"k", b"v")).unwrap();
    log.append_durable(1, WalRecord::Commit { commit_ts: 1, inserted_at: 1 }).unwrap();

    assert_eq!(log.replay().unwrap().len(), 0);

    let (n, plan) = log.wal.flush_pending();
    assert_eq!(n, 3);
    log.perform(plan).unwrap();
    assert_eq!(log.replay().unwrap().len(), 3);
    assert_eq!(log.syncs, 1);
}

/// A full batch is written and synced as a whole.
#[test]
fn group_commit_flushes_a_full_batch() {
    let mut config = WalConfig::default();
    config.group_commit = Some(GroupCommitConfig {
        max_batch_size: 2,
        max_wait_ms: 50,
        policy: SyncPolicy::GroupCommitStrict,
    });
    let mut log = Log::open(config);
    log.append_durable(1, WalRecord::Begin).unwrap();
    let refused = log.wal.truncate_before(log.wal.position(), &log.names()).unwrap_err();
    assert_eq!(
        refused.to_text(),
        "WAL error: truncate_before: 1 unflushed record(s) in group-commit queue; \
         flush_and_sync must run before truncation"
    );
    log.append_durable(1, WalRecord::Rollback).unwrap();
    assert_eq!(log.replay().unwrap().len(), 2);
    assert_eq!(log.syncs, 1);
    assert!(log.wal.truncate_before(log.wal.position(), &log.names()).is_ok());
}

#[test]
fn segment_rotation_exact_boundary() {
    let probe_len = WalWriter::encode_record(&e(1, WalRecord::Begin)).unwrap().len();
    let mut config = sync_config();
    config.max_file_size = probe_len as u64;
    let mut log = Log::open(config);
    log.append_durable(1, WalRecord::Begin).unwrap();
    let pos1 = log.wal.position();
    log.append_durable(1, WalRecord::Rollback).unwrap();
    let pos2 = log.wal.position();
    assert!(pos2.seq > pos1.seq, "the second record must go to the next segment");
    assert_eq!(log.replay().unwrap().len(), 2);
}

fn small_segments() -> Log {
    let mut config = sync_config();
    config.max_file_size = 64;
    let mut log = Log::open(config);
    for i in 0..10u64 {
        log.append_durable(1, put(&i.to_le_bytes(), b"v")).unwrap();
    }
    log
}

#[test]
fn segment_rotation_on_max_file_size() {
    let log = small_segments();
    assert!(log.segments.len() > 1, "expected segment rotation");
    assert_eq!(log.replay().unwrap().len(), 10);
}

#[test]
fn truncate_before_removes_old_segments() {
    let mut log = small_segments();
    let pos = log.wal.position();
    assert!(pos.seq > 0, "rotation should have advanced the segment");
    let names = log.names();
    let removed = log.wal.truncate_before(pos, &names).unwrap();
    assert!(removed.len() > 0, "at least one old segment should go");
    assert_eq!(removed.len(), pos.seq as usize);
    for at in removed {
        assert_ne!(names[at], segment_name(pos.seq));
    }
    log.segments.retain(|seq, _| *seq >= pos.seq);
    assert!(log.replay().is_ok());
}

/// Replay a log, and call `apply` on every write.
fn replay_with(
    segs: &Vec<Vec<u8>>,
    strict: bool,
    counts: &mut DegradeCounts,
    apply: impl FnMut(&WalEntry) -> Result<()>,
) -> (std::result::Result<RecoveryResult, ReplayError>, Vec<(TxnId, String)>) {
    let (result, lost, _) =
        replay_committed_ops(segs, strict, counts, apply, |mut f, op: &WalEntry| {
            let r = f(op);
            (f, r)
        });
    (result, lost)
}

#[test]
fn replay_committed_txn() {
    let segs = written(vec![e(1, WalRecord::Begin), e(1, put(b"k", b"v")), e(1, commit(1))]);
    let mut puts: Vec<TxnId> = Vec::new();
    let mut counts = DegradeCounts::new();
    let (result, lost) = replay_with(&segs, false, &mut counts, |op: &WalEntry| {
        if let WalRecord::Put { .. } = &op.record {
            puts.push(op.txn_id);
        }
        Ok(())
    });
    let result = result.unwrap();
    assert_eq!(result.committed_count, 1);
    assert_eq!(result.last_committed_txn, 1);
    assert_eq!(result.max_seen_committed_txn, 1);
    assert_eq!(result.commit_ts_map.get(&1), Some(&1));
    assert_eq!(puts, vec![1]);
    assert!(lost.is_empty());
}

#[test]
fn uncommitted_txn_is_discarded() {
    let segs = written(vec![e(5, WalRecord::Begin), e(5, put(b"k", b"v"))]);
    let mut counts = DegradeCounts::new();
    let (result, _) = replay_with(&segs, false, &mut counts, |_op: &WalEntry| Ok(()));
    let result = result.unwrap();
    assert_eq!(result.last_committed_txn, 0);
    assert_eq!(result.committed_count, 0);
    assert_eq!(result.discarded_count, 1);
}

#[test]
fn rollback_removes_pending() {
    let segs =
        written(vec![e(3, WalRecord::Begin), e(3, put(b"k", b"v")), e(3, WalRecord::Rollback)]);
    let mut counts = DegradeCounts::new();
    let (result, _) = replay_with(&segs, false, &mut counts, |_op: &WalEntry| Ok(()));
    let result = result.unwrap();
    assert_eq!(result.committed_count, 0);
    assert_eq!(result.discarded_count, 0);
}

fn two_committed() -> Vec<Vec<u8>> {
    written(vec![
        e(7, WalRecord::Begin),
        e(7, put(b"k", b"v")),
        e(7, commit(7)),
        e(8, WalRecord::Begin),
        e(8, put(b"k2", b"v2")),
        e(8, commit(8)),
    ])
}

fn fails_on_seven(op: &WalEntry) -> Result<()> {
    if op.txn_id == 7 {
        Err(Z1Error::Deserialize("synthetic corruption".to_string()))
    } else {
        Ok(())
    }
}

#[test]
fn corruption_records_failure_and_continues() {
    let mut counts = DegradeCounts::new();
    let (result, lost) = replay_with(&two_committed(), false, &mut counts, fails_on_seven);
    let result = result.unwrap();
    assert_eq!(result.last_committed_txn, 8);
    assert_eq!(result.max_seen_committed_txn, 8);
    assert_eq!(result.committed_count, 1);
    assert!(result.commit_ts_map.contains_key(&8));
    assert!(!result.commit_ts_map.contains_key(&7));

    assert_eq!(lost.len(), 1);
    assert_eq!(lost[0].0, 7);
    assert!(lost[0].1.contains("synthetic corruption"));
    assert_eq!(counts.snapshot(), vec![("wal_record_corrupt", 1)]);
}

#[test]
fn strict_mode_aborts_on_corruption() {
    let mut counts = DegradeCounts::new();
    let (result, _) = replay_with(&two_committed(), true, &mut counts, fails_on_seven);
    assert!(result.is_err(), "strict mode must abort on corruption");
    let err = result.unwrap_err();
    assert!(matches!(err.kind, ReplayErrorKind::Corruption { .. }), "got {:?}", err.kind);
    assert_eq!(err.txn_id, 7);
}

#[test]
fn strict_mode_normal_recovery_unchanged() {
    let segs = written(vec![e(1, WalRecord::Begin), e(1, put(b"k", b"v")), e(1, commit(1))]);
    let mut counts = DegradeCounts::new();
    let (result, _) = replay_with(&segs, true, &mut counts, |_op: &WalEntry| Ok(()));
    let result = result.unwrap();
    assert_eq!(result.committed_count, 1);
    assert_eq!(result.replay_watermark, 1, "the watermark comes from the insertion times");
}

/// The writes of committed transactions reach the applier once each, by
/// ascending transaction and in the order of the log; the state goes from one
/// to the next.
#[test]
fn writes_are_applied_once_and_in_order() {
    let segs = written(vec![
        e(2, put(b"b1", b"v")),
        e(3, put(b"x", b"v")),
        e(1, put(b"a1", b"v")),
        e(2, put(b"b2", b"v")),
        e(2, commit(2)),
        e(4, put(b"d", b"v")),
        e(4, WalRecord::Rollback),
        e(1, commit(1)),
    ]);
    let mut counts = DegradeCounts::new();
    let (result, lost, seen) = replay_committed_ops(
        &segs,
        true,
        &mut counts,
        Vec::new(),
        |mut seen: Vec<(TxnId, Vec<u8>)>, op: &WalEntry| {
            if let WalRecord::Put { key, .. } = &op.record {
                seen.push((op.txn_id, key.clone()));
            }
            (seen, Ok(()))
        },
    );
    assert_eq!(result.unwrap().committed_count, 2);
    assert!(lost.is_empty());
    assert_eq!(seen, vec![(1, b"a1".to_vec()), (2, b"b1".to_vec()), (2, b"b2".to_vec())]);
}

/// After a failure nothing more of the transaction is applied, and after one
/// that ends the recovery nothing at all.
#[test]
fn nothing_is_applied_after_a_failure() {
    let segs = written(vec![
        e(7, put(b"k1", b"v")),
        e(7, put(b"k2", b"v")),
        e(7, commit(7)),
        e(8, put(b"k3", b"v")),
        e(8, commit(8)),
    ]);
    let mut counts = DegradeCounts::new();
    let mut calls: Vec<TxnId> = Vec::new();
    let (result, _) = replay_with(&segs, false, &mut counts, |op| {
        calls.push(op.txn_id);
        fails_on_seven(op)
    });
    assert_eq!(result.unwrap().committed_count, 1);
    assert_eq!(calls, vec![7, 8]);

    let mut calls: Vec<TxnId> = Vec::new();
    let (result, _) = replay_with(&segs, true, &mut counts, |op| {
        calls.push(op.txn_id);
        fails_on_seven(op)
    });
    assert_eq!(result.unwrap_err().txn_id, 7);
    assert_eq!(calls, vec![7]);
}

/// Errors that can be passed over leave a transaction out; a fatal one ends
/// the recovery in either mode.
#[test]
fn other_failures_follow_their_class() {
    let io = |kind: IoErrorKind| Z1Error::Io(IoError { kind, message: "m".to_string() });
    assert!(matches!(
        classify_apply_error(&io(IoErrorKind::AlreadyExists), 1),
        ReplayErrorKind::Recoverable { reason: RecoverableReason::AlreadyExists, .. }
    ));
    assert!(matches!(
        classify_apply_error(&io(IoErrorKind::PermissionDenied), 1),
        ReplayErrorKind::Recoverable { reason: RecoverableReason::PermissionDenied, .. }
    ));
    assert!(matches!(
        classify_apply_error(&Z1Error::Deserialize("d".to_string()), 1),
        ReplayErrorKind::Corruption { location: CorruptionLocation::Deserialize, .. }
    ));
    assert!(matches!(
        classify_apply_error(&Z1Error::Internal("d".to_string()), 1),
        ReplayErrorKind::Ambiguous { .. }
    ));
    match classify_apply_error(&io(IoErrorKind::NotFound), 1) {
        ReplayErrorKind::Fatal { io_kind, detail } => {
            assert_eq!(io_kind, "NotFound");
            assert_eq!(detail, "IO error: m");
        }
        other => panic!("got {:?}", other),
    }

    let mut counts = DegradeCounts::new();
    let (result, lost) = replay_with(&two_committed(), true, &mut counts, |op| {
        if op.txn_id == 7 {
            Err(Z1Error::Internal("odd".to_string()))
        } else {
            Ok(())
        }
    });
    assert_eq!(result.unwrap().committed_count, 1);
    assert!(lost.is_empty());

    let (result, _) = replay_with(&two_committed(), false, &mut counts, |op| {
        if op.txn_id == 7 {
            Err(Z1Error::Io(IoError { kind: IoErrorKind::NotFound, message: "m".to_string() }))
        } else {
            Ok(())
        }
    });
    let err = result.unwrap_err();
    assert_eq!(err.to_text(), "WAL replay error (fatal (NotFound): IO error: m): 7");
}

/// A record that broke off is dropped at the end of the last segment, and
/// nowhere else.
#[test]
fn only_the_very_tail_may_be_torn() {
    let log = small_segments();
    let all = log.bytes();
    let mut torn_last = all.clone();
    let n = torn_last.len() - 1;
    let cut = torn_last[n].len() - 1;
    torn_last[n].truncate(cut);
    assert_eq!(replay_all(&torn_last).unwrap().len(), 9);
    assert!(sound_len(&torn_last[n]) < cut);
    assert_eq!(sound_len(&all[n]), all[n].len());

    let mut torn_first = all.clone();
    let cut = torn_first[0].len() - 1;
    torn_first[0].truncate(cut);
    assert_eq!(
        replay_all(&torn_first).unwrap_err().to_text(),
        "Deserialization error: WAL truncated payload"
    );
    torn_first[0].truncate(3);
    assert_eq!(
        replay_all(&torn_first).unwrap_err().to_text(),
        "Deserialization error: WAL truncated header"
    );
}

/// A record to the byte: length, CRC-32, payload.
#[test]
fn record_layout() {
    let bytes = WalWriter::encode_record(&e(1, put(b"k", b"v"))).unwrap();
    // transaction, variant, column family, key, value
    let payload = vec![1, 0, 0, 1, b'k', 1, 1, b'v'];
    let mut want = (payload.len() as u32).to_le_bytes().to_vec();
    want.extend_from_slice(&crc32fast::hash(&payload).to_le_bytes());
    want.extend_from_slice(&payload);
    assert_eq!(bytes, want);

    let (entry, next) = read_one_record(&bytes, 0).unwrap().unwrap();
    assert_eq!(next, bytes.len());
    assert_eq!(entry.txn_id, 1);
    assert!(read_one_record(&bytes, next).unwrap().is_none());

    let mut damaged = bytes.clone();
    damaged[4] ^= 1;
    let err = read_one_record(&damaged, 0).unwrap_err().to_text();
    assert!(err.starts_with("Deserialization error: WAL crc mismatch: stored="), "{}", err);

    // a payload that is sound but holds no entry
    let junk = vec![1, 9];
    let mut record = (junk.len() as u32).to_le_bytes().to_vec();
    record.extend_from_slice(&crc32fast::hash(&junk).to_le_bytes());
    record.extend_from_slice(&junk);
    let err = read_one_record(&record, 0).unwrap_err().to_text();
    assert!(err.starts_with("Deserialization error: WAL decode: "), "{}", err);
}

#[test]
fn every_kind_of_record_is_read_back() {
    let segs = written(vec![
        e(1, WalRecord::Begin),
        e(2, WalRecord::Put { cf: u16::MAX, key: vec![], value: None }),
        e(3, WalRecord::Commit { commit_ts: u64::MAX, inserted_at: 0 }),
        e(4, WalRecord::Rollback),
        e(u64::MAX, WalRecord::Checkpoint { checkpoint_id: 7 }),
    ]);
    let got = replay_all(&segs).unwrap();
    assert_eq!(got.len(), 5);
    assert!(matches!(got[0].record, WalRecord::Begin));
    assert!(matches!(&got[1].record, WalRecord::Put { cf: u16::MAX, value: None, key } if key.is_empty()));
    assert!(matches!(got[2].record, WalRecord::Commit { commit_ts: u64::MAX, inserted_at: 0 }));
    assert!(matches!(got[3].record, WalRecord::Rollback));
    assert!(matches!(got[4].record, WalRecord::Checkpoint { checkpoint_id: 7 }));
    assert_eq!(got[4].txn_id, u64::MAX);
}

#[test]
fn segment_names_and_numbers() {
    assert_eq!(segment_name(7), "wal.00000007");
    let names: Vec<String> =
        ["wal.00000010", "other", "wal.00000002", "wal.x", "wal.123456789"]
            .iter()
            .map(|s| s.to_string())
            .collect();
    assert_eq!(segment_numbers(&names), vec![2, 10, 123456789]);
    assert_eq!(latest_segment(&names), Some((123456789, 4)));
    assert_eq!(latest_segment(&vec!["replay_failure".to_string()]), None);
}

#[test]
fn sync_errors_are_forgiven_on_windows_only() {
    for kind in [IoErrorKind::PermissionDenied, IoErrorKind::AddrInUse, IoErrorKind::WouldBlock] {
        assert!(is_non_fatal_sync_error(&kind, true));
        assert!(!is_non_fatal_sync_error(&kind, false));
    }
    assert!(!is_non_fatal_sync_error(&IoErrorKind::NotFound, true));
}

#[test]
fn sizes_of_the_log() {
    let mut config = sync_config();
    let log = Log::open(config);
    assert_eq!(log.wal.size_bytes(&vec![1, 2, 3]), 6);
    assert_eq!(log.wal.size_bytes(&vec![u64::MAX, 2]), u64::MAX);
    config = sync_config();
    config.write_through = true;
    let mut log = Log::open_on(config, true);
    log.append_durable(1, WalRecord::Begin).unwrap();
    assert_eq!(log.wal.size_bytes(&vec![]), log.bytes()[0].len() as u64);
}

/// Write-through is on by default, and takes effect on Windows alone.
#[test]
fn write_through_follows_the_platform() {
    let config = WalConfig::default();
    assert!(config.write_through);
    assert!(Log::open_on(config.clone(), true).wal.config.write_through);
    assert!(!Log::open_on(config, false).wal.config.write_through);
    let mut config = WalConfig::default();
    config.write_through = false;
    assert!(!Log::open_on(config, true).wal.config.write_through);
}

/// A transaction id over 127 takes two bytes; a delete has no value.
#[test]
fn long_numbers_take_several_bytes() {
    let segs = written(vec![e(300, put(b"key", b"v"))]);
    let payload = [0xAC, 0x02, 0, 0, 3, b'k', b'e', b'y', 1, 1, b'v'];
    let mut want = (payload.len() as u32).to_le_bytes().to_vec();
    want.extend_from_slice(&crc32fast::hash(&payload).to_le_bytes());
    want.extend_from_slice(&payload);
    assert_eq!(segs[0], want);

    let segs = written(vec![e(1, WalRecord::Put { cf: 128, key: Vec::new(), value: None })]);
    assert_eq!(segs[0][8..], [1, 0, 0x80, 0x01, 0, 0]);
    let segs = written(vec![e(u64::MAX, WalRecord::Begin)]);
    assert_eq!(segs[0][8..18], [255, 255, 255, 255, 255, 255, 255, 255, 255, 1]);
}

/// A checkpoint's payload to the byte: three numbers, the number of pairs, the
/// pairs.
#[test]
fn checkpoint_payload_layout() {
    let files = CheckpointManager::write(&state(200, vec![(1, 2), (200, 200)])).unwrap();
    let payload = [0xC8, 0x01, 0xC8, 0x01, 123, 2, 1, 2, 0xC8, 0x01, 0xC8, 0x01];
    assert!(files.bytes.ends_with(&payload));
    assert_eq!(files.bytes.len(), 13 + payload.len());
}

fn state(id: TxnId, history: Vec<(TxnId, u64)>) -> CheckpointState {
    CheckpointState { checkpoint_id: id, committed_txn: id, timestamp_ms: 123, committed_history: history }
}

#[test]
fn checkpoint_roundtrip() {
    let files = CheckpointManager::write(&state(42, vec![(1, 1), (2, 2), (42, 42)])).unwrap();
    assert_eq!(files.name, "ckpt_0000000000000042.bin");
    let loaded = CheckpointManager::load_latest(Some(&files.latest), Some(&files.bytes)).unwrap();
    assert_eq!(loaded.committed_txn, 42);
    assert_eq!(loaded.timestamp_ms, 123);
    assert_eq!(loaded.committed_history, vec![(1, 1), (2, 2), (42, 42)]);
}

#[test]
fn corrupt_checkpoint_falls_back() {
    let files = CheckpointManager::write(&state(7, vec![(7, 7)])).unwrap();
    let mut bytes = files.bytes.clone();
    let last = bytes.len() - 1;
    bytes[last] ^= 0xFF;
    assert!(
        CheckpointManager::load_latest(Some(&files.latest), Some(&bytes)).is_none(),
        "a corrupt checkpoint must fall back"
    );
}

#[test]
fn truncated_len_falls_back_without_panic() {
    let files = CheckpointManager::write(&state(9, vec![(9, 9)])).unwrap();
    let mut bytes = files.bytes.clone();
    bytes[9..13].copy_from_slice(&u32::MAX.to_le_bytes());
    assert!(CheckpointManager::load_latest(Some(&files.latest), Some(&bytes)).is_none());
}

#[test]
fn checkpoint_truncates_wal() {
    let mut log = Log::open(sync_config());
    for i in 0..5u64 {
        log.append_durable(i, put(&i.to_le_bytes(), &[1])).unwrap();
    }
    let files = CheckpointManager::write(&state(5, vec![(5, 5)])).unwrap();
    let mut stage = CheckpointStage::WriteState;
    let mut disk: BTreeMap<String, Vec<u8>> = BTreeMap::new();
    loop {
        match CheckpointManager::checkpoint(stage, &files, 5, 5, &mut log.wal) {
            CheckpointTask::WriteState { name, bytes } => {
                disk.insert(name, bytes);
            }
            CheckpointTask::WriteLatest { bytes } => {
                disk.insert(CheckpointManager::latest_name(), bytes);
            }
            CheckpointTask::Wal(actions) => {
                log.perform(WalPlan { actions, error: None }).unwrap();
            }
            CheckpointTask::Truncate(pos) => {
                log.wal.truncate_before(pos, &log.names()).unwrap();
            }
            CheckpointTask::Done => break,
            other => panic!("got {:?}", other),
        }
        stage = stage.step(true);
    }
    let latest = disk.get("_LATEST");
    let id = CheckpointManager::latest_id(latest.unwrap()).unwrap();
    let file = disk.get(&CheckpointManager::checkpoint_name(id));
    let loaded = CheckpointManager::load_latest(latest, file);
    let (committed_txn, history) = CheckpointManager::recovery_baseline(loaded).unwrap();
    assert_eq!(committed_txn, 5);
    assert_eq!(history, vec![(5, 5)]);
    let marked = log.replay().unwrap();
    assert!(matches!(marked[5].record, WalRecord::Checkpoint { checkpoint_id: 5 }));
}

/// Under group commit the marker of a checkpoint is still made durable.
#[test]
fn checkpoint_marker_is_flushed_under_group_commit() {
    let mut log = Log::open(WalConfig::default());
    log.append_durable(1, WalRecord::Begin).unwrap();
    assert_eq!(log.replay().unwrap().len(), 0);
    let files = CheckpointManager::write(&state(1, vec![])).unwrap();
    match CheckpointManager::checkpoint(CheckpointStage::MarkWal, &files, 1, 1, &mut log.wal) {
        CheckpointTask::Wal(actions) => {
            log.perform(WalPlan { actions, error: None }).unwrap();
        }
        other => panic!("got {:?}", other),
    }
    assert_eq!(log.replay().unwrap().len(), 2);
    assert!(log.syncs > 0);
}

#[test]
fn failed_stage_ends_a_checkpoint() {
    let mut stage = CheckpointStage::FlushData;
    stage = stage.step(true);
    assert_eq!(stage, CheckpointStage::SyncWal);
    stage = stage.step(false);
    assert_eq!(stage, CheckpointStage::Failed);
    assert_eq!(stage.step(true), CheckpointStage::Failed);
}

#[test]
fn missing_checkpoint_gives_no_baseline() {
    assert!(CheckpointManager::load_latest(None, None).is_none());
    assert!(CheckpointManager::load_latest(Some(&vec![1, 2, 3]), Some(&vec![])).is_none());
    assert_eq!(CheckpointManager::recovery_baseline(None), None);
}

fn version(key: &[u8], txn_id: TxnId) -> Z1Entry {
    Z1Entry::put(Z1Key::new(0, key.to_vec()), txn_id, b"v".to_vec(), 0)
}

/// A store that logs its writes; the caller says how long the last sync was
/// ago.
fn logged_put(store: &mut MemStore, log: &mut Log, entry: Z1Entry, ms_since_sync: u64) {
    if let Some((record, mode)) = store.log_request(&entry) {
        let plan = match mode {
            LogMode::Durable => log.wal.append_durable(entry.txn_id, record),
            _ => log.wal.append(entry.txn_id, record),
        };
        log.perform(plan).unwrap();
        if mode == LogMode::Lazy && store.sync_due(ms_since_sync) {
            let plan = log.wal.flush_and_sync();
            log.perform(plan).unwrap();
            store.synced();
        }
    }
    store.put(entry).unwrap();
}

fn group_log() -> Log {
    let mut config = WalConfig::default();
    config.group_commit = Some(GroupCommitConfig {
        policy: SyncPolicy::GroupCommitStrict,
        max_batch_size: 100,
        ..GroupCommitConfig::default()
    });
    Log::open(config)
}

#[test]
fn batch_mode_flushes_when_queue_full() {
    let mut log = group_log();
    let mut store = MemStore::new(1024, SyncLevel::Batch { ms: 10_000, max_pending: 3 });
    store.set_wal();
    for i in 0..3u64 {
        logged_put(&mut store, &mut log, version(format!("k{i}").as_bytes(), i + 1), 0);
        assert_eq!(log.syncs, if i == 2 { 1 } else { 0 });
    }
    assert_eq!(log.replay().unwrap().len(), 3);
}

#[test]
fn batch_mode_flushes_on_timeout() {
    let mut log = group_log();
    let mut store = MemStore::new(1024, SyncLevel::Batch { ms: 30, max_pending: 1000 });
    store.set_wal();
    logged_put(&mut store, &mut log, version(b"k1", 1), 0);
    assert_eq!(log.syncs, 0, "no sync before the threshold");
    logged_put(&mut store, &mut log, version(b"k2", 2), 50);
    assert_eq!(log.syncs, 1, "the timeout must sync");
    assert_eq!(log.replay().unwrap().len(), 2);
}

#[test]
fn replay_put_bypasses_wal() {
    let mut log = Log::open(sync_config());
    let mut store = MemStore::new(1024, SyncLevel::Immediate);
    store.set_wal();
    logged_put(&mut store, &mut log, version(b"k", 1), 0);
    store.replay_put(version(b"replayed", 2));

    let commits = [(2, 2)].into_iter().collect();
    assert!(store.get_visible(0, b"replayed", 2, &commits, &HashSet::new()).is_some());
    assert_eq!(log.replay().unwrap().len(), 1, "a replayed version must not be logged");
    assert_eq!(log.syncs, 1);
}

/// Arbitrary bytes never panic, and never read as more than they hold.
#[test]
fn fuzz_smoke_parse_surfaces() {
    let mut x: u64 = 0x5EED_1B0D;
    let mut next = || {
        x ^= x << 13;
        x ^= x >> 7;
        x ^= x << 17;
        x
    };
    for _ in 0..500 {
        let len = (next() % 128) as usize;
        let data: Vec<u8> = (0..len).map(|_| next() as u8).collect();
        let _ = replay_all(&vec![data.clone()]);
        let latest = 3735928559u64.to_le_bytes().to_vec();
        let _ = CheckpointManager::load_latest(Some(&latest), Some(&data));

        let snapshot_id = next() % 64;
        let created = next() % 64;
        let deleted = next() % 64;
        let commits = [(created, created), (deleted, deleted)].into_iter().collect();
        let entry = version(b"k", created);
        assert_eq!(
            entry.is_visible_at_commit(snapshot_id, &commits, &HashSet::new()),
            created <= snapshot_id
        );
    }
}

/// Whatever a single byte of a record's checksum or payload is changed to, the
/// record is refused.
#[test]
fn changed_record_byte_is_refused() {
    let segs = written(vec![e(1, put(b"k", b"v"))]);
    let seg = &segs[0];
    assert!(read_one_record(seg, 0).unwrap().is_some());
    for i in 4..seg.len() {
        for flip in 1..=255u8 {
            let mut changed = seg.clone();
            changed[i] ^= flip;
            assert!(read_one_record(&changed, 0).is_err(), "byte {} changed", i);
        }
    }
}

#[test]
fn clones_hold_the_same() {
    let state = state(7, vec![(7, 8)]);
    let copy = state.clone();
    assert_eq!(copy.checkpoint_id, 7);
    assert_eq!(copy.committed_history, vec![(7, 8)]);
    let kind = ReplayErrorKind::Fatal { io_kind: "NotFound".to_string(), detail: "d".to_string() };
    assert_eq!(kind.clone().to_text(), kind.to_text());
    let none = RecoveryResult::default();
    assert_eq!((none.last_committed_txn, none.committed_count), (0, 0));
    assert!(none.commit_ts_map.is_empty() && none.committed_puts.is_empty());
}
