//! Visibility, history and the snapshot cache; errors, metrics and
//! configuration.

use std::collections::{BTreeSet, HashMap};
use std::ops::ControlFlow;

use z1kv::codec::current_timestamp_millis;
use z1kv::codec::timestamp::MonotonicClock;
use z1kv::config::{VisibilityConfig, Z1Config};
use z1kv::error::{IoError, IoErrorKind, Severity, Z1Error};
use z1kv::metrics::{handle_degrade, DegradeCounts};
use z1kv::mvcc::cache::SnapshotCache;
use z1kv::mvcc::visibility::{TxnMeta, TxnStatus};
use z1kv::mvcc::{IsolationLevel, TxnSnapshot, VisFilter, VisibilityManager};
use z1kv::TxnId;

fn btreeset(items: &[TxnId]) -> BTreeSet<TxnId> {
    items.iter().copied().collect()
}

fn hashmap(items: &[(TxnId, u64)]) -> HashMap<TxnId, u64> {
    items.iter().copied().collect()
}

#[test]
fn zero_history_entries_blinds_old_versions() {
    let cfg = VisibilityConfig::default().with_max_history_entries(0).with_history_ttl_secs(3600);
    let mut mgr = VisibilityManager::new_with_config(cfg);

    mgr.begin_txn(1).unwrap();
    mgr.commit_txn(1, 0).unwrap();
    assert_eq!(mgr.committed_entry(1), None, "history pruned immediately");

    let snap = mgr.snapshot(IsolationLevel::Snapshot);
    assert!(!mgr.is_visible(&snap, 1, None));
}

#[test]
fn severity_default_is_fatal() {
    let e = Z1Error::Internal("test".to_string());
    assert_eq!(e.severity(), Severity::Fatal);
}

#[test]
fn degrade_severity() {
    let e = Z1Error::degrade("wal_replay_skip", "old format");
    let s = e.severity();
    assert!(s.is_degrade());
    assert_eq!(s.metric(), Some("wal_replay_skip"));
    assert!(!s.is_fatal());
}

#[test]
fn strict_mode_upgrades_degrade() {
    let e = Z1Error::degrade("wal_replay_skip", "x");
    let s = e.severity();
    assert!(s.with_strict_mode(false).is_degrade());
    assert!(s.with_strict_mode(true).is_fatal());
}

#[test]
fn unrecoverable_metrics_listed() {
    for m in ["vis_data_unavailable", "wal_record_corrupt"] {
        let e = Z1Error::degrade(m, "x");
        if let Severity::Degrade { recoverable, .. } = e.severity() {
            assert!(!recoverable, "{} should be unrecoverable", m);
        } else {
            panic!("expected Degrade");
        }
    }
}

#[test]
fn increment_works() {
    let mut counts = DegradeCounts::new();
    counts.increment("test_metric_a");
    counts.increment("test_metric_a");
    counts.increment("test_metric_b");
    let s = counts.snapshot();
    let find =
        |name: &str| s.iter().find(|(m, _)| *m == name).map(|(_, c)| *c).unwrap_or(0);
    assert_eq!(find("test_metric_a"), 2);
    assert_eq!(find("test_metric_b"), 1);
    assert_eq!(s[0].0, "test_metric_a", "larger counts come first");
}

#[test]
fn handle_degrade_strict_breaks() {
    let mut counts = DegradeCounts::new();
    let e = Z1Error::degrade("vis_data_unavailable", "x");
    assert!(matches!(handle_degrade(&mut counts, &e, true), ControlFlow::Break(())));
    assert!(matches!(handle_degrade(&mut counts, &e, false), ControlFlow::Continue(())));
    assert_eq!(counts.snapshot(), vec![("vis_data_unavailable", 1)]);
}

#[test]
fn error_texts() {
    let io = IoError { kind: IoErrorKind::NotFound, message: "gone".to_string() };
    let cases = vec![
        (Z1Error::Io(io), "IO error: gone"),
        (Z1Error::Serialization("a".to_string()), "Serialization error: a"),
        (Z1Error::Deserialize("a".to_string()), "Deserialization error: a"),
        (Z1Error::Internal("a".to_string()), "Internal error: a"),
        (Z1Error::Wal("a".to_string()), "WAL error: a"),
        (Z1Error::MvccConflict("a".to_string()), "MVCC conflict: a"),
        (Z1Error::TxnNotFound(7), "Transaction not found: txn_id=7"),
        (Z1Error::degrade("m", "c"), "Degraded [m]: c"),
    ];
    for (e, text) in cases {
        assert_eq!(e.to_text(), text);
        assert_eq!(e.clone().to_text(), text);
    }
}

#[test]
fn configuration_defaults_and_builders() {
    let c = Z1Config::default();
    assert!(c.strict_mode);
    assert_eq!(c.checkpoint_wal_size_threshold, 64 * 1024 * 1024);
    assert_eq!(c.l2_compaction_threshold, 64);
    assert_eq!(c.visibility.max_history_entries, 100_000);
    assert_eq!(c.visibility.history_ttl_secs, 3600);
    let c = c
        .with_strict_mode(false)
        .with_checkpoint_wal_size_threshold(1)
        .with_l2_compaction_threshold(2)
        .with_visibility(VisibilityConfig::default().with_history_ttl_secs(3));
    assert!(!c.strict_mode);
    assert_eq!(c.checkpoint_wal_size_threshold, 1);
    assert_eq!(c.l2_compaction_threshold, 2);
    assert_eq!(c.visibility.history_ttl_secs, 3);
}

#[test]
fn snapshot_cache_returns_same_snapshot_within_generation() {
    let mut cache = SnapshotCache::new();
    let mvcc = VisibilityManager::new();
    let s1 = cache.snapshot(&mvcc);
    let s2 = cache.snapshot(&mvcc);
    assert_eq!(s1.snapshot_id, s2.snapshot_id);
}

#[test]
fn snapshot_cache_invalidates_on_mutation() {
    let mut cache = SnapshotCache::new();
    let mut mvcc = VisibilityManager::new();
    let s1 = cache.snapshot(&mvcc);
    mvcc.set_committed_txn(42);
    cache.invalidate();
    let s2 = cache.snapshot(&mvcc);
    assert_ne!(s1.snapshot_id, s2.snapshot_id);
    assert_eq!(s2.snapshot_id, 42);
}

#[test]
fn generation_advances_monotonically() {
    let mut cache = SnapshotCache::new();
    assert_eq!(cache.current_generation(), 1);
    cache.invalidate();
    assert_eq!(cache.current_generation(), 2);
    cache.invalidate();
    assert_eq!(cache.current_generation(), 3);
}

/// A snapshot that was built before an invalidation is not published.
#[test]
fn stale_snapshot_is_not_published() {
    let mut cache = SnapshotCache::new();
    let mvcc = VisibilityManager::new();
    let built_in = cache.current_generation();
    let snap = mvcc.snapshot(IsolationLevel::Snapshot);
    cache.invalidate();
    assert!(!cache.publish(built_in, &snap));
    assert!(cache.lookup().is_none());
    assert!(cache.publish(cache.current_generation(), &snap));
    assert!(cache.lookup().is_some());
    cache.invalidate();
    assert!(cache.lookup().is_none());
}

#[test]
fn visfilter_equivalence_between_manager_and_snapshot() {
    let cases = vec![
        (10, 11, None, btreeset(&[]), hashmap(&[(11, 11)]), false),
        (10, 8, None, btreeset(&[8]), hashmap(&[(8, 8)]), false),
        (10, 8, None, btreeset(&[]), hashmap(&[]), false),
        (10, 8, None, btreeset(&[]), hashmap(&[(8, 12)]), false),
        (10, 8, None, btreeset(&[]), hashmap(&[(8, 8)]), true),
        (10, 8, Some(9), btreeset(&[]), hashmap(&[(8, 8), (9, 9)]), false),
        (10, 8, Some(9), btreeset(&[9]), hashmap(&[(8, 8)]), true),
        (10, 8, Some(12), btreeset(&[]), hashmap(&[(8, 8), (12, 12)]), true),
        (10, 8, Some(9), btreeset(&[]), hashmap(&[(8, 8)]), true),
    ];
    for (snapshot_id, created_txn, deleted_txn, active_txns, commit_ts_map, expected) in cases {
        let manager = VisibilityManager::new();
        let snapshot = TxnSnapshot {
            snapshot_id,
            active_txns: active_txns.clone(),
            isolation: IsolationLevel::Snapshot,
            commit_ts_map: commit_ts_map.clone(),
        };
        let via_manager = <VisibilityManager as VisFilter>::is_row_visible(
            &manager,
            snapshot_id,
            created_txn,
            deleted_txn,
            &active_txns,
            &commit_ts_map,
        );
        let via_snapshot = <TxnSnapshot as VisFilter>::is_row_visible(
            &snapshot,
            snapshot_id,
            created_txn,
            deleted_txn,
            &active_txns,
            &commit_ts_map,
        );
        assert_eq!(via_manager, expected);
        assert_eq!(via_snapshot, expected);
        assert_eq!(via_manager, via_snapshot);
    }
}

#[test]
fn begin_with_snapshot_pins_committed_txn() {
    let mut mgr = VisibilityManager::new();
    mgr.set_committed_txn(10);

    let snap = mgr.begin_txn_with_snapshot(11, IsolationLevel::Snapshot).unwrap();
    assert_eq!(snap.snapshot_id, 10, "the snapshot must pin committed_txn at begin");
    assert!(snap.snapshot_id < 11);
    assert!(snap.active_txns.contains(&11), "own transaction is active");

    let snap2 = mgr.begin_txn_with_snapshot(12, IsolationLevel::Snapshot).unwrap();
    assert_eq!(snap2.snapshot_id, 10);
    assert!(snap2.active_txns.contains(&11) && snap2.active_txns.contains(&12));
}

#[test]
fn ttl_eviction_uses_inserted_at_with_watermark_protection() {
    let cfg = VisibilityConfig::default().with_max_history_entries(100).with_history_ttl_secs(1);
    let mut mgr = VisibilityManager::new_with_config(cfg);

    let now = current_timestamp_millis(&mut mgr.clock);
    let mut wal_inserted_at: HashMap<TxnId, u64> = HashMap::new();
    wal_inserted_at.insert(1, 1);
    wal_inserted_at.insert(2, now);
    mgr.recover_committed_history_with_config(vec![(1, 1), (2, now)], None, &wal_inserted_at);
    assert_eq!(mgr.get_commit_ts(1), Some(1));
    assert_eq!(mgr.get_commit_ts(2), Some(now));

    mgr.set_replay_watermark(now);

    mgr.prune_history(0);
    assert_eq!(mgr.get_commit_ts(1), None, "stale entry must be evicted");
    assert_eq!(mgr.get_commit_ts(2), Some(now), "fresh entry must survive");
    assert_eq!(mgr.replay_watermark(), now, "the watermark must persist across pruning");

    mgr.config.history_ttl_secs = 0;
    mgr.recover_committed_history_with_config(vec![(3, 3), (4, now)], None, &wal_inserted_at);
    mgr.prune_history(0);
    assert_eq!(mgr.get_commit_ts(3), Some(3), "an insert of the same millisecond survives");
    assert_eq!(mgr.get_commit_ts(4), Some(now), "a fresh insert survives");
}

/// With the time given, the edge of the TTL is exact: an entry as old as the
/// TTL stays, an older one goes.
#[test]
fn ttl_edge_is_exact() {
    let cfg = VisibilityConfig::default().with_max_history_entries(100).with_history_ttl_secs(1);
    let mut mgr = VisibilityManager::new_with_config(cfg);
    let times = hashmap(&[(1, 8_999), (2, 9_000), (3, 9_001)]);
    mgr.recover_committed_history_at(vec![(1, 1), (2, 2), (3, 3)], None, &times, 10_000);
    mgr.prune_history_at(10_000);
    assert_eq!(mgr.committed_history_entries(), vec![(2, 2), (3, 3)]);
    assert_eq!(mgr.committed_entry(2), Some((2, 9_000)));
}

/// A history over its limit is cut down by insertion time.
#[test]
fn count_limit_evicts_the_oldest() {
    let cfg = VisibilityConfig::default().with_max_history_entries(10).with_history_ttl_secs(3600);
    let mut mgr = VisibilityManager::new_with_config(cfg);
    let history: Vec<(TxnId, u64)> = (1..=12).map(|t| (t, t)).collect();
    let times: HashMap<TxnId, u64> = (1..=12).map(|t| (t, 100_000 - t)).collect();
    mgr.recover_committed_history_at(history, None, &times, 100_000);
    mgr.prune_history_at(100_000);
    assert!(mgr.committed_history_entries().len() <= 10);
    assert_eq!(mgr.get_commit_ts(1), Some(1), "the newest insertion stays");
    assert_eq!(mgr.get_commit_ts(12), None, "the oldest insertion goes");
}

#[test]
fn snapshot_at_pruned_history_remains_conservatively_invisible() {
    let manager = VisibilityManager::new();
    let snapshot = manager.snapshot_at(2, IsolationLevel::Snapshot);
    assert!(snapshot.commit_ts_map.is_empty());
    assert!(!manager.is_visible(&snapshot, 1, None));
}

#[test]
fn historical_retention_window_is_operator_bounded_not_long_range_authority() {
    let mut manager = VisibilityManager::new();
    manager.config.max_history_entries = 1;
    manager.recover_committed_history(vec![(1, 10), (2, 20)]);
    manager.prune_history(20);

    let snapshot = manager.snapshot_at(10, IsolationLevel::Snapshot);
    assert!(snapshot.commit_ts_map.is_empty());
    assert!(manager.get_commit_ts(1).is_none());
    assert!(manager.get_commit_ts(2).is_none());
    assert!(!manager.is_visible(&snapshot, 1, None));
}

#[test]
fn conflicts_are_reported_and_abort() {
    let mut mgr = VisibilityManager::new();
    mgr.begin_txn(1).unwrap();
    mgr.begin_txn(2).unwrap();
    mgr.record_read(1, b"k");
    mgr.record_write(2, b"k");
    let err = mgr.commit_txn(2, 0).unwrap_err();
    assert!(err.to_text().contains("SSI conflict"), "{}", err.to_text());
    assert_eq!(mgr.get_begin_ts(2), None);
    assert_eq!(mgr.committed_entry(2), None);
    let err = mgr.commit_txn(2, 0).unwrap_err();
    assert!(matches!(err, Z1Error::MvccConflict(_)));
    assert!(mgr.commit_txn(1, 0).is_ok());
}

#[test]
fn begin_refuses_active_and_committed_ids() {
    let mut mgr = VisibilityManager::new();
    mgr.begin_txn(3).unwrap();
    assert_eq!(
        mgr.begin_txn(3).unwrap_err().to_text(),
        "MVCC conflict: transaction 3 already active"
    );
    mgr.commit_txn(3, 0).unwrap();
    assert_eq!(
        mgr.begin_txn(2).unwrap_err().to_text(),
        "MVCC conflict: transaction 2 already committed"
    );
    assert_eq!(mgr.committed_txn(), 3);
    assert_eq!(mgr.oldest_active_begin_ts(), u64::MAX);
    mgr.begin_txn(7).unwrap();
    mgr.begin_txn(9).unwrap();
    assert_eq!(mgr.oldest_active_begin_ts(), 7);
    mgr.rollback_txn(7).unwrap();
    assert_eq!(mgr.oldest_active_begin_ts(), 9);
}

/// A commit is visible at once, and not to a snapshot taken before.
#[test]
fn commit_is_visible_from_then_on() {
    let mut mgr = VisibilityManager::new();
    let now = current_timestamp_millis(&mut mgr.clock);
    mgr.begin_txn(1).unwrap();
    let before = mgr.snapshot(IsolationLevel::Snapshot);
    let after = mgr.commit_txn(1, now).unwrap();
    assert!(!mgr.is_visible(&before, 1, None));
    assert!(mgr.is_visible(&after, 1, None));
    assert_eq!(mgr.committed_entry(1).unwrap().1, now);
}

#[test]
fn transaction_meta_keeps_its_sets() {
    let mut meta = TxnMeta::new(5);
    assert_eq!(meta.begin_ts, 5);
    assert_eq!(meta.status, TxnStatus::Active);
    meta.record_read(b"r".to_vec());
    meta.record_write(b"w".to_vec());
    meta.commit(9);
    assert_eq!(meta.status, TxnStatus::Committed);
    assert_eq!(meta.commit_ts, Some(9));
}

#[test]
fn clock_never_goes_backwards() {
    let mut clock = MonotonicClock::new();
    assert_eq!(clock.clamp(Some(10)), 10);
    assert_eq!(clock.clamp(Some(7)), 10);
    assert_eq!(clock.clamp(None), 10);
    assert_eq!(clock.clamp(Some(11)), 11);
    let a = current_timestamp_millis(&mut clock);
    let b = current_timestamp_millis(&mut clock);
    assert!(a > 1_600_000_000_000);
    assert!(b >= a);
    clock.last_valid = u64::MAX;
    assert_eq!(current_timestamp_millis(&mut clock), u64::MAX);
}

/// A clone goes its own way.
#[test]
fn manager_clone_is_independent() {
    let mut m = VisibilityManager::new();
    m.begin_txn(1).unwrap();
    m.record_write(1, b"k");
    let mut copy = m.clone();
    copy.commit_txn(1, 5).unwrap();
    assert_eq!(copy.committed_txn(), 1);
    assert_eq!(m.committed_txn(), 0);
    assert!(m.get_begin_ts(1).is_some());
    assert!(copy.get_begin_ts(1).is_none());
}
