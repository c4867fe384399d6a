//! The storage layers: versions, memory, patches, flush, compaction and GC.

use std::collections::{BTreeMap, HashMap, HashSet};
use std::sync::Arc;

use z1kv::codec::disk_format::DiskFormat;
use z1kv::error::Z1Error;
use z1kv::store::config::SyncLevel;
use z1kv::store::disk::{cf_dir_name, parse_cf_dir, patch_ids, patch_name, FileRead, LayerRead};
use z1kv::store::flush::first_free_patch_id;
use z1kv::store::jobs::{CompactJob, CompactTask, FlushJob, FlushStep};
use z1kv::store::version_map::VersionMap;
use z1kv::store::{
    gc_entries, DiskLayer, FlushEngine, MemStore, PatchEntry, RecentFlushCache, Z1Entry, Z1Key,
    Z1PatchFormatV4,
};
use z1kv::TxnId;

fn key(cf: u16, k: &[u8]) -> Z1Key {
    Z1Key::new(cf, k.to_vec())
}

fn pe(key: &[u8], txn_id: TxnId, v: u8) -> PatchEntry {
    PatchEntry { key: key.to_vec(), value: Some(Arc::new(vec![v])), txn_id }
}

fn tombstone(key: &[u8], txn_id: TxnId) -> PatchEntry {
    PatchEntry { key: key.to_vec(), value: None, txn_id }
}

fn entry(cf: u16, k: &[u8], txn_id: TxnId, v: u8) -> Z1Entry {
    Z1Entry { key: key(cf, k), txn_id, value: Some(Arc::new(vec![v])), ts: 0 }
}

fn value_entry(cf: u16, k: &[u8], txn_id: TxnId, value: Option<Vec<u8>>) -> Z1Entry {
    Z1Entry { key: key(cf, k), txn_id, value: value.map(Arc::new), ts: 0 }
}

fn bytes_of(e: &Z1Entry) -> Option<&[u8]> {
    e.value.as_deref().map(|v| v.as_slice())
}

fn commits(items: &[(TxnId, u64)]) -> HashMap<TxnId, u64> {
    items.iter().copied().collect()
}

#[test]
fn visibility_requires_commit_history_not_legacy_flag() {
    let entry = entry(0, b"k", 42, 42);
    let active_txns = HashSet::new();
    assert!(!entry.is_visible_at_commit(100, &HashMap::new(), &active_txns));
    let commit_ts_by_txn = commits(&[(42, 40)]);
    assert!(entry.is_visible_at_commit(100, &commit_ts_by_txn, &active_txns));
}

#[test]
fn tombstone_semantics() {
    let k = key(1, b"a");
    let t = Z1Entry::tombstone(k.clone(), 7, 0);
    let p = Z1Entry::put(k, 8, b"v".to_vec(), 0);
    assert!(t.is_tombstone());
    assert!(!p.is_tombstone());
    assert_eq!(bytes_of(&p), Some(&b"v"[..]));
}

#[test]
fn z1key_ordering_cf_then_key() {
    assert!(key(0, b"z") < key(1, b"a"), "the column family dominates");
    assert!(key(1, b"a") < key(1, b"b"));
    assert!(key(1, b"ab") < key(1, b"b"));
    assert!(key(1, b"a") < key(1, b"ab"), "a prefix sorts before the longer key");
    assert!(key(1, b"a") == key(1, b"a"));
    assert!(key(1, b"a") != key(2, b"a"));
}

#[test]
fn patch_v4_disk_format_roundtrip() {
    let patch = Z1PatchFormatV4::sparse(vec![pe(b"k2", 2, 2), tombstone(b"k1", 1)]);
    let bytes = patch.to_disk_bytes().unwrap();
    let parsed = Z1PatchFormatV4::from_disk_bytes(&bytes).unwrap();
    match parsed {
        Z1PatchFormatV4::Sparse { entries } => {
            assert_eq!(entries.len(), 2);
            assert_eq!(entries[0].key, b"k1");
            assert!(entries[0].value.is_none(), "tombstone preserved");
            assert_eq!(entries[1].key, b"k2");
            assert_eq!(entries[1].txn_id, 2);
            assert_eq!(entries[1].value.as_deref(), Some(&vec![2u8]));
        }
    }
}

#[test]
fn patch_v4_crc_corruption_rejected() {
    let patch = Z1PatchFormatV4::sparse(vec![pe(b"k", 1, 1)]);
    let mut bytes = patch.to_disk_bytes().unwrap();
    let last = bytes.len() - 1;
    bytes[last] ^= 0xFF;
    assert!(Z1PatchFormatV4::from_disk_bytes(&bytes).is_err());
}

#[test]
fn patch_v4_entry_count_and_bounds() {
    let patch = Z1PatchFormatV4::sparse(vec![tombstone(b"aaa", 1), pe(b"zzz", 5, 9)]);
    assert_eq!(patch.entry_count(), 2);
    assert_eq!(patch.max_txn_id(), Some(5));
    assert_eq!(patch.min_txn_id(), Some(1));
    let (min, max) = patch.key_bounds();
    assert_eq!(min, Some(&b"aaa"[..]));
    assert_eq!(max, Some(&b"zzz"[..]));
}

#[test]
fn keeps_latest_version_before_watermark_plus_all_after() {
    let entries = vec![pe(b"k", 1, 1), pe(b"k", 2, 2), pe(b"k", 3, 3), pe(b"k", 4, 4), pe(b"k", 5, 5)];
    let (retained, stats) = gc_entries(entries, 4);
    assert_eq!(stats.scanned, 5);
    assert_eq!(stats.retained, 3);
    assert_eq!(stats.reclaimed, 2);
    let txns: Vec<TxnId> = retained.iter().map(|e| e.txn_id).collect();
    assert_eq!(txns, vec![3, 4, 5]);
}

#[test]
fn tombstone_below_watermark_removed_if_covered() {
    let entries = vec![pe(b"k", 1, 1), tombstone(b"k", 2)];
    let (retained, stats) = gc_entries(entries, 3);
    assert_eq!(stats.retained, 1);
    assert_eq!(stats.reclaimed, 1);
    assert!(retained[0].value.is_none(), "the tombstone stays as the baseline");
}

#[test]
fn active_snapshot_protects_old_versions() {
    let entries = vec![pe(b"k", 1, 1), pe(b"k", 2, 2)];
    let (retained, stats) = gc_entries(entries, 1);
    assert_eq!(stats.reclaimed, 0);
    assert_eq!(retained.len(), 2);
}

#[test]
fn multiple_keys_gc_independently() {
    let entries =
        vec![pe(b"a", 1, 1), pe(b"a", 2, 2), pe(b"b", 1, 1), pe(b"b", 2, 2), pe(b"b", 3, 3)];
    let (retained, stats) = gc_entries(entries, 3);
    assert_eq!(stats.reclaimed, 2);
    assert_eq!(stats.retained, 3);
    let a_txns: Vec<TxnId> =
        retained.iter().filter(|e| e.key == b"a").map(|e| e.txn_id).collect();
    let b_txns: Vec<TxnId> =
        retained.iter().filter(|e| e.key == b"b").map(|e| e.txn_id).collect();
    assert_eq!(a_txns, vec![2]);
    assert_eq!(b_txns, vec![2, 3]);
}

/// GC sorts what it is given, and keeps the order of equal entries.
#[test]
fn gc_takes_entries_in_any_order() {
    let entries = vec![pe(b"b", 9, 1), pe(b"a", 2, 2), pe(b"a", 1, 3), pe(b"a", 2, 4)];
    let (retained, stats) = gc_entries(entries, u64::MAX);
    assert_eq!(stats.reclaimed, 2);
    let got: Vec<(Vec<u8>, TxnId, u8)> = retained
        .iter()
        .map(|e| (e.key.clone(), e.txn_id, e.value.as_ref().unwrap()[0]))
        .collect();
    assert_eq!(got, vec![(b"a".to_vec(), 2, 4), (b"b".to_vec(), 9, 1)]);
}

#[test]
fn put_and_get_visible() {
    let mut store = MemStore::new(1024, SyncLevel::Async);
    store.put(value_entry(0, b"k", 1, Some(b"v1".to_vec()))).unwrap();
    let v = store.get_visible(0, b"k", 1, &commits(&[(1, 1)]), &HashSet::new()).unwrap();
    assert_eq!(bytes_of(&v), Some(&b"v1"[..]));
}

#[test]
fn highest_txn_wins() {
    let mut store = MemStore::new(1024, SyncLevel::Async);
    store.put(value_entry(0, b"k", 1, Some(b"v1".to_vec()))).unwrap();
    store.put(value_entry(0, b"k", 2, Some(b"v2".to_vec()))).unwrap();
    let v = store.get_visible(0, b"k", 2, &commits(&[(1, 1), (2, 2)]), &HashSet::new()).unwrap();
    assert_eq!(bytes_of(&v), Some(&b"v2"[..]));
}

#[test]
fn tombstone_is_not_visible_value() {
    let mut store = MemStore::new(1024, SyncLevel::Async);
    store.put(value_entry(0, b"k", 1, Some(b"v".to_vec()))).unwrap();
    store.put(value_entry(0, b"k", 2, None)).unwrap();
    let v = store.get_visible(0, b"k", 2, &commits(&[(1, 1), (2, 2)]), &HashSet::new()).unwrap();
    assert!(v.is_tombstone());
}

#[test]
fn uncommitted_txn_not_visible() {
    let mut store = MemStore::new(1024, SyncLevel::Async);
    store.put(value_entry(0, b"k", 1, Some(b"v".to_vec()))).unwrap();
    assert!(store.get_visible(0, b"k", 1, &HashMap::new(), &HashSet::new()).is_none());
}

#[test]
fn swap_and_drain_empties_cold_buffer() {
    let mut store = MemStore::new(1024, SyncLevel::Async);
    store.put(value_entry(0, b"k", 1, Some(b"v".to_vec()))).unwrap();
    let drained = store.swap_and_drain();
    assert_eq!(drained.len(), 1, "the hot buffer must be returned");
    let drained2 = store.swap_and_drain();
    assert!(drained2.is_empty(), "nothing may be left behind");
}

#[test]
fn swap_and_drain_preserves_snapshot_for_readers() {
    let mut store = MemStore::new(1024, SyncLevel::Async);
    store.put(value_entry(0, b"k", 1, Some(b"v".to_vec()))).unwrap();
    let drained = store.swap_and_drain();
    assert_eq!(drained.len(), 1, "the hot buffer must be returned");
    let c = commits(&[(1, 1)]);
    let v = store.get_visible(0, b"k", 1, &c, &HashSet::new()).unwrap();
    assert_eq!(bytes_of(&v), Some(&b"v"[..]));
    let v2 = store.get_visible(0, b"k", 1, &c, &HashSet::new()).unwrap();
    assert_eq!(bytes_of(&v2), Some(&b"v"[..]));
}

#[test]
fn keys_are_separated_by_cf() {
    let mut store = MemStore::new(1024, SyncLevel::Async);
    store.put(value_entry(0, b"k", 1, Some(b"cf0".to_vec()))).unwrap();
    store.put(value_entry(1, b"k", 1, Some(b"cf1".to_vec()))).unwrap();
    let c = commits(&[(1, 1)]);
    let v0 = store.get_visible(0, b"k", 1, &c, &HashSet::new()).unwrap();
    let v1 = store.get_visible(1, b"k", 1, &c, &HashSet::new()).unwrap();
    assert_eq!(bytes_of(&v0), Some(&b"cf0"[..]));
    assert_eq!(bytes_of(&v1), Some(&b"cf1"[..]));
}

#[test]
fn memstore_ranges_and_sizes() {
    let mut store = MemStore::new(100, SyncLevel::Async);
    assert!(store.is_empty());
    for (i, k) in [b"a", b"b", b"c"].iter().enumerate() {
        store.put(entry(0, *k, i as u64 + 1, i as u8)).unwrap();
    }
    assert_eq!(store.len(), 3);
    // key, column family, value, and a fixed share for each
    assert_eq!(store.size_bytes(), 3 * (1 + 2 + 1 + 32));
    assert!(store.should_flush());
    let c = commits(&[(1, 1), (2, 2), (3, 3)]);
    let got = store.range_visible(0, b"a", Some(b"c"), 3, &c, &HashSet::new());
    let keys: Vec<Vec<u8>> = got.iter().map(|(k, _)| k.clone()).collect();
    assert_eq!(keys, vec![b"a".to_vec(), b"b".to_vec()]);
    store.put(entry(0, b"a", 5, 9)).unwrap();
    let c = commits(&[(1, 1), (5, 5)]);
    let versions = store.get_versions(0, b"a", 5, &c, &HashSet::new());
    let txns: Vec<TxnId> = versions.iter().map(|e| e.txn_id).collect();
    assert_eq!(txns, vec![1, 5]);
    // the same version again replaces the first
    store.put(entry(0, b"a", 5, 10)).unwrap();
    assert_eq!(store.len(), 4);
    let v = store.get_visible(0, b"a", 5, &c, &HashSet::new()).unwrap();
    assert_eq!(bytes_of(&v), Some(&[10u8][..]));
}

#[test]
fn version_map_keeps_versions_in_order() {
    let mut m = VersionMap::new();
    for (k, t) in [(b"b", 1), (b"a", 2), (b"a", 1), (b"b", 1)] {
        m.insert(entry(0, k, t, t as u8));
    }
    assert_eq!(m.len(), 3);
    let got: Vec<(Vec<u8>, TxnId)> =
        m.to_vec().iter().map(|e| (e.key.key.clone(), e.txn_id)).collect();
    assert_eq!(got, vec![(b"a".to_vec(), 1), (b"a".to_vec(), 2), (b"b".to_vec(), 1)]);
}

#[test]
fn merge_accumulates_and_clear_commits() {
    let mut cache = RecentFlushCache::new();
    cache.cache_merge(&vec![entry(0, b"a", 1, 1)]);
    cache.cache_merge(&vec![entry(0, b"b", 2, 2)]);
    assert_eq!(cache.get_for_key(0, b"a").len(), 1, "data of a failed round must persist");
    assert_eq!(cache.get_for_key(0, b"b").len(), 1);
    cache.clear();
    assert!(cache.get_all().is_empty(), "clearing must empty the cache");
}

#[test]
fn get_all_matches_get_for_key() {
    let mut cache = RecentFlushCache::new();
    cache.cache_merge(&vec![entry(0, b"x", 1, 1), entry(1, b"y", 2, 2)]);
    let all = cache.get_all();
    assert_eq!(all.len(), 2);
    assert_eq!(cache.get_for_key(0, b"x").len(), 1);
    assert_eq!(cache.get_for_key(1, b"y").len(), 1);
    assert_eq!(cache.get_filtered(|e: &Z1Entry| e.txn_id == 2).len(), 1);
}

#[test]
fn cache_entries_and_get_for_key() {
    let mut cache = RecentFlushCache::new();
    cache.cache_entries(&vec![entry(0, b"k", 1, 1)]);
    let got = cache.get_for_key(0, b"k");
    assert_eq!(got.len(), 1);
    cache.cache_entries(&vec![entry(0, b"other", 1, 1)]);
    assert!(cache.get_for_key(0, b"k").is_empty(), "the entries replace those before");
}

#[test]
fn cache_clear() {
    let mut cache = RecentFlushCache::new();
    cache.cache_entries(&vec![entry(0, b"k", 1, 1)]);
    cache.clear();
    assert!(cache.get_for_key(0, b"k").is_empty());
}

#[test]
fn flush_epoch_monotonic() {
    let mut cache = RecentFlushCache::new();
    assert_eq!(cache.flush_epoch(), 0);
    cache.increment_epoch();
    assert_eq!(cache.flush_epoch(), 1);
}

/// Patch files by layer, column family and name.
#[derive(Default)]
struct Files {
    files: BTreeMap<(String, u16, String), Vec<u8>>,
}

impl Files {
    fn names(&self, dir: &str, cf: u16) -> Vec<String> {
        self.files.keys().filter(|k| k.0 == dir && k.1 == cf).map(|k| k.2.clone()).collect()
    }

    fn read(&self, dir: &str, cf: u16, name: &str) -> FileRead {
        match self.files.get(&(dir.to_string(), cf, name.to_string())) {
            Some(bytes) => FileRead::Bytes(bytes.clone()),
            None => FileRead::NotFound,
        }
    }

    fn append_patch(&mut self, layer: &mut DiskLayer, cf: u16, entries: Vec<PatchEntry>, id: u64) {
        if let Some(w) = DiskLayer::prepare_patch(cf, entries, id).unwrap() {
            self.files
                .insert((layer.root_dir.clone(), cf, w.name.clone()), w.bytes.clone());
            layer.publish(&w);
        }
    }

    fn get_versions(
        &self,
        layer: &mut DiskLayer,
        cf: u16,
        key: &[u8],
    ) -> Result<Vec<Z1Entry>, Z1Error> {
        loop {
            match layer.get_versions(cf, key) {
                LayerRead::Done(v) => return Ok(v),
                LayerRead::Need(name) => {
                    let file = self.read(&layer.root_dir, cf, &name);
                    layer.install(cf, &name, file)?;
                }
            }
        }
    }

    fn rebuild(&self, dir: &str) -> DiskLayer {
        let mut layer = DiskLayer::new(dir.to_string());
        for ((d, cf, name), bytes) in &self.files {
            if d == dir {
                layer.add_file(*cf, name.clone(), bytes);
            }
        }
        layer
    }

    fn flush(&mut self, engine: &mut FlushEngine) -> usize {
        let groups = engine.flush_l1_to_l2();
        self.run_flush(engine, FlushJob::new(groups, engine))
    }

    fn run_flush(&mut self, engine: &mut FlushEngine, mut job: FlushJob) -> usize {
        loop {
            match job.step(engine) {
                FlushStep::Write { cf, name, bytes } => {
                    self.files.insert(("l2".to_string(), cf, name), bytes);
                }
                FlushStep::Done(n) => return n,
                FlushStep::Failed(e) => panic!("{}", e.to_text()),
            }
        }
    }

    fn compact(&mut self, engine: &mut FlushEngine, watermark: TxnId) -> (usize, usize) {
        let known: HashMap<TxnId, u64> = (0..1000).map(|t| (t, t)).collect();
        self.compact_known(engine, watermark, &known)
    }

    fn compact_known(
        &mut self,
        engine: &mut FlushEngine,
        watermark: TxnId,
        known: &HashMap<TxnId, u64>,
    ) -> (usize, usize) {
        let mut job = CompactJob::new(engine, watermark);
        loop {
            match job.step(engine, known) {
                CompactTask::Read { cf, name } => {
                    let file = self.read("l2", cf, &name);
                    engine.l2.install(cf, &name, file).unwrap();
                }
                CompactTask::Write { cf, name, bytes } => {
                    self.files.insert(("l3".to_string(), cf, name), bytes);
                }
                CompactTask::Drop { cf } => {
                    self.files.retain(|k, _| !(k.0 == "l2" && k.1 == cf));
                }
                CompactTask::Done { cfs, reclaimed } => return (cfs, reclaimed),
                CompactTask::Failed(e) => panic!("{}", e.to_text()),
            }
        }
    }
}

#[test]
fn append_and_read_versions() {
    let mut files = Files::default();
    let mut layer = DiskLayer::new("l2".to_string());
    files.append_patch(&mut layer, 0, vec![pe(b"k", 1, 1), pe(b"k", 2, 2)], 1);
    let versions = files.get_versions(&mut layer, 0, b"k").unwrap();
    assert_eq!(versions.len(), 2);
    assert_eq!(versions.iter().map(|e| e.txn_id).collect::<Vec<_>>(), vec![1, 2]);
}

#[test]
fn cf_separation() {
    let mut files = Files::default();
    let mut layer = DiskLayer::new("l2".to_string());
    files.append_patch(&mut layer, 0, vec![pe(b"k", 1, 1)], 1);
    files.append_patch(&mut layer, 1, vec![pe(b"k", 1, 2)], 1);
    let v0 = files.get_versions(&mut layer, 0, b"k").unwrap();
    let v1 = files.get_versions(&mut layer, 1, b"k").unwrap();
    assert_eq!(v0.len(), 1);
    assert_eq!(v1.len(), 1);
    assert_eq!(bytes_of(&v0[0]), Some(&[1u8][..]));
    assert_eq!(bytes_of(&v1[0]), Some(&[2u8][..]));
    assert_eq!(layer.list_cfs(), vec![0, 1]);
}

#[test]
fn tombstone_preserved() {
    let mut files = Files::default();
    let mut layer = DiskLayer::new("l2".to_string());
    files.append_patch(&mut layer, 0, vec![tombstone(b"k", 5)], 1);
    let versions = files.get_versions(&mut layer, 0, b"k").unwrap();
    assert_eq!(versions.len(), 1);
    assert!(versions[0].is_tombstone());
}

#[test]
fn patch_ids_are_discoverable() {
    let mut files = Files::default();
    let mut layer = DiskLayer::new("l2".to_string());
    files.append_patch(&mut layer, 0, vec![pe(b"a", 1, 1)], 10);
    files.append_patch(&mut layer, 0, vec![pe(b"b", 2, 2)], 11);
    let mut ids = patch_ids(&files.names("l2", 0));
    ids.sort_unstable();
    assert_eq!(ids, vec![10, 11]);
    assert_eq!(layer.max_patch_id(), 11);
}

#[test]
fn index_rebuilt_on_reopen() {
    let mut files = Files::default();
    {
        let mut layer = DiskLayer::new("l2".to_string());
        files.append_patch(&mut layer, 0, vec![pe(b"k1", 1, 1)], 1);
        files.append_patch(&mut layer, 0, vec![pe(b"k2", 2, 2)], 2);
    }
    let mut layer = files.rebuild("l2");
    let v1 = files.get_versions(&mut layer, 0, b"k1").unwrap();
    let v2 = files.get_versions(&mut layer, 0, b"k2").unwrap();
    assert_eq!(v1.len(), 1, "k1 must be readable after the index was rebuilt");
    assert_eq!(v2.len(), 1, "k2 must be readable after the index was rebuilt");
    assert_eq!(bytes_of(&v1[0]), Some(&[1u8][..]));
    assert_eq!(bytes_of(&v2[0]), Some(&[2u8][..]));
}

#[test]
fn vanished_patch_degrades_gracefully() {
    let mut files = Files::default();
    let mut layer = DiskLayer::new("l2".to_string());
    files.append_patch(&mut layer, 0, vec![pe(b"good", 1, 1)], 1);
    files.append_patch(&mut layer, 0, vec![pe(b"bad", 2, 2)], 2);
    let gone = ("l2".to_string(), 0, patch_name(2));
    assert!(files.files.contains_key(&gone));
    files.files.remove(&gone);

    let r = files.get_versions(&mut layer, 0, b"bad");
    assert!(r.is_ok(), "a vanished patch must not be an error");
    assert!(r.unwrap().is_empty());
    assert_eq!(files.get_versions(&mut layer, 0, b"good").unwrap().len(), 1);
}

#[test]
fn range_pruning_skips_out_of_range_keys() {
    let mut files = Files::default();
    let mut layer = DiskLayer::new("l2".to_string());
    files.append_patch(&mut layer, 0, vec![pe(b"a", 1, 1), pe(b"b", 2, 2)], 1);
    // out of range: answered without a file
    assert!(matches!(layer.get_versions(0, b"zz"), LayerRead::Done(v) if v.is_empty()));
    assert_eq!(files.get_versions(&mut layer, 0, b"a").unwrap().len(), 1);
    assert_eq!(files.get_versions(&mut layer, 0, b"b").unwrap().len(), 1);
}

/// An unreadable patch is an error, and a failed read is passed on.
#[test]
fn damaged_patch_is_an_error() {
    let mut files = Files::default();
    let mut layer = DiskLayer::new("l2".to_string());
    files.append_patch(&mut layer, 0, vec![pe(b"k", 1, 1)], 1);
    let place = ("l2".to_string(), 0, patch_name(1));
    files.files.get_mut(&place).unwrap().pop();
    assert!(files.get_versions(&mut layer, 0, b"k").is_err());
    let failed = z1kv::error::IoError {
        kind: z1kv::error::IoErrorKind::PermissionDenied,
        message: "no".to_string(),
    };
    let err = layer.install(0, &patch_name(1), FileRead::Failed(failed)).unwrap_err();
    assert_eq!(err.to_text(), "IO error: no");
    assert!(!files.rebuild("l2").list_cfs().contains(&0), "it is skipped when rebuilding");
}

#[test]
fn layer_ranges_list_the_newest_version() {
    let mut files = Files::default();
    let mut layer = DiskLayer::new("l2".to_string());
    files.append_patch(&mut layer, 0, vec![pe(b"a", 1, 1), pe(b"c", 1, 1)], 1);
    files.append_patch(&mut layer, 0, vec![pe(b"a", 2, 2), pe(b"b", 2, 2)], 2);
    for name in files.names("l2", 0) {
        let file = files.read("l2", 0, &name);
        layer.install(0, &name, file).unwrap();
    }
    match layer.range_visible(0, b"a", Some(b"c")) {
        LayerRead::Done(list) => {
            let got: Vec<(Vec<u8>, TxnId)> =
                list.iter().map(|(k, e)| (k.clone(), e.txn_id)).collect();
            assert_eq!(got, vec![(b"a".to_vec(), 2), (b"b".to_vec(), 2)]);
        }
        LayerRead::Need(name) => panic!("needs {}", name),
    }
}

#[test]
fn names_of_patches_and_directories() {
    assert_eq!(patch_name(7), "0000000000000007.zpatch");
    assert_eq!(cf_dir_name(0x00ab), "00ab");
    assert_eq!(parse_cf_dir("00ab"), Some(0xab));
    assert_eq!(parse_cf_dir("xyz"), None);
    assert_eq!(parse_cf_dir("0000a"), None);
    let names = vec!["0000000000000003.zpatch".to_string(), "x.zpatch".to_string(), "3".to_string()];
    assert_eq!(patch_ids(&names), vec![3]);
}

fn engine_with(threshold: usize) -> FlushEngine {
    FlushEngine::with_l3(
        MemStore::new(threshold, SyncLevel::Async),
        DiskLayer::new("l2".to_string()),
        DiskLayer::new("l3".to_string()),
        RecentFlushCache::new(),
        0,
        0,
    )
}

#[test]
fn flush_moves_entries_to_l2() {
    let mut files = Files::default();
    let mut engine = engine_with(1024);
    engine.l1.put(entry(0, b"k", 1, 1)).unwrap();
    engine.l1.put(entry(0, b"k2", 1, 2)).unwrap();
    let groups = files.flush(&mut engine);
    assert_eq!(groups, 1);
    let versions = files.get_versions(&mut engine.l2, 0, b"k").unwrap();
    assert_eq!(versions.len(), 1);
    assert_eq!(bytes_of(&versions[0]), Some(&[1u8][..]));
}

#[test]
fn flush_bumps_epoch_and_clears_cache() {
    let mut files = Files::default();
    let mut engine = engine_with(1024);
    engine.l1.put(entry(0, b"k", 1, 1)).unwrap();
    files.flush(&mut engine);
    assert_eq!(engine.flush_epoch, 1);
    assert_eq!(engine.recent_flush.flush_epoch(), 1);
    assert!(engine.recent_flush.get_for_key(0, b"k").is_empty(), "cache cleared after the flush");
}

#[test]
fn try_flush_respects_threshold() {
    let mut files = Files::default();
    let mut engine = engine_with(1);
    engine.l1.put(entry(0, b"k", 1, 1)).unwrap();
    assert!(engine.l1.should_flush());
    let groups = engine.try_flush().unwrap();
    let job = FlushJob::new(groups, &engine);
    assert_eq!(files.run_flush(&mut engine, job), 1);
    assert!(!engine.l1.should_flush());
    assert!(engine.try_flush().is_none());
}

#[test]
fn compact_l2_to_l3_merges_and_gcs() {
    let mut files = Files::default();
    let mut engine = engine_with(1024);
    for (txn, v) in [(1u64, 1u8), (2, 2), (3, 3), (4, 4), (5, 5)] {
        engine.l1.put(entry(0, b"k", txn, v)).unwrap();
        if txn % 2 == 0 {
            files.flush(&mut engine);
        }
    }
    files.flush(&mut engine);
    assert!(patch_ids(&files.names("l2", 0)).len() >= 2, "L2 should hold several patches");

    let (cfs, reclaimed) = files.compact(&mut engine, 5);
    assert_eq!(cfs, 1);
    assert!(reclaimed >= 3, "old versions must be reclaimed, got {}", reclaimed);

    assert!(patch_ids(&files.names("l2", 0)).is_empty());
    let versions = files.get_versions(&mut engine.l3, 0, b"k").unwrap();
    let txns: Vec<u64> = versions.iter().map(|v| v.txn_id).collect();
    assert_eq!(txns, vec![4, 5]);

    for (txn, v) in [(6u64, 6u8), (7, 7)] {
        engine.l1.put(entry(0, b"k", txn, v)).unwrap();
    }
    files.flush(&mut engine);
    files.compact(&mut engine, u64::MAX);
    let versions = files.get_versions(&mut engine.l3, 0, b"k").unwrap();
    assert_eq!(versions.last().unwrap().txn_id, 7);
}

#[test]
fn compact_preserves_history_before_watermark() {
    let mut files = Files::default();
    let mut engine = engine_with(1024);
    for txn in 1..=4u64 {
        engine.l1.put(entry(0, b"k", txn, txn as u8)).unwrap();
    }
    files.flush(&mut engine);
    let (_, reclaimed) = files.compact(&mut engine, 4);
    assert_eq!(reclaimed, 2);
    let versions = files.get_versions(&mut engine.l3, 0, b"k").unwrap();
    let txns: Vec<u64> = versions.iter().map(|e| e.txn_id).collect();
    assert_eq!(txns, vec![3, 4], "the baseline must be preserved");
}

/// A version that is not known to be committed hides no other; one that a
/// committed version hides goes.
#[test]
fn compact_keeps_what_nothing_committed_hides() {
    let mut files = Files::default();
    let mut engine = engine_with(1024);
    for txn in 1..=5u64 {
        engine.l1.put(entry(0, b"k", txn, txn as u8)).unwrap();
    }
    files.flush(&mut engine);
    let known: HashMap<TxnId, u64> = [(1, 1), (3, 3)].into_iter().collect();
    let (_, reclaimed) = files.compact_known(&mut engine, 5, &known);
    assert_eq!(reclaimed, 2);
    let versions = files.get_versions(&mut engine.l3, 0, b"k").unwrap();
    let txns: Vec<u64> = versions.iter().map(|e| e.txn_id).collect();
    assert_eq!(txns, vec![3, 4, 5]);
}

/// Two runs of GC keep what one at the larger watermark keeps, in whatever
/// order the versions come.
#[test]
fn gc_runs_compose() {
    let all = || vec![pe(b"a", 1, 1), pe(b"a", 3, 3), pe(b"a", 6, 6), pe(b"b", 2, 2), tombstone(b"b", 4)];
    let ids = |es: &Vec<PatchEntry>| -> Vec<(Vec<u8>, TxnId)> {
        es.iter().map(|e| (e.key.clone(), e.txn_id)).collect()
    };
    for w1 in 0..8 {
        for w2 in 0..8 {
            let twice = gc_entries(gc_entries(all(), w1).0, w2);
            let once = gc_entries(all(), w1.max(w2));
            assert_eq!(ids(&twice.0), ids(&once.0));
            if w2 <= w1 {
                assert_eq!(twice.1.reclaimed, 0);
            }
            let mut turned = all();
            turned.reverse();
            assert_eq!(ids(&gc_entries(turned, w1).0), ids(&gc_entries(all(), w1).0));
        }
    }
}

#[test]
fn try_compact_respects_threshold() {
    let mut files = Files::default();
    let mut engine = engine_with(1024);
    engine.l1.put(entry(0, b"k", 1, 1)).unwrap();
    files.flush(&mut engine);
    assert!(!FlushEngine::try_compact(patch_ids(&files.names("l2", 0)).len(), 2));

    engine.l1.put(entry(0, b"k", 2, 2)).unwrap();
    files.flush(&mut engine);
    assert!(
        FlushEngine::try_compact(patch_ids(&files.names("l2", 0)).len(), 2),
        "2 patches should meet the threshold 2"
    );
    files.compact(&mut engine, u64::MAX);
    assert!(patch_ids(&files.names("l2", 0)).is_empty(), "L2 is taken over");
}

#[test]
fn zone_map_txn_bounds_are_correct() {
    let mut files = Files::default();
    let mut engine = engine_with(usize::MAX);
    assert_eq!(files.flush(&mut engine), 0, "an empty flush writes nothing");

    let entries = vec![pe(b"k", 3, 1), pe(b"k2", 9, 2)];
    let w = DiskLayer::prepare_patch(0, entries, 7).unwrap().unwrap();
    assert_eq!(w.name, "0000000000000007.zpatch");
    assert_eq!(w.patch.zone_map.min_txn, 3);
    assert_eq!(w.patch.zone_map.max_txn, 9);
    let format = Z1PatchFormatV4::from_disk_bytes(&w.bytes).unwrap();
    assert_eq!(format.max_txn_id(), Some(9));
    assert_eq!(format.min_txn_id(), Some(3));
}

#[test]
fn patch_numbers_go_on_after_those_in_use() {
    let mut files = Files::default();
    let mut l2 = DiskLayer::new("l2".to_string());
    let mut l3 = DiskLayer::new("l3".to_string());
    assert_eq!(first_free_patch_id(&l2, &l3), Some(1));
    files.append_patch(&mut l2, 0, vec![pe(b"k", 1, 1)], 4);
    files.append_patch(&mut l3, 3, vec![pe(b"k", 1, 1)], 9);
    assert_eq!(first_free_patch_id(&l2, &l3), Some(10));
    files.append_patch(&mut l2, 0, vec![pe(b"k", 1, 1)], u64::MAX);
    assert_eq!(first_free_patch_id(&l2, &l3), None);
}

/// A patch's payload to the byte: variant, number of entries, then key, value
/// and transaction of each.
#[test]
fn patch_payload_layout() {
    let format = Z1PatchFormatV4::sparse(vec![pe(b"b", 300, 9), tombstone(b"a", 1)]);
    let bytes = format.to_disk_bytes().unwrap();
    assert_eq!(bytes[18..], [0, 2, 1, b'a', 0, 1, 1, b'b', 1, 1, 9, 0xAC, 0x02]);
}

/// A flush writes one patch for every column family, each with exactly its
/// entries.
#[test]
fn flush_writes_exactly_the_cache() {
    let mut files = Files::default();
    let mut engine = engine_with(1024);
    for (cf, key, txn) in [(3u16, b"c", 1u64), (1, b"b", 2), (3, b"a", 3), (1, b"b", 4), (2, b"x", 5)] {
        engine.l1.put(entry(cf, key, txn, txn as u8)).unwrap();
    }
    assert_eq!(files.flush(&mut engine), 3);
    let mut seen: Vec<(u16, Vec<(Vec<u8>, TxnId)>)> = Vec::new();
    for ((layer, cf, _), bytes) in &files.files {
        assert_eq!(layer, "l2");
        let Z1PatchFormatV4::Sparse { entries } = Z1PatchFormatV4::from_disk_bytes(bytes).unwrap();
        seen.push((*cf, entries.iter().map(|e| (e.key.clone(), e.txn_id)).collect()));
    }
    assert_eq!(
        seen,
        vec![
            (1, vec![(b"b".to_vec(), 2), (b"b".to_vec(), 4)]),
            (2, vec![(b"x".to_vec(), 5)]),
            (3, vec![(b"a".to_vec(), 3), (b"c".to_vec(), 1)]),
        ]
    );
}
