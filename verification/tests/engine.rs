//! The engine on a disk that is kept in memory: transactions, recovery and
//! maintenance from end to end.

use std::cell::RefCell;
use std::collections::BTreeMap;
use std::rc::Rc;

use z1kv::codec::disk_format::DiskFormat;
use z1kv::config::{VisibilityConfig, Z1Config};
use z1kv::error::{IoError, IoErrorKind};
use z1kv::mvcc::visibility::TxnSnapshot;
use z1kv::store::disk::{cf_dir_name, parse_cf_dir, patch_ids, DiskLayer, FileRead};
use z1kv::store::jobs::{CompactTask, FlushStep};
use z1kv::store::Z1PatchFormatV4;
use z1kv::txn::engine::{conflict_key, Layer, Read};
use z1kv::wal::checkpoint::{CheckpointManager, CheckpointStage, CheckpointTask};
use z1kv::wal::names::{latest_segment, segment_name, segment_numbers};
use z1kv::wal::replay::{replay_all, sound_len};
use z1kv::wal::writer::{WalAction, WalPlan, WalWriter};
use z1kv::wal::{WalPosition, WalRecord};
use z1kv::{Result, TxnId, Z1Error, Z1Kv};

/// Files by path, shared by all engines that are opened on them in turn.
#[derive(Clone)]
struct Disk {
    files: Rc<RefCell<BTreeMap<String, Vec<u8>>>>,
    /// Writes below this prefix fail.
    broken: Rc<RefCell<Option<String>>>,
}

fn io_failure(text: &str) -> Z1Error {
    Z1Error::Io(IoError { kind: IoErrorKind::Named("Other".to_string()), message: text.to_string() })
}

impl Disk {
    fn new() -> Self {
        Disk { files: Rc::new(RefCell::new(BTreeMap::new())), broken: Rc::new(RefCell::new(None)) }
    }

    fn read(&self, path: &str) -> Option<Vec<u8>> {
        self.files.borrow().get(path).cloned()
    }

    fn has(&self, path: &str) -> bool {
        self.files.borrow().contains_key(path)
    }

    fn write(&self, path: &str, bytes: &[u8]) -> Result<()> {
        if let Some(prefix) = &*self.broken.borrow() {
            if path.starts_with(prefix.as_str()) {
                return Err(io_failure("broken"));
            }
        }
        self.files.borrow_mut().insert(path.to_string(), bytes.to_vec());
        Ok(())
    }

    fn append(&self, path: &str, bytes: &[u8]) {
        self.files.borrow_mut().entry(path.to_string()).or_default().extend_from_slice(bytes);
    }

    fn remove(&self, path: &str) {
        self.files.borrow_mut().remove(path);
    }

    /// The names in a directory, of files and directories.
    fn list(&self, dir: &str) -> Vec<String> {
        let prefix = format!("{}/", dir);
        let mut out: Vec<String> = Vec::new();
        for path in self.files.borrow().keys() {
            if let Some(rest) = path.strip_prefix(prefix.as_str()) {
                let name = rest.split('/').next().unwrap().to_string();
                if !out.contains(&name) {
                    out.push(name);
                }
            }
        }
        out
    }

    fn wal_size(&self) -> u64 {
        self.list("wal").iter().map(|n| self.read(&format!("wal/{}", n)).unwrap().len() as u64).sum()
    }
}

/// An engine and its disk.
struct Db {
    disk: Disk,
    e: Z1Kv,
}

fn layer_dir(layer: Layer) -> &'static str {
    match layer {
        Layer::L2 => "l2",
        Layer::L3 => "l3",
    }
}

fn open_layer(disk: &Disk, dir: &str) -> DiskLayer {
    let mut layer = DiskLayer::new(dir.to_string());
    for cf_dir in disk.list(dir) {
        if let Some(cf) = parse_cf_dir(&cf_dir) {
            layer.open_cf(cf);
            for name in disk.list(&format!("{}/{}", dir, cf_dir)) {
                let bytes = disk.read(&format!("{}/{}/{}", dir, cf_dir, name)).unwrap();
                layer.add_file(cf, name, &bytes);
            }
        }
    }
    layer
}

impl Db {
    fn open(disk: &Disk) -> Result<Db> {
        Self::open_with_config(disk, Z1Config::default())
    }

    fn open_with_config(disk: &Disk, config: Z1Config) -> Result<Db> {
        let names = disk.list("wal");
        let segments: Vec<Vec<u8>> = segment_numbers(&names)
            .iter()
            .map(|seq| disk.read(&format!("wal/{}", segment_name(*seq))).unwrap())
            .collect();
        let wal_config = Z1Kv::wal_config("db");
        let wal = match latest_segment(&names) {
            Some((seq, at)) => {
                let bytes = disk.read(&format!("wal/{}", names[at])).unwrap();
                WalWriter::open(wal_config, Some((seq, &bytes)), false)
            }
            None => WalWriter::open(wal_config, None, false),
        };
        let latest = disk.read(&format!("checkpoints/{}", CheckpointManager::latest_name()));
        let file = latest.as_ref().and_then(|l| CheckpointManager::latest_id(l)).and_then(|id| {
            disk.read(&format!("checkpoints/{}", CheckpointManager::checkpoint_name(id)))
        });
        let state = CheckpointManager::load_latest(latest.as_ref(), file.as_ref());
        let baseline = CheckpointManager::recovery_baseline(state);
        let e = Z1Kv::open_with_config(
            "db".to_string(),
            config,
            wal,
            open_layer(disk, "l2"),
            open_layer(disk, "l3"),
            baseline,
            &segments,
        )?;
        // cut off a record that broke off, and create the first segment
        let path = format!("wal/{}", segment_name(e.wal.cursor.seq));
        let kept = match disk.read(&path) {
            Some(bytes) => bytes[..sound_len(&bytes)].to_vec(),
            None => Vec::new(),
        };
        disk.write(&path, &kept)?;
        Ok(Db { disk: disk.clone(), e })
    }

    fn perform(&mut self, actions: Vec<WalAction>) {
        for a in actions {
            match &a {
                WalAction::Open { seq } => {
                    self.disk.write(&format!("wal/{}", segment_name(*seq)), &[]).unwrap();
                }
                WalAction::Write { bytes } => {
                    let path = format!("wal/{}", segment_name(self.e.wal.cursor.seq));
                    self.disk.append(&path, bytes);
                }
                _ => {}
            }
            self.e.wal_applied(&a);
        }
    }

    fn perform_plan(&mut self, plan: WalPlan) -> Result<()> {
        self.perform(plan.actions);
        match plan.error {
            Some(e) => Err(e),
            None => Ok(()),
        }
    }

    fn begin_txn(&mut self) -> Result<TxnId> {
        self.e.begin_txn()
    }

    fn put(&mut self, cf: u16, key: &[u8], value: &[u8], txn: TxnId) -> Result<()> {
        let w = self.e.put(cf, key.to_vec(), value.to_vec(), txn)?;
        self.perform(w.actions);
        self.e.apply_write(w.entry);
        Ok(())
    }

    fn delete(&mut self, cf: u16, key: &[u8], txn: TxnId) -> Result<()> {
        let w = self.e.delete(cf, key.to_vec(), txn)?;
        self.perform(w.actions);
        self.e.apply_write(w.entry);
        Ok(())
    }

    fn commit(&mut self, txn: TxnId) -> Result<()> {
        let t = self.e.commit(txn)?;
        self.perform_plan(t.plan)?;
        self.e.finish_commit(t.txn_id, t.inserted_at)?;
        if self.e.checkpoint_due(self.disk.wal_size()) {
            let _ = self.checkpoint();
        }
        let patches = self
            .disk
            .list("l2")
            .iter()
            .map(|cf| patch_ids(&self.disk.list(&format!("l2/{}", cf))).len())
            .sum();
        if self.e.compaction_due(patches) {
            let _ = self.compact(self.e.gc_watermark());
        }
        Ok(())
    }

    fn rollback(&mut self, txn: TxnId) -> Result<()> {
        let plan = self.e.rollback(txn)?;
        self.perform_plan(plan)?;
        self.e.finish_rollback(txn);
        Ok(())
    }

    fn file(&self, layer: Layer, cf: u16, name: &str) -> FileRead {
        match self.disk.read(&format!("{}/{}/{}", layer_dir(layer), cf_dir_name(cf), name)) {
            Some(bytes) => FileRead::Bytes(bytes),
            None => FileRead::NotFound,
        }
    }

    fn install(&mut self, layer: Layer, cf: u16, name: &str) -> Result<()> {
        let file = self.file(layer, cf, name);
        self.e.install(layer, cf, name, file)
    }

    fn get(&mut self, cf: u16, key: &[u8]) -> Result<Option<Vec<u8>>> {
        loop {
            match self.e.get(cf, key) {
                Read::Done(v) => return Ok(v),
                Read::Need { layer, cf, name } => self.install(layer, cf, &name)?,
            }
        }
    }

    fn get_at(&mut self, snap: &TxnSnapshot, cf: u16, key: &[u8]) -> Result<Option<Vec<u8>>> {
        loop {
            match self.e.get_at(snap, cf, key) {
                Read::Done(v) => return Ok(v),
                Read::Need { layer, cf, name } => self.install(layer, cf, &name)?,
            }
        }
    }

    fn get_for_txn(&mut self, cf: u16, key: &[u8], txn: TxnId) -> Result<Option<Vec<u8>>> {
        loop {
            match self.e.get_for_txn(cf, key, txn)? {
                Read::Done(v) => return Ok(v),
                Read::Need { layer, cf, name } => self.install(layer, cf, &name)?,
            }
        }
    }

    fn scan(&mut self, cf: u16, start: &[u8], end: Option<&[u8]>) -> Result<Vec<(Vec<u8>, Vec<u8>)>> {
        let snap = self.e.snapshot();
        self.scan_at(&snap, cf, start, end)
    }

    fn scan_at(
        &mut self,
        snap: &TxnSnapshot,
        cf: u16,
        start: &[u8],
        end: Option<&[u8]>,
    ) -> Result<Vec<(Vec<u8>, Vec<u8>)>> {
        loop {
            match self.e.scan_at(snap, cf, start, end) {
                Read::Done(v) => return Ok(v),
                Read::Need { layer, cf, name } => self.install(layer, cf, &name)?,
            }
        }
    }

    fn write_patch(&self, dir: &str, cf: u16, name: &str, bytes: &[u8]) -> Result<()> {
        self.disk.write(&format!("{}/{}/{}", dir, cf_dir_name(cf), name), bytes)
    }

    fn flush(&mut self) -> Result<Option<usize>> {
        match self.e.flush() {
            Some(p) => {
                self.perform_plan(p.wal)?;
                let mut job = p.job;
                loop {
                    match self.e.flush_step(&mut job) {
                        FlushStep::Write { cf, name, bytes } => {
                            self.write_patch("l2", cf, &name, &bytes)?
                        }
                        FlushStep::Done(n) => return Ok(Some(n)),
                        FlushStep::Failed(e) => return Err(e),
                    }
                }
            }
            None => Ok(None),
        }
    }

    fn flush_now(&mut self) -> Result<usize> {
        let p = self.e.flush_now();
        self.perform_plan(p.wal)?;
        let mut job = p.job;
        loop {
            match self.e.flush_step(&mut job) {
                FlushStep::Write { cf, name, bytes } => self.write_patch("l2", cf, &name, &bytes)?,
                FlushStep::Done(n) => return Ok(n),
                FlushStep::Failed(e) => return Err(e),
            }
        }
    }

    fn compact(&mut self, watermark: TxnId) -> Result<(usize, usize)> {
        let mut job = self.e.compact(watermark);
        loop {
            match self.e.compact_step(&mut job) {
                CompactTask::Read { cf, name } => self.install(Layer::L2, cf, &name)?,
                CompactTask::Write { cf, name, bytes } => self.write_patch("l3", cf, &name, &bytes)?,
                CompactTask::Drop { cf } => {
                    let dir = format!("l2/{}", cf_dir_name(cf));
                    for name in self.disk.list(&dir) {
                        self.disk.remove(&format!("{}/{}", dir, name));
                    }
                }
                CompactTask::Done { cfs, reclaimed } => return Ok((cfs, reclaimed)),
                CompactTask::Failed(e) => return Err(e),
            }
        }
    }

    fn checkpoint(&mut self) -> Result<()> {
        let p = self.e.checkpoint();
        self.perform_plan(p.wal)?;
        let mut job = p.job;
        loop {
            match self.e.checkpoint_step(&mut job) {
                CheckpointTask::WritePatch { cf, name, bytes } => {
                    self.write_patch("l2", cf, &name, &bytes)?
                }
                CheckpointTask::Wal(actions) => self.perform(actions),
                CheckpointTask::WriteState { name, bytes } => {
                    self.disk.write(&format!("checkpoints/{}", name), &bytes)?
                }
                CheckpointTask::WriteLatest { bytes } => self
                    .disk
                    .write(&format!("checkpoints/{}", CheckpointManager::latest_name()), &bytes)?,
                CheckpointTask::Truncate(pos) => self.truncate(pos)?,
                CheckpointTask::Done => return Ok(()),
                CheckpointTask::Failed(e) => return Err(e),
            }
        }
    }

    fn truncate(&mut self, pos: WalPosition) -> Result<()> {
        let names = self.disk.list("wal");
        for at in self.e.wal.truncate_before(pos, &names)? {
            self.disk.remove(&format!("wal/{}", names[at]));
        }
        Ok(())
    }

    fn snapshot(&mut self) -> TxnSnapshot {
        self.e.snapshot()
    }
}

fn some(v: &[u8]) -> Option<Vec<u8>> {
    Some(v.to_vec())
}

#[test]
fn put_get_commit() {
    let mut db = Db::open(&Disk::new()).unwrap();
    let txn = db.begin_txn().unwrap();
    db.put(0, b"k", b"v", txn).unwrap();
    db.commit(txn).unwrap();

    let v = db.get(0, b"k").unwrap();
    assert_eq!(v, Some(b"v".to_vec()));
}

#[test]
fn uncommitted_not_visible() {
    let mut db = Db::open(&Disk::new()).unwrap();
    let txn = db.begin_txn().unwrap();
    db.put(0, b"k", b"v", txn).unwrap();
    assert_eq!(db.get(0, b"k").unwrap(), None);
}

#[test]
fn ssi_write_write_conflict_detected() {
    let mut db = Db::open(&Disk::new()).unwrap();
    let t1 = db.begin_txn().unwrap();
    db.put(0, b"k", b"v1", t1).unwrap();

    let t2 = db.begin_txn().unwrap();
    db.put(0, b"k", b"v2", t2).unwrap();
    let result = db.commit(t2);
    assert!(result.is_err(), "a write-write conflict must be detected at commit");
    assert!(result.unwrap_err().to_text().contains("SSI conflict"));

    assert!(db.commit(t1).is_ok(), "t1 must commit after the conflicting t2 was aborted");
}

#[test]
fn ssi_no_conflict_when_disjoint_keys() {
    let mut db = Db::open(&Disk::new()).unwrap();
    let t1 = db.begin_txn().unwrap();
    db.put(0, b"a", b"v1", t1).unwrap();

    let t2 = db.begin_txn().unwrap();
    db.put(0, b"b", b"v2", t2).unwrap();
    db.commit(t2).unwrap();

    if let Err(e) = db.commit(t1) {
        panic!("disjoint keys must not conflict, got: {}", e.to_text());
    }
}

#[test]
fn ssi_rw_conflict_detected_via_get_for_txn() {
    let mut db = Db::open(&Disk::new()).unwrap();
    let t1 = db.begin_txn().unwrap();
    let _ = db.get_for_txn(0, b"k", t1).unwrap();

    let t2 = db.begin_txn().unwrap();
    db.put(0, b"k", b"v", t2).unwrap();
    let result = db.commit(t2);
    assert!(result.is_err(), "a read-write conflict must be detected at commit");
    assert!(result.unwrap_err().to_text().contains("SSI conflict"));

    assert!(db.commit(t1).is_ok());
}

#[test]
fn get_for_txn_uses_pinned_snapshot() {
    let mut db = Db::open(&Disk::new()).unwrap();
    let t1 = db.begin_txn().unwrap();
    assert_eq!(db.get_for_txn(0, b"a", t1).unwrap(), None);

    let t2 = db.begin_txn().unwrap();
    db.put(0, b"b", b"vb", t2).unwrap();
    db.commit(t2).unwrap();

    assert_eq!(
        db.get_for_txn(0, b"b", t1).unwrap(),
        None,
        "the pinned snapshot must hide commits made after begin"
    );
    assert_eq!(db.get(0, b"b").unwrap(), Some(b"vb".to_vec()));
    db.commit(t1).unwrap();
}

#[test]
fn get_for_txn_unknown_txn_errors() {
    let mut db = Db::open(&Disk::new()).unwrap();
    let err = db.get_for_txn(0, b"k", 9999).unwrap_err();
    assert!(matches!(err, Z1Error::TxnNotFound(9999)), "got {}", err.to_text());

    let t = db.begin_txn().unwrap();
    db.commit(t).unwrap();
    let err = db.get_for_txn(0, b"k", t).unwrap_err();
    assert!(matches!(err, Z1Error::TxnNotFound(_)));
}

#[test]
fn put_delete_unknown_txn_errors_immediately() {
    let mut db = Db::open(&Disk::new()).unwrap();
    let err = db.put(0, b"k", b"v", 9999).unwrap_err();
    assert!(matches!(err, Z1Error::TxnNotFound(9999)), "put: {}", err.to_text());
    let err = db.delete(0, b"k", 9999).unwrap_err();
    assert!(matches!(err, Z1Error::TxnNotFound(9999)), "delete: {}", err.to_text());
    let err = db.rollback(9999).unwrap_err();
    assert!(matches!(err, Z1Error::TxnNotFound(9999)), "rollback: {}", err.to_text());

    let t = db.begin_txn().unwrap();
    db.commit(t).unwrap();
    let err = db.put(0, b"k", b"v", t).unwrap_err();
    assert!(matches!(err, Z1Error::TxnNotFound(_)));
}

#[test]
fn commit_failure_cleans_pinned_snapshot() {
    let mut db = Db::open(&Disk::new()).unwrap();
    let t1 = db.begin_txn().unwrap();
    let _ = db.get_for_txn(0, b"k", t1).unwrap();

    let t2 = db.begin_txn().unwrap();
    db.put(0, b"k", b"v", t2).unwrap();
    assert!(db.commit(t2).is_err(), "t2 must fail with a conflict");

    let err = db.get_for_txn(0, b"other", t2).unwrap_err();
    assert!(matches!(err, Z1Error::TxnNotFound(_)), "got {}", err.to_text());

    assert_eq!(db.get_for_txn(0, b"k", t1).unwrap(), None);
    assert!(db.commit(t1).is_ok());
}

#[test]
fn auto_compact_respects_pinned_snapshot() {
    let config =
        Z1Config::default().with_l2_compaction_threshold(1).with_checkpoint_wal_size_threshold(0);
    let mut db = Db::open_with_config(&Disk::new(), config).unwrap();

    let t0 = db.begin_txn().unwrap();
    db.put(0, b"k", b"v1", t0).unwrap();
    db.commit(t0).unwrap();
    db.flush().unwrap();
    db.compact(u64::MAX).unwrap();

    let t1 = db.begin_txn().unwrap();
    assert_eq!(db.get_for_txn(0, b"o", t1).unwrap(), None);

    let t2 = db.begin_txn().unwrap();
    db.put(0, b"k", b"v2", t2).unwrap();
    db.commit(t2).unwrap();

    assert_eq!(
        db.get_for_txn(0, b"k", t1).unwrap(),
        Some(b"v1".to_vec()),
        "repeatable reads must survive an automatic compaction"
    );
    assert_eq!(db.get(0, b"k").unwrap(), Some(b"v2".to_vec()));
    db.commit(t1).unwrap();
}

#[test]
fn checkpoint_aborts_when_flush_fails_and_wal_survives() {
    let disk = Disk::new();
    let mut db = Db::open(&disk).unwrap();
    let t = db.begin_txn().unwrap();
    db.put(0, b"k", b"v", t).unwrap();
    db.commit(t).unwrap();

    *disk.broken.borrow_mut() = Some("l2".to_string());
    assert!(db.checkpoint().is_err(), "the checkpoint must end when the flush fails");

    let segments: Vec<Vec<u8>> =
        disk.list("wal").iter().map(|n| disk.read(&format!("wal/{}", n)).unwrap()).collect();
    let records = replay_all(&segments).unwrap();
    assert!(
        records.iter().any(|e| matches!(&e.record, WalRecord::Put { key, .. } if key == b"k")),
        "the WAL must keep the record"
    );
    assert!(!disk.has("checkpoints/_LATEST"), "no checkpoint may be written");

    // the version is still readable, and the next checkpoint works
    assert_eq!(db.get(0, b"k").unwrap(), Some(b"v".to_vec()));
    *disk.broken.borrow_mut() = None;
    let mut db2 = Db::open(&disk).unwrap();
    db2.checkpoint().unwrap();
    assert!(disk.has("checkpoints/_LATEST"));
}

#[test]
fn rollback_discards_writes() {
    let disk = Disk::new();
    {
        let mut db = Db::open(&disk).unwrap();
        let t = db.begin_txn().unwrap();
        db.put(0, b"k", b"v", t).unwrap();
        db.rollback(t).unwrap();

        assert_eq!(db.get(0, b"k").unwrap(), None);
        let err = db.put(0, b"k", b"v2", t).unwrap_err();
        assert!(matches!(err, Z1Error::TxnNotFound(_)));
    }
    let mut db2 = Db::open(&disk).unwrap();
    assert_eq!(db2.get(0, b"k").unwrap(), None, "rolled-back writes must stay discarded");
}

#[test]
fn opaque_keys_and_cf_boundaries() {
    let disk = Disk::new();
    let mut db = Db::open(&disk).unwrap();
    let keys: Vec<Vec<u8>> =
        vec![b"".to_vec(), vec![0x00], vec![0x00, 0xFF, 0x00], (0..=255u8).collect()];
    let txn = db.begin_txn().unwrap();
    for (i, k) in keys.iter().enumerate() {
        db.put(0, k, &[i as u8], txn).unwrap();
    }
    db.put(u16::MAX, b"max_cf", b"top", txn).unwrap();
    db.put(0, b"zero_cf", b"bottom", txn).unwrap();
    db.commit(txn).unwrap();

    for (i, k) in keys.iter().enumerate() {
        assert_eq!(db.get(0, k).unwrap(), Some(vec![i as u8]), "key {:?}", k);
    }
    assert_eq!(db.get(u16::MAX, b"max_cf").unwrap(), Some(b"top".to_vec()));
    assert_eq!(db.get(0, b"zero_cf").unwrap(), Some(b"bottom".to_vec()));
    assert_eq!(db.get(0, b"max_cf").unwrap(), None);

    let all = db.scan(0, b"", None).unwrap();
    assert_eq!(all.len(), keys.len() + 1, "an empty start takes in the empty key");

    drop(db);
    let mut db2 = Db::open(&disk).unwrap();
    assert_eq!(db2.get(0, &[0x00, 0xFF, 0x00]).unwrap(), Some(vec![2]));
    assert_eq!(db2.get(u16::MAX, b"max_cf").unwrap(), Some(b"top".to_vec()));
}

#[test]
fn strict_mode_e2e_reopen_with_corrupt_wal() {
    let disk = Disk::new();
    {
        let mut db = Db::open(&disk).unwrap();
        let t = db.begin_txn().unwrap();
        db.put(0, b"good", b"v", t).unwrap();
        db.commit(t).unwrap();
    }
    let mut bytes = disk.read("wal/wal.00000000").unwrap();
    let last = bytes.len() - 1;
    bytes[last] ^= 0xFF;
    disk.write("wal/wal.00000000", &bytes).unwrap();

    assert!(Db::open(&disk).is_err(), "a damaged record must abort the open");
    assert!(
        Db::open_with_config(&disk, Z1Config::default().with_strict_mode(false)).is_err(),
        "also without strict mode"
    );
}

#[test]
fn rolled_back_flushed_data_is_gc_collected() {
    let disk = Disk::new();
    let mut db = Db::open(&disk).unwrap();
    let t = db.begin_txn().unwrap();
    db.put(0, b"k", b"ghost", t).unwrap();
    db.flush_now().unwrap();
    db.rollback(t).unwrap();
    assert_eq!(db.get(0, b"k").unwrap(), None);

    db.compact(u64::MAX).unwrap();
    assert_eq!(db.get(0, b"k").unwrap(), None);

    drop(db);
    let mut db2 = Db::open(&disk).unwrap();
    assert_eq!(db2.get(0, b"k").unwrap(), None);
}

#[test]
fn delete_tombstones() {
    let mut db = Db::open(&Disk::new()).unwrap();
    let txn = db.begin_txn().unwrap();
    db.put(0, b"k", b"v", txn).unwrap();
    db.commit(txn).unwrap();
    assert_eq!(db.get(0, b"k").unwrap(), Some(b"v".to_vec()));

    let txn2 = db.begin_txn().unwrap();
    db.delete(0, b"k", txn2).unwrap();
    db.commit(txn2).unwrap();
    assert_eq!(db.get(0, b"k").unwrap(), None);
}

#[test]
fn mvcc_snapshot_isolation() {
    let mut db = Db::open(&Disk::new()).unwrap();
    let t1 = db.begin_txn().unwrap();
    db.put(0, b"k", b"v1", t1).unwrap();
    db.commit(t1).unwrap();

    let snap = db.snapshot();
    assert_eq!(db.get_at(&snap, 0, b"k").unwrap(), Some(b"v1".to_vec()));

    let t2 = db.begin_txn().unwrap();
    db.put(0, b"k", b"v2", t2).unwrap();
    assert_eq!(db.get_at(&snap, 0, b"k").unwrap(), Some(b"v1".to_vec()));

    db.commit(t2).unwrap();
    assert_eq!(db.get(0, b"k").unwrap(), Some(b"v2".to_vec()));
}

#[test]
fn reopen_recovers_from_wal() {
    let disk = Disk::new();
    {
        let mut db = Db::open(&disk).unwrap();
        let txn = db.begin_txn().unwrap();
        db.put(0, b"k", b"v", txn).unwrap();
        db.commit(txn).unwrap();
    }
    let mut db = Db::open(&disk).unwrap();
    assert_eq!(db.get(0, b"k").unwrap(), Some(b"v".to_vec()));
}

#[test]
fn checkpoint_then_reopen_recovers_via_checkpoint_baseline() {
    let disk = Disk::new();
    {
        let mut db = Db::open(&disk).unwrap();
        for i in 0..10u64 {
            let txn = db.begin_txn().unwrap();
            db.put(0, &i.to_le_bytes(), &i.to_string().into_bytes(), txn).unwrap();
            db.commit(txn).unwrap();
        }
        db.checkpoint().unwrap();
    }
    let mut db = Db::open(&disk).unwrap();
    for i in 0..10u64 {
        assert_eq!(
            db.get(0, &i.to_le_bytes()).unwrap(),
            Some(i.to_string().into_bytes()),
            "key {} must survive checkpoint and reopen",
            i
        );
    }
}

#[test]
fn reopen_does_not_duplicate_wal() {
    let disk = Disk::new();
    {
        let mut db = Db::open(&disk).unwrap();
        let txn = db.begin_txn().unwrap();
        db.put(0, b"k", b"v", txn).unwrap();
        db.commit(txn).unwrap();
    }
    let size_after_first = disk.wal_size();
    assert!(size_after_first > 0);
    for _ in 0..3 {
        let _db = Db::open(&disk).unwrap();
        assert_eq!(disk.wal_size(), size_after_first, "the WAL must not grow on reopen");
    }
}

#[test]
fn recovery_preserves_inserted_at_clock_and_watermark() {
    let disk = Disk::new();
    {
        let mut db = Db::open(&disk).unwrap();
        let txn = db.begin_txn().unwrap();
        db.put(0, b"k", b"v", txn).unwrap();
        db.commit(txn).unwrap();
    }
    let mut db = Db::open(&disk).unwrap();
    let (commit_ts, inserted_at) = db.e.committed_entry(1).expect("history must be recovered");
    assert_eq!(commit_ts, 1);
    let now = z1kv::codec::current_timestamp_millis(&mut db.e.mvcc.clock);
    assert!(
        inserted_at <= now && inserted_at > now - 60_000,
        "the insertion time must come from the WAL record, got {}",
        inserted_at
    );
    assert_eq!(db.e.replay_watermark(), inserted_at);
}

#[test]
fn scan_range_basic() {
    let mut db = Db::open(&Disk::new()).unwrap();
    for k in ["a", "b", "c", "d"] {
        let txn = db.begin_txn().unwrap();
        db.put(0, k.as_bytes(), format!("v_{k}").as_bytes(), txn).unwrap();
        db.commit(txn).unwrap();
    }
    let all = db.scan(0, b"a", None).unwrap();
    assert_eq!(all.len(), 4);
    assert_eq!(all[0].0, b"a".to_vec());
    assert_eq!(all[3].1, b"v_d".to_vec());

    let mid = db.scan(0, b"b", Some(b"d")).unwrap();
    assert_eq!(mid.len(), 2);
    assert_eq!(mid[0].0, b"b".to_vec());
    assert_eq!(mid[1].0, b"c".to_vec());
}

#[test]
fn scan_merges_layers_and_respects_tombstone() {
    let mut db = Db::open(&Disk::new()).unwrap();
    for k in ["a", "b", "c"] {
        let txn = db.begin_txn().unwrap();
        db.put(0, k.as_bytes(), format!("v_{k}").as_bytes(), txn).unwrap();
        db.commit(txn).unwrap();
    }
    db.flush().unwrap();

    let txn = db.begin_txn().unwrap();
    db.delete(0, b"b", txn).unwrap();
    db.commit(txn).unwrap();

    let out = db.scan(0, b"a", None).unwrap();
    let keys: Vec<Vec<u8>> = out.iter().map(|(k, _)| k.clone()).collect();
    assert_eq!(keys, vec![b"a".to_vec(), b"c".to_vec()], "b must be deleted");
    assert_eq!(out[0].1, b"v_a".to_vec());
    assert_eq!(out[1].1, b"v_c".to_vec());
}

#[test]
fn scan_snapshot_isolation() {
    let mut db = Db::open(&Disk::new()).unwrap();
    let t1 = db.begin_txn().unwrap();
    db.put(0, b"a", b"v1", t1).unwrap();
    db.commit(t1).unwrap();

    let snap = db.snapshot();
    let t2 = db.begin_txn().unwrap();
    db.put(0, b"b", b"v2", t2).unwrap();
    db.commit(t2).unwrap();

    assert_eq!(db.scan(0, b"a", None).unwrap().len(), 2);
    assert_eq!(db.scan_at(&snap, 0, b"a", None).unwrap().len(), 1);
}

#[test]
fn scan_cf_isolation() {
    let mut db = Db::open(&Disk::new()).unwrap();
    let txn = db.begin_txn().unwrap();
    db.put(0, b"k", b"cf0", txn).unwrap();
    db.put(1, b"k", b"cf1", txn).unwrap();
    db.commit(txn).unwrap();

    assert_eq!(db.scan(0, b"k", None).unwrap()[0].1, b"cf0".to_vec());
    assert_eq!(db.scan(1, b"k", None).unwrap()[0].1, b"cf1".to_vec());
}

#[test]
fn auto_maintain_triggers_checkpoint_and_compaction() {
    let disk = Disk::new();
    let config =
        Z1Config::default().with_checkpoint_wal_size_threshold(1).with_l2_compaction_threshold(1);
    {
        let mut db = Db::open_with_config(&disk, config).unwrap();
        for i in 0..5u64 {
            let txn = db.begin_txn().unwrap();
            db.put(0, &i.to_le_bytes(), &i.to_string().into_bytes(), txn).unwrap();
            db.commit(txn).unwrap();
        }
    }
    assert!(disk.has("checkpoints/_LATEST"), "the automatic checkpoint must have run");

    let mut db = Db::open(&disk).unwrap();
    for i in 0..5u64 {
        assert_eq!(
            db.get(0, &i.to_le_bytes()).unwrap(),
            Some(i.to_string().into_bytes()),
            "key {} must survive",
            i
        );
    }
}

#[test]
fn auto_maintain_disabled_with_zero_threshold() {
    let disk = Disk::new();
    let config =
        Z1Config::default().with_checkpoint_wal_size_threshold(0).with_l2_compaction_threshold(0);
    {
        let mut db = Db::open_with_config(&disk, config).unwrap();
        let txn = db.begin_txn().unwrap();
        db.put(0, b"k", b"v", txn).unwrap();
        db.commit(txn).unwrap();
    }
    assert!(!disk.has("checkpoints/_LATEST"), "a threshold of 0 disables the checkpoint");
}

#[test]
fn commit_then_crash_recovers() {
    let disk = Disk::new();
    {
        let mut db = Db::open(&disk).unwrap();
        let txn = db.begin_txn().unwrap();
        db.put(0, b"k", b"v", txn).unwrap();
        db.commit(txn).unwrap();
    }
    let mut db = Db::open(&disk).unwrap();
    assert_eq!(db.get(0, b"k").unwrap(), Some(b"v".to_vec()));
}

#[test]
fn many_commits_then_crash_recovers_all() {
    let disk = Disk::new();
    {
        let mut db = Db::open(&disk).unwrap();
        for i in 0..100u64 {
            let txn = db.begin_txn().unwrap();
            db.put(0, &i.to_le_bytes(), &i.to_string().into_bytes(), txn).unwrap();
            db.commit(txn).unwrap();
        }
    }
    let mut db = Db::open(&disk).unwrap();
    for i in 0..100u64 {
        assert_eq!(
            db.get(0, &i.to_le_bytes()).unwrap(),
            Some(i.to_string().into_bytes()),
            "key {} must survive a crash",
            i
        );
    }
}

#[test]
fn uncommitted_discarded_on_crash() {
    let disk = Disk::new();
    {
        let mut db = Db::open(&disk).unwrap();
        let txn = db.begin_txn().unwrap();
        db.put(0, b"k", b"v", txn).unwrap();
    }
    let mut db = Db::open(&disk).unwrap();
    assert_eq!(db.get(0, b"k").unwrap(), None);
}

#[test]
fn delete_then_crash_stays_deleted() {
    let disk = Disk::new();
    {
        let mut db = Db::open(&disk).unwrap();
        let txn = db.begin_txn().unwrap();
        db.put(0, b"k", b"v", txn).unwrap();
        db.commit(txn).unwrap();
        let txn2 = db.begin_txn().unwrap();
        db.delete(0, b"k", txn2).unwrap();
        db.commit(txn2).unwrap();
    }
    let mut db = Db::open(&disk).unwrap();
    assert_eq!(db.get(0, b"k").unwrap(), None);
}

#[test]
fn multi_cf_crash_recovers() {
    let disk = Disk::new();
    {
        let mut db = Db::open(&disk).unwrap();
        let txn = db.begin_txn().unwrap();
        db.put(0, b"k", b"cf0", txn).unwrap();
        db.put(1, b"k", b"cf1", txn).unwrap();
        db.commit(txn).unwrap();
    }
    let mut db = Db::open(&disk).unwrap();
    assert_eq!(db.get(0, b"k").unwrap(), Some(b"cf0".to_vec()));
    assert_eq!(db.get(1, b"k").unwrap(), Some(b"cf1".to_vec()));
}

#[test]
fn flush_then_crash_recovers() {
    let disk = Disk::new();
    {
        let mut db = Db::open(&disk).unwrap();
        let txn = db.begin_txn().unwrap();
        db.put(0, b"k", b"v", txn).unwrap();
        db.commit(txn).unwrap();
        db.flush_now().unwrap();
    }
    let mut db = Db::open(&disk).unwrap();
    assert_eq!(db.get(0, b"k").unwrap(), Some(b"v".to_vec()));
}

#[test]
fn reopen_then_flush_does_not_overwrite_existing_patches() {
    let disk = Disk::new();
    {
        let mut db = Db::open(&disk).unwrap();
        let t = db.begin_txn().unwrap();
        db.put(0, b"aaa", b"batch1", t).unwrap();
        db.commit(t).unwrap();
        db.checkpoint().unwrap();
    }
    let mut db = Db::open(&disk).unwrap();
    assert_eq!(db.get(0, b"aaa").unwrap(), Some(b"batch1".to_vec()));

    let t = db.begin_txn().unwrap();
    db.put(0, b"zzz", b"batch2", t).unwrap();
    db.commit(t).unwrap();
    db.checkpoint().unwrap();

    assert_eq!(db.get(0, b"aaa").unwrap(), Some(b"batch1".to_vec()));
    assert_eq!(db.get(0, b"zzz").unwrap(), Some(b"batch2".to_vec()));

    let ids = patch_ids(&disk.list("l2/0000"));
    assert_eq!(ids, vec![1, 2], "the second flush must take a fresh patch number");
}

#[test]
fn reopen_after_checkpoint_then_flush_preserves_l2_data() {
    let disk = Disk::new();
    {
        let mut db = Db::open(&disk).unwrap();
        let t = db.begin_txn().unwrap();
        db.put(0, b"old_key", b"old_value", t).unwrap();
        db.commit(t).unwrap();
        db.flush().unwrap();
        db.checkpoint().unwrap();
    }
    let mut db = Db::open(&disk).unwrap();
    let t = db.begin_txn().unwrap();
    db.put(0, b"new_key", b"new_value", t).unwrap();
    db.commit(t).unwrap();
    db.checkpoint().unwrap();

    assert_eq!(db.get(0, b"old_key").unwrap(), Some(b"old_value".to_vec()));
    assert_eq!(db.get(0, b"new_key").unwrap(), Some(b"new_value".to_vec()));
}

#[test]
fn stress_commit_crash_consistency() {
    let disk = Disk::new();
    {
        let mut db = Db::open(&disk).unwrap();
        for i in 0..1000u64 {
            let txn = db.begin_txn().unwrap();
            let key = (i % 50).to_le_bytes();
            db.put(0, &key, &i.to_le_bytes(), txn).unwrap();
            db.commit(txn).unwrap();
            if i % 200 == 0 {
                let _ = db.flush().unwrap();
            }
        }
    }
    let mut db = Db::open(&disk).unwrap();
    for k in 0..50u64 {
        let v = db.get(0, &k.to_le_bytes()).unwrap().expect("key must exist after crash");
        assert_eq!(v.len(), 8);
        let stored = u64::from_le_bytes(v.try_into().unwrap());
        let expected = (0..1000u64).rev().find(|&t| t % 50 == k).unwrap();
        assert_eq!(stored, expected, "key {} must hold the latest committed value", k);
    }
}

#[test]
fn readme_quickstart_example() {
    let mut db = Db::open(&Disk::new()).unwrap();
    let txn = db.begin_txn().unwrap();
    db.put(0, b"greeting", b"hello", txn).unwrap();
    db.commit(txn).unwrap();
    assert_eq!(db.get(0, b"greeting").unwrap(), Some(b"hello".to_vec()));

    let t1 = db.begin_txn().unwrap();
    assert_eq!(db.get_for_txn(0, b"greeting", t1).unwrap(), Some(b"hello".to_vec()));
    db.commit(t1).unwrap();

    let t2 = db.begin_txn().unwrap();
    db.delete(0, b"greeting", t2).unwrap();
    db.commit(t2).unwrap();
    assert_eq!(db.get(0, b"greeting").unwrap(), None);

    let rows = db.scan(0, b"a", Some(b"z")).unwrap();
    assert_eq!(rows.len(), 0);

    db.flush_now().unwrap();
    db.checkpoint().unwrap();
    let (cfs, _reclaimed) = db.compact(u64::MAX).unwrap();
    assert_eq!(cfs, 1);
}

#[test]
fn wal_truncate_matrix_prefix_consistency() {
    let disk = Disk::new();
    let n = 3u64;
    {
        let mut db = Db::open(&disk).unwrap();
        for i in 0..n {
            let t = db.begin_txn().unwrap();
            db.put(0, format!("k_{}", i).as_bytes(), &i.to_le_bytes(), t).unwrap();
            db.commit(t).unwrap();
        }
    }
    let full = disk.read("wal/wal.00000000").unwrap();
    assert!(full.len() > 16, "the WAL must have substance");

    for cut in (0..full.len()).rev() {
        let cut_disk = Disk::new();
        cut_disk.write("wal/wal.00000000", &full[..cut]).unwrap();
        if let Ok(mut db) = Db::open(&cut_disk) {
            let mut m: i64 = -1;
            for i in 0..n {
                let v = db.get(0, format!("k_{}", i).as_bytes()).unwrap();
                if v == Some(i.to_le_bytes().to_vec()) {
                    assert_eq!(m, i as i64 - 1, "cut={}: k_{} out of order", cut, i);
                    m = i as i64;
                } else {
                    assert!(v.is_none(), "cut={}: k_{} must be absent", cut, i);
                    break;
                }
            }
        }
    }
}

#[test]
fn wal_multi_segment_truncate_matrix() {
    let disk = Disk::new();
    let n = 6u64;
    {
        let mut db = Db::open(&disk).unwrap();
        for i in 0..n {
            let t = db.begin_txn().unwrap();
            db.put(0, format!("k_{}", i).as_bytes(), &i.to_le_bytes(), t).unwrap();
            db.commit(t).unwrap();
            if i == 2 {
                db.checkpoint().unwrap();
            }
        }
    }
    let full = disk.read("wal/wal.00000000").unwrap();
    assert!(full.len() > 16);

    for cut in (0..full.len()).rev().step_by(7.max(full.len() / 40)) {
        let cut_disk = Disk::new();
        cut_disk.write("wal/wal.00000000", &full[..cut]).unwrap();
        if let Ok(mut db) = Db::open(&cut_disk) {
            let mut m: i64 = -1;
            for i in 0..n {
                let v = db.get(0, format!("k_{}", i).as_bytes()).unwrap();
                if v == Some(i.to_le_bytes().to_vec()) {
                    assert_eq!(m, i as i64 - 1, "cut={}", cut);
                    m = i as i64;
                } else {
                    break;
                }
            }
        }
    }
}

#[test]
fn checkpoint_flip_matrix() {
    let disk = Disk::new();
    {
        let mut db = Db::open(&disk).unwrap();
        for i in 0..3u64 {
            let t = db.begin_txn().unwrap();
            db.put(0, format!("ck_{}", i).as_bytes(), &i.to_le_bytes(), t).unwrap();
            db.commit(t).unwrap();
        }
        db.checkpoint().unwrap();
    }
    let full = disk.read("checkpoints/ckpt_0000000000000003.bin").unwrap();
    let latest = 3u64.to_le_bytes().to_vec();
    assert_eq!(disk.read("checkpoints/_LATEST").unwrap(), latest);
    assert!(CheckpointManager::load_latest(Some(&latest), Some(&full)).is_some());
    for pos in 0..full.len() {
        let mut flipped = full.clone();
        flipped[pos] ^= 0xFF;
        assert!(
            CheckpointManager::load_latest(Some(&latest), Some(&flipped)).is_none(),
            "flip at {}",
            pos
        );
    }
}

#[test]
fn wal_flip_matrix_error_classification() {
    let disk = Disk::new();
    {
        let mut db = Db::open(&disk).unwrap();
        for i in 0..6u64 {
            let t = db.begin_txn().unwrap();
            db.put(0, format!("k_{}", i).as_bytes(), &i.to_le_bytes(), t).unwrap();
            db.commit(t).unwrap();
        }
    }
    let full = disk.read("wal/wal.00000000").unwrap();
    let len = full.len();
    let stride = (len / 24).max(1);
    for pos in (0..len).step_by(stride) {
        let mut flipped = full.clone();
        flipped[pos] ^= 0xFF;
        let flip_disk = Disk::new();
        flip_disk.write("wal/wal.00000000", &flipped).unwrap();
        if let Ok(mut db) = Db::open(&flip_disk) {
            let mut seen_break = false;
            for i in 0..6u64 {
                let v = db.get(0, format!("k_{}", i).as_bytes()).unwrap();
                if seen_break {
                    assert!(v.is_none(), "flip at {}: k_{} visible after a gap", pos, i);
                } else if v != Some(i.to_le_bytes().to_vec()) {
                    seen_break = true;
                }
            }
        }
    }
}

#[test]
fn patch_flip_matrix() {
    let disk = Disk::new();
    {
        let mut db = Db::open(&disk).unwrap();
        let t = db.begin_txn().unwrap();
        db.put(0, b"pk", b"pv", t).unwrap();
        db.commit(t).unwrap();
        db.flush_now().unwrap();
    }
    let names = disk.list("l2/0000");
    assert!(!names.is_empty(), "at least one patch must exist");
    let full = disk.read(&format!("l2/0000/{}", names[0])).unwrap();
    assert!(full.len() > 18, "a patch has a header and a payload");
    for pos in 0..full.len() {
        let mut flipped = full.clone();
        flipped[pos] ^= 0xFF;
        assert!(Z1PatchFormatV4::from_disk_bytes(&flipped).is_err(), "flip at {}", pos);
    }
}

/// A reopened log goes on after its last whole record, also where the write
/// of another one broke off.
#[test]
fn reopened_log_goes_on_after_a_torn_tail() {
    let disk = Disk::new();
    {
        let mut db = Db::open(&disk).unwrap();
        let t = db.begin_txn().unwrap();
        db.put(0, b"a", b"1", t).unwrap();
        db.commit(t).unwrap();
        let t = db.begin_txn().unwrap();
        db.put(0, b"b", b"2", t).unwrap();
    }
    let full = disk.read("wal/wal.00000000").unwrap();
    disk.write("wal/wal.00000000", &full[..full.len() - 3]).unwrap();
    {
        let mut db = Db::open(&disk).unwrap();
        assert_eq!(db.get(0, b"a").unwrap(), some(b"1"));
        assert_eq!(db.get(0, b"b").unwrap(), None);
        let t = db.begin_txn().unwrap();
        assert_eq!(t, 2);
        db.put(0, b"c", b"3", t).unwrap();
        db.commit(t).unwrap();
    }
    let mut db = Db::open(&disk).unwrap();
    assert_eq!(db.get(0, b"a").unwrap(), some(b"1"));
    assert_eq!(db.get(0, b"b").unwrap(), None);
    assert_eq!(db.get(0, b"c").unwrap(), some(b"3"));
}

/// A pinned snapshot keeps what it sees when a transaction that was active at
/// its begin commits and the versions are compacted.
#[test]
fn pinned_snapshot_survives_compaction_of_concurrent_commit() {
    let mut db = Db::open(&Disk::new()).unwrap();
    let t1 = db.begin_txn().unwrap();
    db.put(0, b"k", b"old", t1).unwrap();
    db.commit(t1).unwrap();

    let writer = db.begin_txn().unwrap();
    let reader = db.begin_txn().unwrap();
    assert!(writer < reader);
    db.put(0, b"k", b"new", writer).unwrap();
    db.commit(writer).unwrap();
    db.flush_now().unwrap();

    let watermark = db.e.gc_watermark();
    assert_eq!(watermark, writer);
    db.compact(watermark).unwrap();
    assert_eq!(db.get_for_txn(0, b"k", reader).unwrap(), some(b"old"));
    assert_eq!(db.get(0, b"k").unwrap(), some(b"new"));
}

/// A compaction at the oldest begin, or at no limit, keeps what an active
/// transaction has pinned all the same.
#[test]
fn pinned_snapshot_survives_any_watermark() {
    for watermark in [3, u64::MAX] {
        let mut db = Db::open(&Disk::new()).unwrap();
        assert_eq!(db.begin_txn().unwrap(), 1);
        db.put(0, b"k", b"v1", 1).unwrap();
        db.commit(1).unwrap();
        assert_eq!(db.begin_txn().unwrap(), 2);
        assert_eq!(db.begin_txn().unwrap(), 3);
        db.put(0, b"k", b"v2", 2).unwrap();
        db.commit(2).unwrap();
        db.flush_now().unwrap();
        db.flush_now().unwrap();
        assert_eq!(db.e.compact(watermark).watermark, 2);
        db.compact(watermark).unwrap();
        assert_eq!(db.get_for_txn(0, b"k", 3).unwrap(), some(b"v1"));
        assert_eq!(db.get(0, b"k").unwrap(), some(b"v2"));
    }
}

/// What a transaction that was rolled back has left on disk hides nothing from
/// GC: the committed version below it stays.
#[test]
fn rolled_back_version_does_not_displace_a_committed_one() {
    let disk = Disk::new();
    let mut db = Db::open(&disk).unwrap();
    let t1 = db.begin_txn().unwrap();
    db.put(0, b"k", b"v1", t1).unwrap();
    db.commit(t1).unwrap();
    let t2 = db.begin_txn().unwrap();
    db.put(0, b"k", b"v2", t2).unwrap();
    db.flush_now().unwrap();
    db.rollback(t2).unwrap();
    assert_eq!(db.e.gc_watermark(), u64::MAX);
    db.compact(u64::MAX).unwrap();
    assert_eq!(db.get(0, b"k").unwrap(), some(b"v1"));

    drop(db);
    let mut db = Db::open(&disk).unwrap();
    assert_eq!(db.get(0, b"k").unwrap(), some(b"v1"));
    // a later commit hides both
    let t3 = db.begin_txn().unwrap();
    db.put(0, b"k", b"v3", t3).unwrap();
    db.commit(t3).unwrap();
    assert_eq!(db.get(0, b"k").unwrap(), some(b"v3"));
}

/// A transaction that begins while a compaction is under way keeps what it
/// sees.
#[test]
fn transaction_begun_during_a_compaction_is_respected() {
    let mut db = Db::open(&Disk::new()).unwrap();
    let t1 = db.begin_txn().unwrap();
    db.put(0, b"k", b"v1", t1).unwrap();
    db.commit(t1).unwrap();
    db.flush_now().unwrap();
    let mut job = db.e.compact(u64::MAX);
    assert_eq!(job.watermark, u64::MAX);
    let reader = db.begin_txn().unwrap();
    let writer = db.begin_txn().unwrap();
    db.put(0, b"k", b"v2", writer).unwrap();
    db.commit(writer).unwrap();
    db.flush_now().unwrap();
    let _ = db.e.compact_step(&mut job);
    assert_eq!(job.watermark, reader);
    drop(job);
    db.compact(u64::MAX).unwrap();
    assert_eq!(db.get_for_txn(0, b"k", reader).unwrap(), some(b"v1"));
}

#[test]
fn compaction_keeps_the_newest_version_of_every_key() {
    let mut db = Db::open(&Disk::new()).unwrap();
    for v in [b"1", b"2", b"3"] {
        let t = db.begin_txn().unwrap();
        db.put(0, b"k", v, t).unwrap();
        db.commit(t).unwrap();
        db.flush_now().unwrap();
    }
    assert_eq!(db.e.gc_watermark(), u64::MAX);
    assert_eq!(db.compact(u64::MAX).unwrap(), (1, 2));
    assert_eq!(db.get(0, b"k").unwrap(), some(b"3"));
    assert_eq!(db.compact(u64::MAX).unwrap(), (0, 0));
}

/// The values that a scan lists are those that point reads give.
#[test]
fn scan_agrees_with_point_reads() {
    let mut db = Db::open(&Disk::new()).unwrap();
    for (i, k) in ["a", "b", "c", "d", "e"].iter().enumerate() {
        let t = db.begin_txn().unwrap();
        db.put(0, k.as_bytes(), &[i as u8], t).unwrap();
        db.commit(t).unwrap();
        if i % 2 == 0 {
            db.flush_now().unwrap();
        }
    }
    db.compact(u64::MAX).unwrap();
    let t = db.begin_txn().unwrap();
    db.delete(0, b"b", t).unwrap();
    db.put(0, b"c", b"new", t).unwrap();
    db.commit(t).unwrap();
    let rows = db.scan(0, b"a", Some(b"e")).unwrap();
    assert_eq!(
        rows,
        vec![
            (b"a".to_vec(), vec![0]),
            (b"c".to_vec(), b"new".to_vec()),
            (b"d".to_vec(), vec![3]),
        ]
    );
    for k in ["a", "b", "c", "d"] {
        let listed = rows.iter().find(|(key, _)| key == k.as_bytes()).map(|(_, v)| v.clone());
        assert_eq!(db.get(0, k.as_bytes()).unwrap(), listed);
    }
}

/// Of two visible versions a scan takes the newer, also where the newest
/// version in a patch is not visible.
#[test]
fn scan_looks_past_an_invisible_version_in_a_patch() {
    let mut db = Db::open(&Disk::new()).unwrap();
    let t1 = db.begin_txn().unwrap();
    db.put(0, b"k", b"v1", t1).unwrap();
    db.commit(t1).unwrap();
    let snap = db.snapshot();
    let t2 = db.begin_txn().unwrap();
    db.put(0, b"k", b"v2", t2).unwrap();
    db.commit(t2).unwrap();
    db.flush_now().unwrap();
    db.flush_now().unwrap();
    assert_eq!(db.scan_at(&snap, 0, b"", None).unwrap(), vec![(b"k".to_vec(), b"v1".to_vec())]);
    assert_eq!(db.get_at(&snap, 0, b"k").unwrap(), some(b"v1"));
    assert_eq!(db.scan(0, b"", None).unwrap(), vec![(b"k".to_vec(), b"v2".to_vec())]);
}

#[test]
fn oversized_value_is_refused_at_put() {
    let disk = Disk::new();
    let mut db = Db::open(&disk).unwrap();
    let t = db.begin_txn().unwrap();
    let size = disk.wal_size();
    let err = db.put(0, b"k", &vec![0u8; 64 * 1024 * 1024], t).unwrap_err();
    assert!(matches!(&err, Z1Error::Serialization(m) if m.starts_with("WAL record too large: ")));
    assert_eq!(disk.wal_size(), size);
    db.put(0, b"k", b"small", t).unwrap();
    db.commit(t).unwrap();
    assert_eq!(db.get(0, b"k").unwrap(), some(b"small"));
}

#[test]
fn begin_gives_up_ids_below_the_committed_ones() {
    let mut db = Db::open(&Disk::new()).unwrap();
    db.e.mvcc.set_committed_txn(5);
    assert_eq!(db.begin_txn().unwrap(), 6);

    db.e.mvcc.set_committed_txn(100);
    let err = db.begin_txn().unwrap_err();
    assert_eq!(
        err.to_text(),
        "Internal error: begin_txn failed: MVCC conflict: transaction 22 already committed"
    );
    assert_eq!(db.e.txn_counter, 23);

    db.e.txn_counter = u64::MAX;
    let err = db.begin_txn().unwrap_err();
    assert!(matches!(&err, Z1Error::Internal(m) if m == "transaction ID counter overflow"));

    db.e.txn_counter = 6;
    db.e.mvcc.set_committed_txn(0);
    let err = db.begin_txn().unwrap_err();
    assert!(matches!(
        &err,
        Z1Error::Internal(m) if m == "begin_txn failed: MVCC conflict: transaction 6 already active"
    ));
}

#[test]
fn flush_is_a_no_op_below_the_threshold() {
    let disk = Disk::new();
    let mut db = Db::open(&disk).unwrap();
    let t = db.begin_txn().unwrap();
    db.put(0, b"k", b"v", t).unwrap();
    db.commit(t).unwrap();
    assert_eq!(db.flush().unwrap(), None);
    assert!(disk.list("l2").is_empty());
    db.e.store.l1.flush_threshold = 1;
    assert_eq!(db.flush().unwrap(), Some(1));
    assert_eq!(disk.list("l2/0000"), vec!["0000000000000001.zpatch".to_string()]);
}

/// A flush that fails leaves its versions readable, and the next one writes
/// them.
#[test]
fn failed_flush_is_made_up_for() {
    let disk = Disk::new();
    let mut db = Db::open(&disk).unwrap();
    let t = db.begin_txn().unwrap();
    db.put(0, b"a", b"1", t).unwrap();
    db.put(1, b"b", b"2", t).unwrap();
    db.commit(t).unwrap();
    *disk.broken.borrow_mut() = Some("l2/0001".to_string());
    assert!(db.flush_now().is_err());
    assert_eq!(db.get(0, b"a").unwrap(), some(b"1"));
    assert_eq!(db.get(1, b"b").unwrap(), some(b"2"));
    *disk.broken.borrow_mut() = None;
    assert_eq!(db.flush_now().unwrap(), 2);
    assert_eq!(db.e.store.recent_flush.get_all().len(), 0);
    assert_eq!(db.get(0, b"a").unwrap(), some(b"1"));
    assert_eq!(db.get(1, b"b").unwrap(), some(b"2"));
}

#[test]
fn checkpoint_goes_through_its_stages() {
    let mut db = Db::open(&Disk::new()).unwrap();
    let t = db.begin_txn().unwrap();
    db.put(0, b"k", b"v", t).unwrap();
    db.commit(t).unwrap();
    let p = db.e.checkpoint();
    assert!(matches!(p.wal.actions[0], WalAction::Sync { to_disk: true }));
    let mut job = p.job;
    let mut seen: Vec<&str> = Vec::new();
    loop {
        let step = db.e.checkpoint_step(&mut job);
        seen.push(match &step {
            CheckpointTask::WritePatch { .. } => "patch",
            CheckpointTask::Wal(_) => "wal",
            CheckpointTask::WriteState { .. } => "state",
            CheckpointTask::WriteLatest { .. } => "latest",
            CheckpointTask::Truncate(_) => "truncate",
            CheckpointTask::Done => "done",
            CheckpointTask::Failed(_) => "failed",
        });
        match step {
            CheckpointTask::Done | CheckpointTask::Failed(_) => break,
            _ => {}
        }
    }
    assert_eq!(seen, vec!["patch", "wal", "state", "latest", "wal", "truncate", "done"]);
    assert_eq!(job.stage, CheckpointStage::Done);
}

#[test]
fn conflict_keys_stand_in_key_order() {
    assert_eq!(conflict_key(0x0102, b"k"), vec![1, 2, b'k']);
    assert!(conflict_key(1, b"z") < conflict_key(2, b"a"));
    assert!(conflict_key(1, b"a") < conflict_key(1, b"b"));
    assert_ne!(conflict_key(1, b"a"), conflict_key(2, b"a"));
}

#[test]
fn open_refuses_used_up_patch_numbers() {
    let disk = Disk::new();
    {
        let mut db = Db::open(&disk).unwrap();
        let t = db.begin_txn().unwrap();
        db.put(0, b"k", b"v", t).unwrap();
        db.commit(t).unwrap();
        db.flush_now().unwrap();
    }
    let bytes = disk.read("l2/0000/0000000000000001.zpatch").unwrap();
    disk.write("l2/0000/18446744073709551615.zpatch", &bytes).unwrap();
    let err = match Db::open(&disk) {
        Err(e) => e,
        Ok(_) => panic!("the open must fail"),
    };
    assert!(matches!(&err, Z1Error::Internal(m) if m == "patch numbers are used up"));
}

#[test]
fn unreadable_wal_is_reported_on_open() {
    let disk = Disk::new();
    disk.write("wal/wal.00000000", &[0xFF; 16]).unwrap();
    let err = match Db::open(&disk) {
        Err(e) => e,
        Ok(_) => panic!("the open must fail"),
    };
    assert_eq!(
        err.to_text(),
        "WAL error: recovery failed: WAL replay error (fatal (WAL reader): Deserialization error: \
         WAL record length 4294967295 exceeds limit 67108864 (corrupt or hostile file)): 0"
    );
}

#[test]
fn accessors_give_what_the_engine_was_opened_with() {
    let config = Z1Config::default()
        .with_visibility(VisibilityConfig::default().with_max_history_entries(7));
    let db = Db::open_with_config(&Disk::new(), config).unwrap();
    assert_eq!(db.e.data_dir(), "db");
    assert_eq!(db.e.config().visibility.max_history_entries, 7);
    assert!(db.e.config().strict_mode);
    assert_eq!(db.e.committed_entry(1), None);
    assert_eq!(db.e.replay_watermark(), 0);
    assert_eq!(db.e.wal.config.wal_dir, "db/wal");
}

/// A read that needs a patch file which has vanished goes on without it.
#[test]
fn vanished_patch_file_is_passed_over() {
    let disk = Disk::new();
    let mut db = Db::open(&disk).unwrap();
    let t = db.begin_txn().unwrap();
    db.put(0, b"k", b"v", t).unwrap();
    db.commit(t).unwrap();
    db.flush_now().unwrap();
    db.flush_now().unwrap();
    disk.remove("l2/0000/0000000000000001.zpatch");
    assert_eq!(db.get(0, b"k").unwrap(), None);
    match db.e.get(0, b"k") {
        Read::Done(v) => assert_eq!(v, None),
        Read::Need { .. } => panic!("the patch must have left the index"),
    }
}

/// A commit that is refused for a conflict leaves nothing in the log: after a
/// crash its writes are not there.
#[test]
fn refused_commit_is_discarded_after_a_crash() {
    let disk = Disk::new();
    {
        let mut db = Db::open(&disk).unwrap();
        let t1 = db.begin_txn().unwrap();
        db.put(0, b"k", b"v1", t1).unwrap();
        let t2 = db.begin_txn().unwrap();
        db.put(0, b"k", b"v2", t2).unwrap();
        assert!(db.commit(t2).is_err());
        assert_eq!(db.get(0, b"k").unwrap(), None);
    }
    let mut db = Db::open(&disk).unwrap();
    assert_eq!(db.get(0, b"k").unwrap(), None, "a refused commit must not come back");
}

/// What a transaction that never committed has left in L2 is not taken for
/// that of a transaction begun after a restart.
#[test]
fn flushed_leftovers_stay_invisible_after_a_restart() {
    let disk = Disk::new();
    let left;
    {
        let mut db = Db::open(&disk).unwrap();
        left = db.begin_txn().unwrap();
        db.put(0, b"k", b"ghost", left).unwrap();
        db.flush_now().unwrap();
        db.checkpoint().unwrap();
    }
    let mut db = Db::open(&disk).unwrap();
    let t = db.begin_txn().unwrap();
    assert!(t > left, "the id {} must not be used again", left);
    db.put(0, b"other", b"v", t).unwrap();
    db.commit(t).unwrap();
    assert_eq!(db.get(0, b"k").unwrap(), None);
    assert_eq!(db.get(0, b"other").unwrap(), some(b"v"));
}

/// A checkpoint may move the writes of a transaction to L2 and truncate the
/// log before the transaction commits; the commit survives all the same.
#[test]
fn commit_after_a_checkpoint_survives_a_crash() {
    let disk = Disk::new();
    {
        let mut db = Db::open(&disk).unwrap();
        db.e.wal.config.max_file_size = 1;
        let t = db.begin_txn().unwrap();
        db.put(0, b"k", b"v", t).unwrap();
        db.checkpoint().unwrap();
        assert!(!disk.has("wal/wal.00000000"), "the log must have been truncated");
        db.commit(t).unwrap();
        assert_eq!(db.get(0, b"k").unwrap(), some(b"v"));
    }
    let mut db = Db::open(&disk).unwrap();
    assert_eq!(db.get(0, b"k").unwrap(), some(b"v"));
}

/// What has ended stays refused, and the others go on.
#[test]
fn finished_transactions_stay_refused() {
    let mut db = Db::open(&Disk::new()).unwrap();
    let done = db.begin_txn().unwrap();
    let undone = db.begin_txn().unwrap();
    let other = db.begin_txn().unwrap();
    db.put(0, b"a", b"1", done).unwrap();
    db.commit(done).unwrap();
    db.rollback(undone).unwrap();
    for _ in 0..3 {
        let t = db.begin_txn().unwrap();
        db.commit(t).unwrap();
    }
    for t in [done, undone] {
        assert!(matches!(db.put(0, b"k", b"v", t), Err(Z1Error::TxnNotFound(x)) if x == t));
        assert!(matches!(db.commit(t), Err(Z1Error::TxnNotFound(x)) if x == t));
        assert!(matches!(db.rollback(t), Err(Z1Error::TxnNotFound(x)) if x == t));
        assert!(matches!(db.get_for_txn(0, b"k", t), Err(Z1Error::TxnNotFound(x)) if x == t));
    }
    assert_eq!(db.get_for_txn(0, b"a", other).unwrap(), None);
    db.put(0, b"b", b"2", other).unwrap();
    db.commit(other).unwrap();
    assert_eq!(db.get(0, b"b").unwrap(), some(b"2"));
}

/// After a run of writes, commits and rollbacks, and a crash, every key reads
/// as the last write of its newest committed writer.
#[test]
fn run_is_read_back_after_a_crash() {
    let disk = Disk::new();
    {
        let mut db = Db::open(&disk).unwrap();
        let a = db.begin_txn().unwrap();
        db.put(0, b"k", b"1", a).unwrap();
        db.put(0, b"k", b"2", a).unwrap();
        db.put(0, b"gone", b"x", a).unwrap();
        db.commit(a).unwrap();
        let b = db.begin_txn().unwrap();
        db.delete(0, b"gone", b).unwrap();
        db.commit(b).unwrap();
        let c = db.begin_txn().unwrap();
        db.put(0, b"k", b"3", c).unwrap();
        db.rollback(c).unwrap();
        let d = db.begin_txn().unwrap();
        db.put(0, b"k", b"4", d).unwrap();
    }
    let mut db = Db::open(&disk).unwrap();
    assert_eq!(db.get(0, b"k").unwrap(), some(b"2"));
    assert_eq!(db.get(0, b"gone").unwrap(), None);
    assert_eq!(db.get(1, b"k").unwrap(), None);
}
