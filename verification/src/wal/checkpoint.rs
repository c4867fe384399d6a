//! Checkpoints: the recovery baseline, and the order of steps that makes
//! truncating the WAL safe.
//!
//! A checkpoint file holds the MVCC baseline in an envelope
//!
//! ```text
//! "CKPT"(4) | version(1) | crc32(4B LE) | payload_len(4B LE) | payload
//! ```
//!
//! and `_LATEST` holds the number of the newest one. A checkpoint speeds the
//! recovery up; the WAL stays the source of truth. Where a checkpoint cannot
//! be read, recovery goes by the WAL alone.

use crate::bytes::{
    bytes_eq, copy_bytes, le_bytes_u64, le_u32, le_u64, lemma_le_u32_round_trip, lemma_le_u64_round_trip,
    push_bytes, push_le_u32, read_le_u32, read_le_u64, u32_of_le, u64_of_le,
};
use crate::codec::payload::{
    checksum, crc32, decode_history, decoded_history, encode_history, encoded_history,
};
use crate::error::{concat2, Result, Z1Error};
use crate::text::{copy_str, decimal, push_decimal, push_zero_padded, zero_padded};
use crate::wal::record::{wal_models, RecordModel, WalModel, WalRecord};
use crate::wal::writer::{
    flushed, no_plan, plan_is, planned, with_sync, PlanModel, SyncPolicy, WalAction, WalPlan,
    WalPosition, WalWriter,
};
use crate::TxnId;
use vstd::prelude::*;
use vstd::slice::slice_subrange;

verus! {

/// Checkpoint format version.
pub const CKPT_VERSION: u8 = 1;

/// Size of the envelope before the payload.
pub const ENVELOPE_HEADER: usize = 13;

/// `CKPT`.
pub open spec fn ckpt_magic() -> Seq<u8> {
    seq![67u8, 75u8, 80u8, 84u8]
}

/// A checkpoint: the baseline of a recovery.
#[derive(Debug)]
pub struct CheckpointState {
    pub checkpoint_id: TxnId,
    pub committed_txn: TxnId,
    pub timestamp_ms: u64,
    /// The committed history: (transaction, commit timestamp).
    pub committed_history: Vec<(TxnId, u64)>,
}

impl Clone for CheckpointState {
    fn clone(&self) -> (r: Self)
        ensures
            r@ == self@,
    {
        let mut committed_history: Vec<(TxnId, u64)> = Vec::new();
        let mut i: usize = 0;
        while i < self.committed_history.len()
            invariant
                i <= self.committed_history@.len(),
                committed_history@ == self.committed_history@.take(i as int),
            decreases self.committed_history@.len() - i,
        {
            committed_history.push(self.committed_history[i]);
            i = i + 1;
        }
        let r = CheckpointState {
            checkpoint_id: self.checkpoint_id,
            committed_txn: self.committed_txn,
            timestamp_ms: self.timestamp_ms,
            committed_history,
        };
        assert(r@ =~= self@);
        r
    }
}

/// A checkpoint as a mathematical value.
#[verifier::ext_equal]
pub struct CheckpointModel {
    pub checkpoint_id: TxnId,
    pub committed_txn: TxnId,
    pub timestamp_ms: u64,
    pub committed_history: Seq<(TxnId, u64)>,
}

impl View for CheckpointState {
    type V = CheckpointModel;

    open spec fn view(&self) -> CheckpointModel {
        CheckpointModel {
            checkpoint_id: self.checkpoint_id,
            committed_txn: self.committed_txn,
            timestamp_ms: self.timestamp_ms,
            committed_history: self.committed_history@,
        }
    }
}

/// The payload of a checkpoint.
pub open spec fn checkpoint_payload(s: CheckpointModel) -> Seq<u8> {
    encoded_history(s.checkpoint_id, s.committed_txn, s.timestamp_ms, s.committed_history)
}

/// A payload in its envelope.
pub open spec fn enveloped(payload: Seq<u8>) -> Seq<u8> {
    ckpt_magic().push(CKPT_VERSION) + le_u32(crc32(payload)) + le_u32(payload.len() as u32)
        + payload
}

/// The payload of a file whose envelope is intact: magic and version match,
/// as many bytes follow as declared, and they have the stored checksum.
pub open spec fn opened(bytes: Seq<u8>) -> Option<Seq<u8>> {
    if bytes.len() < ENVELOPE_HEADER || bytes.take(4) != ckpt_magic() || bytes[4] != CKPT_VERSION {
        None
    } else {
        let stored = u32_of_le(bytes.skip(5));
        let len = u32_of_le(bytes.skip(9));
        if bytes.len() < ENVELOPE_HEADER + len {
            None
        } else {
            let payload = bytes.subrange(ENVELOPE_HEADER as int, ENVELOPE_HEADER + len);
            if crc32(payload) == stored {
                Some(payload)
            } else {
                None
            }
        }
    }
}

/// The checkpoint that a file holds.
pub open spec fn checkpoint_in(bytes: Seq<u8>) -> Option<CheckpointModel> {
    match opened(bytes) {
        Some(payload) => match decoded_history(payload) {
            Some((checkpoint_id, committed_txn, timestamp_ms, committed_history)) => Some(
                CheckpointModel { checkpoint_id, committed_txn, timestamp_ms, committed_history },
            ),
            None => None,
        },
        None => None,
    }
}

/// Checkpoint naming and format.
#[derive(Debug)]
pub struct CheckpointManager {
    pub checkpoint_dir: String,
}

/// What to write for a checkpoint: first the checkpoint file, then the
/// pointer to it.
#[derive(Debug)]
pub struct CheckpointFiles {
    pub name: String,
    pub bytes: Vec<u8>,
    pub latest: Vec<u8>,
}

/// The name of a checkpoint file.
pub open spec fn checkpoint_file(id: TxnId) -> Seq<char> {
    "ckpt_"@ + zero_padded(id as nat, 16) + ".bin"@
}

/// The number that the pointer holds.
pub open spec fn pointed_at(latest: Seq<u8>) -> Option<TxnId> {
    if latest.len() == 8 {
        Some(u64_of_le(latest))
    } else {
        None
    }
}

proof fn lemma_envelope(payload: Seq<u8>)
    requires
        payload.len() <= u32::MAX,
    ensures
        opened(enveloped(payload)) == Some(payload),
{
    let b = enveloped(payload);
    let crc = le_u32(crc32(payload));
    let len = le_u32(payload.len() as u32);
    lemma_le_u32_round_trip(crc32(payload), len + payload);
    lemma_le_u32_round_trip(payload.len() as u32, payload);
    assert(b.take(4) =~= ckpt_magic());
    assert(b.skip(5) =~= crc + (len + payload));
    assert(b.skip(9) =~= len + payload);
    assert(b.subrange(13, 13 + payload.len() as int) =~= payload);
}

impl CheckpointManager {
    pub fn new(data_dir: &str) -> (r: Self)
        ensures
            r.checkpoint_dir@ == data_dir@ + "/checkpoints"@,
    {
        CheckpointManager { checkpoint_dir: concat2(data_dir, "/checkpoints") }
    }

    /// The name of the checkpoint file `id`.
    pub fn checkpoint_name(id: TxnId) -> (r: String)
        ensures
            r@ == checkpoint_file(id),
    {
        let mut s = copy_str("ckpt_");
        push_zero_padded(&mut s, id, 16);
        s.append(".bin");
        s
    }

    /// The name of the pointer to the newest checkpoint.
    pub fn latest_name() -> (r: String)
        ensures
            r@ == "_LATEST"@,
    {
        copy_str("_LATEST")
    }

    /// Turn a checkpoint into the files to write.
    pub fn write(state: &CheckpointState) -> (r: Result<CheckpointFiles>)
        ensures
            r is Ok <==> checkpoint_payload(state@).len() <= u32::MAX,
            r matches Ok(f) ==> f.name@ == checkpoint_file(state.checkpoint_id) && f.bytes@
                == enveloped(checkpoint_payload(state@)) && f.latest@ == le_u64(
                state.checkpoint_id,
            ),
            r matches Err(e) ==> (e matches Z1Error::Serialization(m) && m@
                == "checkpoint payload too large: "@ + decimal(checkpoint_payload(state@).len())
                + " bytes (u32 limit exceeded)"@),
    {
        let payload = match encode_history(
            state.checkpoint_id,
            state.committed_txn,
            state.timestamp_ms,
            &state.committed_history,
        ) {
            Ok(p) => p,
            Err(e) => {
                return Err(Z1Error::Serialization(concat2("checkpoint encode: ", e.as_str())));
            },
        };
        if payload.len() > u32::MAX as usize {
            let mut m = copy_str("checkpoint payload too large: ");
            push_decimal(&mut m, payload.len() as u64);
            m.append(" bytes (u32 limit exceeded)");
            return Err(Z1Error::Serialization(m));
        }
        let crc: u32 = checksum(payload.as_slice());
        let mut bytes: Vec<u8> = Vec::new();
        bytes.push(67);
        bytes.push(75);
        bytes.push(80);
        bytes.push(84);
        bytes.push(CKPT_VERSION);
        assert(bytes@ =~= ckpt_magic().push(CKPT_VERSION));
        push_le_u32(&mut bytes, crc);
        push_le_u32(&mut bytes, payload.len() as u32);
        push_bytes(&mut bytes, payload.as_slice());
        let name = Self::checkpoint_name(state.checkpoint_id);
        let latest = le_bytes_u64(state.checkpoint_id);
        Ok(CheckpointFiles { name, bytes, latest })
    }

    /// The number that the pointer holds; none where it is not eight bytes.
    pub fn latest_id(latest: &[u8]) -> (r: Option<TxnId>)
        ensures
            r == pointed_at(latest@),
            forall|id: TxnId| latest@ == #[trigger] le_u64(id) ==> r == Some(id),
    {
        proof {
            assert forall|id: TxnId| latest@ == #[trigger] le_u64(id) implies pointed_at(latest@)
                == Some(id) by {
                lemma_le_u64_round_trip(id);
            }
        }
        if latest.len() != 8 {
            return None;
        }
        Some(read_le_u64(latest))
    }

    /// Read a checkpoint file; none where it is damaged. What `write` made is
    /// read back.
    pub fn load(bytes: &[u8]) -> (r: Option<CheckpointState>)
        ensures
            match r {
                Some(s) => checkpoint_in(bytes@) == Some(s@),
                None => checkpoint_in(bytes@) is None,
            },
            forall|s: CheckpointModel|
                checkpoint_payload(s).len() <= u32::MAX && bytes@ == #[trigger] enveloped(
                    checkpoint_payload(s),
                ) ==> (r matches Some(got) && got@ == s),
    {
        proof {
            assert forall|s: CheckpointModel|
                checkpoint_payload(s).len() <= u32::MAX && bytes@ == #[trigger] enveloped(
                    checkpoint_payload(s),
                ) implies opened(bytes@) == Some(checkpoint_payload(s)) by {
                lemma_envelope(checkpoint_payload(s));
            }
        }
        if bytes.len() < ENVELOPE_HEADER {
            return None;
        }
        let magic = slice_subrange(bytes, 0, 4);
        assert(magic@ =~= bytes@.take(4));
        let mut want: Vec<u8> = Vec::new();
        want.push(67);
        want.push(75);
        want.push(80);
        want.push(84);
        assert(want@ =~= ckpt_magic());
        if !bytes_eq(magic, want.as_slice()) || bytes[4] != CKPT_VERSION {
            return None;
        }
        let stored: u32 = read_le_u32(bytes, 5);
        let len: u32 = read_le_u32(bytes, 9);
        if bytes.len() - ENVELOPE_HEADER < len as usize {
            return None;
        }
        let payload = slice_subrange(bytes, ENVELOPE_HEADER, ENVELOPE_HEADER + len as usize);
        if checksum(payload) != stored {
            return None;
        }
        match decode_history(payload) {
            Ok((checkpoint_id, committed_txn, timestamp_ms, committed_history)) => {
                let s = CheckpointState {
                    checkpoint_id,
                    committed_txn,
                    timestamp_ms,
                    committed_history,
                };
                proof {
                    assert forall|m: CheckpointModel|
                        checkpoint_payload(m).len() <= u32::MAX && bytes@ == #[trigger] enveloped(
                            checkpoint_payload(m),
                        ) implies s@ == m by {
                        assert(payload@ == encoded_history(
                            m.checkpoint_id,
                            m.committed_txn,
                            m.timestamp_ms,
                            m.committed_history,
                        ));
                    }
                }
                Some(s)
            },
            Err(_) => {
                proof {
                    assert forall|m: CheckpointModel|
                        checkpoint_payload(m).len() <= u32::MAX && bytes@ == #[trigger] enveloped(
                            checkpoint_payload(m),
                        ) implies false by {
                        assert(payload@ == encoded_history(
                            m.checkpoint_id,
                            m.committed_txn,
                            m.timestamp_ms,
                            m.committed_history,
                        ));
                    }
                }
                None
            },
        }
    }

    /// The newest checkpoint, given the bytes of the pointer and of the file
    /// it points at, where they could be read.
    pub fn load_latest(latest: Option<&Vec<u8>>, file: Option<&Vec<u8>>) -> (r: Option<
        CheckpointState,
    >)
        ensures
            match r {
                Some(s) => latest is Some && pointed_at(latest->0@) is Some && file is Some
                    && checkpoint_in(file->0@) == Some(s@),
                None => latest is None || pointed_at(latest->0@) is None || file is None
                    || checkpoint_in(file->0@) is None,
            },
    {
        match (latest, file) {
            (Some(l), Some(f)) => match Self::latest_id(l.as_slice()) {
                Some(_) => Self::load(f.as_slice()),
                None => None,
            },
            _ => None,
        }
    }

    /// The operation of a checkpoint's stage, from the writing of the state
    /// on: write the file, write the pointer, mark the WAL durably, delete
    /// the segments before the current one.
    pub fn checkpoint(
        stage: CheckpointStage,
        files: &CheckpointFiles,
        checkpoint_id: TxnId,
        committed_txn: TxnId,
        wal: &mut WalWriter,
    ) -> (r: CheckpointTask)
        ensures
            final(wal).config == old(wal).config,
            final(wal).cursor == old(wal).cursor,
            !(stage is MarkWal) ==> final(wal).queue == old(wal).queue,
            stage is MarkWal && (!old(wal).config.enabled || old(wal).config.policy()
                != SyncPolicy::GroupCommitStrict) ==> final(wal).queue == old(wal).queue,
            stage is MarkWal && old(wal).config.enabled && old(wal).config.policy()
                == SyncPolicy::GroupCommitStrict ==> final(wal).queue@.len() == 0,
            match stage {
                CheckpointStage::WriteState => r matches CheckpointTask::WriteState { name, bytes }
                    && name@ == files.name@ && bytes@ == files.bytes@,
                CheckpointStage::WriteLatest => r matches CheckpointTask::WriteLatest { bytes }
                    && bytes@ == files.latest@,
                CheckpointStage::MarkWal => task_of(
                    r,
                    marked(
                        *old(wal),
                        WalModel {
                            txn_id: committed_txn,
                            record: RecordModel::Checkpoint { checkpoint_id },
                        },
                    ),
                ),
                CheckpointStage::TruncateWal => r matches CheckpointTask::Truncate(pos) && pos.seq
                    == old(wal).cursor.seq,
                _ => r is Done,
            },
    {
        match stage {
            CheckpointStage::WriteState => CheckpointTask::WriteState {
                name: copy_str(files.name.as_str()),
                bytes: copy_bytes(files.bytes.as_slice()),
            },
            CheckpointStage::WriteLatest => CheckpointTask::WriteLatest {
                bytes: copy_bytes(files.latest.as_slice()),
            },
            CheckpointStage::MarkWal => {
                let ghost q0 = wal_models(wal.queue@);
                let plan = wal.append_durable(
                    committed_txn,
                    WalRecord::Checkpoint { checkpoint_id },
                );
                let grouped: bool = match wal.config.sync_policy() {
                    SyncPolicy::GroupCommitStrict => true,
                    _ => false,
                };
                assert(wal_models(wal.queue@).len() == wal.queue@.len());
                if wal.config.enabled && grouped && wal.queue.len() > 0 {
                    plan_task(wal.flush_and_sync())
                } else {
                    plan_task(plan)
                }
            },
            CheckpointStage::TruncateWal => CheckpointTask::Truncate(wal.position()),
            _ => CheckpointTask::Done,
        }
    }

    /// The baseline of a recovery: the committed transaction and the history
    /// of a checkpoint; nothing without one.
    pub fn recovery_baseline(state: Option<CheckpointState>) -> (r: Option<
        (TxnId, Vec<(TxnId, u64)>),
    >)
        ensures
            match state {
                Some(s) => r == Some((s.committed_txn, s.committed_history)),
                None => r is None,
            },
    {
        match state {
            Some(s) => Some((s.committed_txn, s.committed_history)),
            None => None,
        }
    }
}

/// The next operation of a checkpoint.
#[derive(Debug)]
pub enum CheckpointTask {
    /// Write an L2 patch file, durably and all at once.
    WritePatch { cf: u16, name: String, bytes: Vec<u8> },
    /// Perform these actions on the WAL.
    Wal(Vec<WalAction>),
    /// Write the checkpoint file, durably and all at once.
    WriteState { name: String, bytes: Vec<u8> },
    /// Write the pointer to the newest checkpoint, durably and all at once.
    WriteLatest { bytes: Vec<u8> },
    /// Delete the WAL segments before this position.
    Truncate(WalPosition),
    /// The checkpoint is complete.
    Done,
    /// The checkpoint has failed.
    Failed(Z1Error),
}

/// The task of performing a plan, or its error.
pub open spec fn task_of(t: CheckpointTask, m: PlanModel) -> bool {
    exists|p: WalPlan| #[trigger]
        plan_is(p, m) && match p.error {
            Some(e) => t == CheckpointTask::Failed(e),
            None => t == CheckpointTask::Wal(p.actions),
        }
}

pub(crate) fn plan_task(plan: WalPlan) -> (r: CheckpointTask)
    ensures
        forall|m: PlanModel| #[trigger] plan_is(plan, m) ==> task_of(r, m),
{
    match plan.error {
        Some(e) => CheckpointTask::Failed(e),
        None => CheckpointTask::Wal(plan.actions),
    }
}

/// The plan that appends a record and makes it durable, whatever the sync
/// policy.
pub open spec fn marked(w: WalWriter, e: WalModel) -> PlanModel {
    let c = w.config;
    if !c.enabled {
        no_plan()
    } else if c.policy() != SyncPolicy::GroupCommitStrict {
        with_sync(planned(w.cursor, c.max_file_size, c.write_through, seq![e]), c.write_through)
    } else {
        let queued = wal_models(w.queue@).push(e);
        let plan = flushed(w.cursor, c.max_file_size, c.write_through, queued);
        if queued.len() >= c.batch_size() {
            plan
        } else {
            with_sync(plan, c.write_through)
        }
    }
}

/// How far a checkpoint has come. Each stage names the step to take next.
#[derive(Debug, Clone, Copy, PartialEq, Eq, Structural)]
pub enum CheckpointStage {
    /// Move L1 to L2 patches.
    FlushData,
    /// Write and sync what the WAL has queued.
    SyncWal,
    /// Write the checkpoint file.
    WriteState,
    /// Write the pointer to it.
    WriteLatest,
    /// Append the marker to the WAL and sync it.
    MarkWal,
    /// Delete the WAL segments before the current one.
    TruncateWal,
    /// Everything is done.
    Done,
    /// A step has failed; nothing more is done.
    Failed,
}

impl CheckpointStage {
    /// The stage after the next step.
    pub open spec fn stepped(self, ok: bool) -> CheckpointStage {
        if !ok && !(self is Done) {
            CheckpointStage::Failed
        } else {
            match self {
                CheckpointStage::FlushData => CheckpointStage::SyncWal,
                CheckpointStage::SyncWal => CheckpointStage::WriteState,
                CheckpointStage::WriteState => CheckpointStage::WriteLatest,
                CheckpointStage::WriteLatest => CheckpointStage::MarkWal,
                CheckpointStage::MarkWal => CheckpointStage::TruncateWal,
                CheckpointStage::TruncateWal => CheckpointStage::Done,
                CheckpointStage::Done => CheckpointStage::Done,
                CheckpointStage::Failed => CheckpointStage::Failed,
            }
        }
    }

    /// The stage after the next step has succeeded or failed. A failed step
    /// ends the checkpoint, so that the WAL is truncated only after the data
    /// and the checkpoint are durable.
    pub fn step(self, ok: bool) -> (r: CheckpointStage)
        ensures
            r == self.stepped(ok),
    {
        match self {
            CheckpointStage::Done => CheckpointStage::Done,
            CheckpointStage::Failed => CheckpointStage::Failed,
            _ => {
                if !ok {
                    return CheckpointStage::Failed;
                }
                match self {
                    CheckpointStage::FlushData => CheckpointStage::SyncWal,
                    CheckpointStage::SyncWal => CheckpointStage::WriteState,
                    CheckpointStage::WriteState => CheckpointStage::WriteLatest,
                    CheckpointStage::WriteLatest => CheckpointStage::MarkWal,
                    CheckpointStage::MarkWal => CheckpointStage::TruncateWal,
                    CheckpointStage::TruncateWal => CheckpointStage::Done,
                    CheckpointStage::Done => CheckpointStage::Done,
                    CheckpointStage::Failed => CheckpointStage::Failed,
                }
            },
        }
    }
}

/// The stage after steps with these outcomes.
pub open spec fn stage_after(outcomes: Seq<bool>) -> CheckpointStage
    decreases outcomes.len(),
{
    if outcomes.len() == 0 {
        CheckpointStage::FlushData
    } else {
        stage_after(outcomes.drop_last()).stepped(outcomes.last())
    }
}

/// The WAL is truncated only when every step before it has succeeded: a
/// failed flush, sync or write leaves the WAL as it is.
pub proof fn law_truncation_follows_durability(outcomes: Seq<bool>)
    ensures
        stage_after(outcomes) is TruncateWal ==> outcomes == seq![true, true, true, true, true],
        (exists|i: int| 0 <= i < 5 && i < outcomes.len() && !(#[trigger] outcomes[i])) ==> !(
        stage_after(outcomes) is TruncateWal) && !(stage_after(outcomes) is Done),
{
    lemma_stage(outcomes);
    if stage_after(outcomes) is TruncateWal {
        assert(outcomes =~= seq![true, true, true, true, true]);
    }
}

spec fn stage_number(s: CheckpointStage) -> int {
    match s {
        CheckpointStage::FlushData => 0,
        CheckpointStage::SyncWal => 1,
        CheckpointStage::WriteState => 2,
        CheckpointStage::WriteLatest => 3,
        CheckpointStage::MarkWal => 4,
        CheckpointStage::TruncateWal => 5,
        CheckpointStage::Done => 6,
        CheckpointStage::Failed => 7,
    }
}

proof fn lemma_stage(outcomes: Seq<bool>)
    ensures
        ({
            let n = stage_number(stage_after(outcomes));
            &&& n < 6 ==> n == outcomes.len()
            &&& n == 6 ==> outcomes.len() >= 6
            &&& n <= 6 ==> forall|i: int| 0 <= i < 6 && i < outcomes.len() ==> #[trigger] outcomes[i]
        }),
    decreases outcomes.len(),
{
    if outcomes.len() > 0 {
        let rest = outcomes.drop_last();
        lemma_stage(rest);
        let n = stage_number(stage_after(outcomes));
        if n <= 6 {
            assert forall|i: int| 0 <= i < 6 && i < outcomes.len() implies #[trigger] outcomes[i] by {
                if i < rest.len() {
                    assert(rest[i]);
                }
            }
        }
    }
}

} // verus!
