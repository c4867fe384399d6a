//! Maintenance of the engine: flush, compaction and checkpoint.
//!
//! Each is a job; see [`crate::store::jobs`]. The caller performs the file
//! operations that a job names, one at a time, and drops the job where one
//! fails.
//!
//! A flush starts with the WAL: what it holds is durable before any patch is
//! written.

use crate::bytes::le_u64;
use crate::error::Z1Error;
use crate::mvcc::visibility::lists_history;
use crate::store::disk::patches_in;
use crate::store::flush::{grouped, FlushEngine};
use crate::store::jobs::{
    compact_stepped, flush_stepped, CompactJob, CompactTask, FlushJob, FlushStep,
};
use crate::store::version_map::all_upserted;
use crate::text::decimal;
use crate::txn::engine::{goes_on, is_gc_watermark, Z1Kv};
use crate::wal::checkpoint::{
    checkpoint_file, checkpoint_payload, enveloped, marked, plan_task, task_of, CheckpointFiles,
    CheckpointManager, CheckpointModel, CheckpointStage, CheckpointTask,
};
use crate::wal::record::{wal_models, RecordModel, WalModel};
use crate::wal::writer::{flushed, plan_is, with_sync, PlanModel, WalPlan, WalWriter};
use crate::TxnId;
use vstd::prelude::*;

verus! {

/// A flush: the plan that makes the WAL durable, and the job that follows.
#[derive(Debug)]
pub struct FlushPlan {
    pub wal: WalPlan,
    pub job: FlushJob,
}

/// The plan that makes durable what the WAL holds.
pub open spec fn sync_plan(w: WalWriter) -> PlanModel {
    with_sync(
        flushed(w.cursor, w.config.max_file_size, w.config.write_through, wal_models(w.queue@)),
        w.config.write_through,
    )
}

/// What beginning a flush comes to: L1's hot buffer has moved to the
/// recent-flush cache, and the job is to write all that the cache holds.
pub open spec fn flush_begun(before: Z1Kv, p: FlushPlan, after: Z1Kv) -> bool {
    &&& plan_is(p.wal, sync_plan(before.wal))
    &&& p.job.wf(after.store)
    &&& p.job.next == 0
    &&& p.job.out is None
    &&& grouped(after.store.recent_flush.cache@, p.job.groups@)
    &&& after.store.recent_flush.cache@ == all_upserted(
        before.store.recent_flush.cache@,
        before.store.l1.hot@,
    )
    &&& after.store.l1.hot@.len() == 0
    &&& after.store.l1.cold@ == before.store.l1.cold@
    &&& after.store.l1.snapshot@ == before.store.l1.hot@
    &&& after.store.l1.hot_size_bytes == 0
    &&& after.store == (FlushEngine {
        l1: after.store.l1,
        recent_flush: after.store.recent_flush,
        ..before.store
    })
    &&& after.wal.cursor == before.wal.cursor
    &&& after.wal.config == before.wal.config
    &&& after.wal.queue@.len() == 0
    &&& after == (Z1Kv { wal: after.wal, store: after.store, ..before })
}

pub open spec fn smaller(a: TxnId, b: TxnId) -> TxnId {
    if a <= b {
        a
    } else {
        b
    }
}

/// A compaction that goes on at a watermark of at most `w`.
pub open spec fn lowered(job: CompactJob, w: TxnId) -> CompactJob {
    CompactJob { watermark: smaller(job.watermark, w), ..job }
}

/// A checkpoint under way.
#[derive(Debug)]
pub struct CheckpointJob {
    /// The operation that the caller is performing.
    pub stage: CheckpointStage,
    pub flush: FlushJob,
    pub checkpoint_id: TxnId,
    pub files: CheckpointFiles,
}

/// A checkpoint: the plan that makes the WAL durable, and the job that
/// follows.
#[derive(Debug)]
pub struct CheckpointPlan {
    pub wal: WalPlan,
    pub job: CheckpointJob,
}

/// `s` is the state that a checkpoint of this engine holds, taken at some
/// time.
pub open spec fn is_state_of(e: Z1Kv, s: CheckpointModel) -> bool {
    &&& s.checkpoint_id == e.mvcc@.committed_txn
    &&& s.committed_txn == e.mvcc@.committed_txn
    &&& s.timestamp_ms >= e.mvcc.clock.last_valid
    &&& lists_history(e.mvcc@.history, s.committed_history)
}

/// `files` are those of a checkpoint of this engine.
pub open spec fn files_of(e: Z1Kv, files: CheckpointFiles) -> bool {
    exists|s: CheckpointModel| #[trigger]
        is_state_of(e, s) && checkpoint_payload(s).len() <= u32::MAX && files.name@
            == checkpoint_file(s.checkpoint_id) && files.bytes@ == enveloped(checkpoint_payload(s))
            && files.latest@ == le_u64(s.checkpoint_id)
}

/// The state of this engine does not fit in a checkpoint, which `err` reports.
pub open spec fn state_too_large(e: Z1Kv, err: Z1Error) -> bool {
    exists|s: CheckpointModel| #[trigger]
        is_state_of(e, s) && checkpoint_payload(s).len() > u32::MAX && (err matches
            Z1Error::Serialization(m) && m@ == "checkpoint payload too large: "@ + decimal(
            checkpoint_payload(s).len(),
        ) + " bytes (u32 limit exceeded)"@)
}

impl Z1Kv {
    /// Begin a flush of L1 to L2, if the hot buffer has outgrown its
    /// threshold. With little data nothing happens; see [`Z1Kv::flush_now`].
    pub fn flush(&mut self) -> (r: Option<FlushPlan>)
        requires
            old(self).wf(),
        ensures
            final(self).wf(),
            goes_on(*old(self), *final(self)),
            match r {
                Some(p) => old(self).store.l1.hot_size_bytes > old(self).store.l1.flush_threshold
                    && flush_begun(*old(self), p, *final(self)),
                None => old(self).store.l1.hot_size_bytes <= old(self).store.l1.flush_threshold
                    && *final(self) == *old(self),
            },
    {
        if self.store.l1.should_flush() {
            Some(self.flush_now())
        } else {
            None
        }
    }

    /// Begin a flush of L1 to L2, whatever the size of the hot buffer.
    pub fn flush_now(&mut self) -> (r: FlushPlan)
        requires
            old(self).wf(),
        ensures
            final(self).wf(),
            goes_on(*old(self), *final(self)),
            flush_begun(*old(self), r, *final(self)),
    {
        let wal = self.wal.flush_and_sync();
        let groups = self.store.flush_l1_to_l2();
        let job = FlushJob::new(groups, &self.store);
        FlushPlan { wal, job }
    }

    /// Go on with a flush; see [`FlushJob::step`].
    pub fn flush_step(&mut self, job: &mut FlushJob) -> (r: FlushStep)
        requires
            old(self).wf(),
            old(job).wf(old(self).store),
        ensures
            final(self).wf(),
            goes_on(*old(self), *final(self)),
            flush_stepped(*old(job), old(self).store, r, *final(job), final(self).store),
            *final(self) == (Z1Kv { store: final(self).store, ..*old(self) }),
    {
        job.step(&mut self.store)
    }

    /// Begin a compaction of L2 to L3. `min_active_begin_ts` is the watermark
    /// for GC; a smaller one is taken where an active transaction needs it, see
    /// [`Z1Kv::gc_watermark`].
    pub fn compact(&self, min_active_begin_ts: TxnId) -> (r: CompactJob)
        requires
            self.wf(),
        ensures
            r.wf(self.store),
            forall|cf: u16|
                r.cfs@.contains(cf) <==> (#[trigger] patches_in(self.store.l2.cfs@, cf)) is Some,
            r.next == 0,
            exists|w: TxnId| #[trigger]
                is_gc_watermark(self.mvcc@.active.dom(), self.txn_snapshots@, w) && r.watermark
                    == smaller(min_active_begin_ts, w),
            r.out is None,
            !r.dropping,
            r.compacted == 0,
            r.reclaimed == 0,
    {
        let w: TxnId = self.gc_watermark();
        let watermark: TxnId = if min_active_begin_ts <= w {
            min_active_begin_ts
        } else {
            w
        };
        CompactJob::new(&self.store, watermark)
    }

    /// Go on with a compaction; see [`CompactJob::step`]. A transaction that has
    /// begun since lowers the watermark for what is still to be merged.
    pub fn compact_step(&mut self, job: &mut CompactJob) -> (r: CompactTask)
        requires
            old(self).wf(),
            old(job).wf(old(self).store),
        ensures
            final(self).wf(),
            goes_on(*old(self), *final(self)),
            exists|w: TxnId| #[trigger]
                is_gc_watermark(old(self).mvcc@.active.dom(), old(self).txn_snapshots@, w)
                    && compact_stepped(
                    lowered(*old(job), w),
                    old(self).store,
                    old(self).mvcc@.history.dom(),
                    r,
                    *final(job),
                    final(self).store,
                ),
            *final(self) == (Z1Kv { store: final(self).store, ..*old(self) }),
    {
        let w: TxnId = self.gc_watermark();
        if w < job.watermark {
            job.watermark = w;
        }
        assert(*job == lowered(*old(job), w));
        assert(self.mvcc.committed_ts_shadow@.dom() =~= self.mvcc@.history.dom());
        job.step(&mut self.store, &self.mvcc.committed_ts_shadow)
    }

    /// Begin a checkpoint: flush L1, write the state, and truncate the WAL,
    /// in this order. The writes in L1 are spread over all WAL segments, so
    /// that a flush that fails has to end the checkpoint.
    pub fn checkpoint(&mut self) -> (r: CheckpointPlan)
        requires
            old(self).wf(),
        ensures
            final(self).wf(),
            goes_on(*old(self), *final(self)),
            flush_begun(
                *old(self),
                (FlushPlan { wal: r.wal, job: r.job.flush }),
                *final(self),
            ),
            r.job.stage == CheckpointStage::FlushData,
    {
        let FlushPlan { wal, job } = self.flush_now();
        let files = CheckpointFiles {
            name: String::new(),
            bytes: Vec::new(),
            latest: Vec::new(),
        };
        CheckpointPlan {
            wal,
            job: CheckpointJob {
                stage: CheckpointStage::FlushData,
                flush: job,
                checkpoint_id: 0,
                files,
            },
        }
    }

    /// Take note that the last operation was performed, and say what comes
    /// next.
    pub fn checkpoint_step(&mut self, job: &mut CheckpointJob) -> (r: CheckpointTask)
        requires
            old(self).wf(),
            !(old(job).stage is Failed),
            old(job).stage is FlushData ==> old(job).flush.wf(old(self).store),
        ensures
            final(self).wf(),
            goes_on(*old(self), *final(self)),
            final(self).mvcc@ == old(self).mvcc@,
            *final(self) == (Z1Kv {
                store: final(self).store,
                mvcc: final(self).mvcc,
                wal: final(self).wal,
                ..*old(self)
            }),
            final(self).mvcc.clock.last_valid >= old(self).mvcc.clock.last_valid,
            final(self).wal.cursor == old(self).wal.cursor,
            final(self).wal.config == old(self).wal.config,
            checkpoint_stepped(*old(self), *old(job), r, *final(job), *final(self)),
    {
        match job.stage {
            CheckpointStage::FlushData => {
                let ghost flush0 = job.flush;
                let ghost st0 = self.store;
                let step = job.flush.step(&mut self.store);
                assert(flush_stepped(flush0, st0, step, job.flush, self.store));
                match step {
                    FlushStep::Write { cf, name, bytes } => CheckpointTask::WritePatch {
                        cf,
                        name,
                        bytes,
                    },
                    FlushStep::Failed(e) => {
                        job.stage = job.stage.step(false);
                        CheckpointTask::Failed(e)
                    },
                    FlushStep::Done(_) => {
                        job.stage = job.stage.step(true);
                        let plan = self.wal.flush_and_sync();
                        let t = plan_task(plan);
                        if let CheckpointTask::Failed(_) = &t {
                            job.stage = job.stage.step(false);
                        }
                        t
                    },
                }
            },
            CheckpointStage::SyncWal => {
                let state = self.checkpoint_state();
                match CheckpointManager::write(&state) {
                    Ok(files) => {
                        job.files = files;
                        job.checkpoint_id = state.checkpoint_id;
                        job.stage = job.stage.step(true);
                        proof {
                            assert(is_state_of(*old(self), state@));
                            assert(files_of(*old(self), job.files));
                        }
                        CheckpointManager::checkpoint(
                            job.stage,
                            &job.files,
                            job.checkpoint_id,
                            job.checkpoint_id,
                            &mut self.wal,
                        )
                    },
                    Err(e) => {
                        job.stage = job.stage.step(false);
                        proof {
                            assert(is_state_of(*old(self), state@));
                            assert(state_too_large(*old(self), e));
                        }
                        CheckpointTask::Failed(e)
                    },
                }
            },
            _ => {
                job.stage = job.stage.step(true);
                let t = CheckpointManager::checkpoint(
                    job.stage,
                    &job.files,
                    job.checkpoint_id,
                    job.checkpoint_id,
                    &mut self.wal,
                );
                if let CheckpointTask::Failed(_) = &t {
                    job.stage = job.stage.step(false);
                }
                t
            },
        }
    }
}

/// What a step of a checkpoint comes to.
pub open spec fn checkpoint_stepped(
    e0: Z1Kv,
    job0: CheckpointJob,
    r: CheckpointTask,
    job1: CheckpointJob,
    e1: Z1Kv,
) -> bool {
    &&& r is Failed <==> job1.stage is Failed
    &&& !(r is Failed) && !(r is WritePatch) ==> job1.stage == job0.stage.stepped(true)
    &&& !(job0.stage is SyncWal) || r is Failed ==> job1.files == job0.files
        && job1.checkpoint_id == job0.checkpoint_id
    &&& !(job0.stage is FlushData) ==> job1.flush == job0.flush && e1.store == e0.store && e1.wal
        == e0.wal
    &&& !(job0.stage is SyncWal) ==> e1.mvcc == e0.mvcc
    &&& match job0.stage {
        CheckpointStage::FlushData => exists|step: FlushStep| #[trigger]
            flush_stepped(job0.flush, e0.store, step, job1.flush, e1.store) && match step {
                FlushStep::Write { cf, name, bytes } => r == (CheckpointTask::WritePatch {
                    cf,
                    name,
                    bytes,
                }) && job1.stage is FlushData && e1.wal == e0.wal,
                FlushStep::Failed(e) => r == CheckpointTask::Failed(e) && e1.wal == e0.wal,
                FlushStep::Done(_) => task_of(r, sync_plan(e0.wal)) && e1.wal.queue@.len() == 0,
            },
        CheckpointStage::SyncWal => if r is Failed {
            state_too_large(e0, r->Failed_0)
        } else {
            &&& files_of(e0, job1.files)
            &&& job1.checkpoint_id == e0.mvcc@.committed_txn
            &&& r matches CheckpointTask::WriteState { name, bytes } && name@ == job1.files.name@
                && bytes@ == job1.files.bytes@
        },
        CheckpointStage::WriteState => r matches CheckpointTask::WriteLatest { bytes } && bytes@
            == job0.files.latest@,
        CheckpointStage::WriteLatest => task_of(
            r,
            marked(
                e0.wal,
                WalModel {
                    txn_id: job0.checkpoint_id,
                    record: RecordModel::Checkpoint { checkpoint_id: job0.checkpoint_id },
                },
            ),
        ),
        CheckpointStage::MarkWal => r matches CheckpointTask::Truncate(pos) && pos.seq
            == e0.wal.cursor.seq,
        _ => r is Done,
    }
}

} // verus!
