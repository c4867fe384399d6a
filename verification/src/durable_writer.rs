//! Crash-safe file writes: in which order a file is written, when a failed
//! write is tried again, and when it is given up.
//!
//! A file becomes durable in four steps:
//!
//! 1. the data is written to a temporary file, never to the final path
//! 2. the temporary file's contents are synced
//! 3. the temporary file is renamed to the final path
//! 4. the parent directory is synced, so that the rename is durable
//!
//! Skipping one of them can lose data in a crash. A write that another
//! process disturbs (the file has vanished or is locked) is tried again as a
//! whole.

use crate::error::{concat2, IoError, IoErrorKind, Result, Z1Error};
use crate::text::copy_str;
use vstd::prelude::*;

verus! {

/// How often a write is tried.
pub const WRITE_ATTEMPTS: u64 = 3;

/// The first pause between two attempts; it grows by itself each time.
pub const WRITE_PAUSE_MS: u64 = 10;

/// What stands between a new file and its durability.
#[derive(Debug, Clone, Copy, PartialEq, Eq, Structural)]
pub enum WriteStage {
    WriteTemp,
    SyncData,
    Rename,
    SyncDir,
    Durable,
    Failed,
}

impl WriteStage {
    /// The stage after this one, once it has succeeded.
    pub open spec fn after(self) -> WriteStage {
        match self {
            WriteStage::WriteTemp => WriteStage::SyncData,
            WriteStage::SyncData => WriteStage::Rename,
            WriteStage::Rename => WriteStage::SyncDir,
            WriteStage::SyncDir => WriteStage::Durable,
            WriteStage::Durable => WriteStage::Durable,
            WriteStage::Failed => WriteStage::Failed,
        }
    }

    fn next(self) -> (r: WriteStage)
        ensures
            r == self.after(),
    {
        match self {
            WriteStage::WriteTemp => WriteStage::SyncData,
            WriteStage::SyncData => WriteStage::Rename,
            WriteStage::Rename => WriteStage::SyncDir,
            WriteStage::SyncDir => WriteStage::Durable,
            WriteStage::Durable => WriteStage::Durable,
            WriteStage::Failed => WriteStage::Failed,
        }
    }

    /// The stage is performed by the caller.
    pub open spec fn is_work(self) -> bool {
        self != WriteStage::Durable && self != WriteStage::Failed
    }
}

/// Interference that may be over in a moment: the file is gone, or locked.
pub open spec fn is_transient(e: Z1Error) -> bool {
    e matches Z1Error::Io(io) && (io.kind is NotFound || io.kind is PermissionDenied)
}

fn transient(e: &Z1Error) -> (r: bool)
    ensures
        r == is_transient(*e),
{
    match e {
        Z1Error::Io(io) => matches!(io.kind, IoErrorKind::NotFound | IoErrorKind::PermissionDenied),
        _ => false,
    }
}

/// What follows from the outcome of a stage.
#[derive(Debug)]
pub enum WriteStep {
    /// Perform the stage that is due.
    Go,
    /// Start over after a pause.
    Again { pause_ms: u64 },
    /// The file is durable.
    Done,
    /// The write is given up.
    Failed(Z1Error),
}

/// A durable write under way: the attempt, counted from 0, and the stage that
/// is due.
#[derive(Debug, Clone, Copy, PartialEq, Eq, Structural)]
pub struct WriteJob {
    pub attempt: u64,
    pub stage: WriteStage,
}

impl WriteJob {
    /// An attempt is left or the write has ended.
    pub open spec fn wf(self) -> bool {
        self.attempt < WRITE_ATTEMPTS
    }

    /// `outcome` of the stage that was due turns `self` into `after`, and
    /// `step` says what to do.
    pub open spec fn stepped(self, outcome: Result<()>, step: WriteStep, after: WriteJob) -> bool {
        match outcome {
            Ok(_) => {
                &&& after == (WriteJob { stage: self.stage.after(), ..self })
                &&& if after.stage == WriteStage::Durable {
                    step is Done
                } else {
                    step is Go
                }
            },
            Err(e) => if is_transient(e) && self.attempt + 1 < WRITE_ATTEMPTS {
                &&& after == (WriteJob {
                    attempt: (self.attempt + 1) as u64,
                    stage: WriteStage::WriteTemp,
                })
                &&& step == (WriteStep::Again {
                    pause_ms: (WRITE_PAUSE_MS * (self.attempt + 1)) as u64,
                })
            } else {
                &&& after == (WriteJob { stage: WriteStage::Failed, ..self })
                &&& step == WriteStep::Failed(e)
            },
        }
    }

    /// A write that has not begun.
    pub fn new() -> (r: WriteJob)
        ensures
            r == (WriteJob { attempt: 0, stage: WriteStage::WriteTemp }),
            r.wf(),
    {
        WriteJob { attempt: 0, stage: WriteStage::WriteTemp }
    }

    /// Take the outcome of the stage that was due.
    pub fn step(&mut self, outcome: Result<()>) -> (r: WriteStep)
        requires
            old(self).wf(),
            old(self).stage.is_work(),
        ensures
            old(self).stepped(outcome, r, *final(self)),
            final(self).wf(),
            r is Go || r is Again <==> final(self).stage.is_work(),
    {
        match outcome {
            Ok(_) => {
                self.stage = self.stage.next();
                if self.stage == WriteStage::Durable {
                    WriteStep::Done
                } else {
                    WriteStep::Go
                }
            },
            Err(e) => {
                if transient(&e) && self.attempt + 1 < WRITE_ATTEMPTS {
                    let pause_ms: u64 = WRITE_PAUSE_MS * (self.attempt + 1);
                    self.attempt = self.attempt + 1;
                    self.stage = WriteStage::WriteTemp;
                    WriteStep::Again { pause_ms }
                } else {
                    self.stage = WriteStage::Failed;
                    WriteStep::Failed(e)
                }
            },
        }
    }
}

/// `jobs` are the states of a write from its beginning, and `outcomes` what
/// came of the stages performed between them.
pub open spec fn is_write(jobs: Seq<WriteJob>, outcomes: Seq<Result<()>>) -> bool {
    &&& jobs.len() == outcomes.len() + 1
    &&& jobs[0] == (WriteJob { attempt: 0, stage: WriteStage::WriteTemp })
    &&& forall|i: int| 0 <= i < outcomes.len() ==> write_goes_on(jobs, outcomes, i)
}

/// The `i`-th stage was due, and its outcome gave the next state.
pub open spec fn write_goes_on(jobs: Seq<WriteJob>, outcomes: Seq<Result<()>>, i: int) -> bool {
    &&& jobs[i].stage.is_work()
    &&& exists|step: WriteStep| #[trigger] jobs[i].stepped(outcomes[i], step, jobs[i + 1])
}

/// The `i`-th stage performed was `stage`, and it succeeded.
pub open spec fn performed(
    jobs: Seq<WriteJob>,
    outcomes: Seq<Result<()>>,
    i: int,
    stage: WriteStage,
) -> bool {
    0 <= i < outcomes.len() && jobs[i].stage == stage && outcomes[i] is Ok
}

/// A stage other than the first is due only where the one before it has just
/// succeeded in the same attempt.
proof fn lemma_stage_before(jobs: Seq<WriteJob>, outcomes: Seq<Result<()>>, i: int)
    requires
        is_write(jobs, outcomes),
        0 <= i <= outcomes.len(),
    ensures
        jobs[i].stage == WriteStage::SyncData ==> performed(
            jobs,
            outcomes,
            i - 1,
            WriteStage::WriteTemp,
        ),
        jobs[i].stage == WriteStage::Rename ==> performed(
            jobs,
            outcomes,
            i - 1,
            WriteStage::SyncData,
        ),
        jobs[i].stage == WriteStage::SyncDir ==> performed(
            jobs,
            outcomes,
            i - 1,
            WriteStage::Rename,
        ),
        jobs[i].stage == WriteStage::Durable ==> performed(
            jobs,
            outcomes,
            i - 1,
            WriteStage::SyncDir,
        ),
{
    if i > 0 {
        assert(write_goes_on(jobs, outcomes, i - 1));
    }
}

/// The final path is replaced only by a file whose contents were written and
/// synced right before: whenever a rename is due, the temporary file was
/// written and then synced, with success and with nothing in between.
pub proof fn law_rename_follows_sync(jobs: Seq<WriteJob>, outcomes: Seq<Result<()>>, i: int)
    requires
        is_write(jobs, outcomes),
        0 <= i <= outcomes.len(),
        jobs[i].stage == WriteStage::Rename,
    ensures
        performed(jobs, outcomes, i - 2, WriteStage::WriteTemp),
        performed(jobs, outcomes, i - 1, WriteStage::SyncData),
{
    lemma_stage_before(jobs, outcomes, i);
    lemma_stage_before(jobs, outcomes, i - 1);
}

/// A write that reports success has gone through all four steps in order, the
/// last one being the sync of the parent directory.
pub proof fn law_durable_write_is_complete(
    jobs: Seq<WriteJob>,
    outcomes: Seq<Result<()>>,
    i: int,
)
    requires
        is_write(jobs, outcomes),
        0 <= i <= outcomes.len(),
        jobs[i].stage == WriteStage::Durable,
    ensures
        performed(jobs, outcomes, i - 4, WriteStage::WriteTemp),
        performed(jobs, outcomes, i - 3, WriteStage::SyncData),
        performed(jobs, outcomes, i - 2, WriteStage::Rename),
        performed(jobs, outcomes, i - 1, WriteStage::SyncDir),
{
    lemma_stage_before(jobs, outcomes, i);
    lemma_stage_before(jobs, outcomes, i - 1);
    law_rename_follows_sync(jobs, outcomes, i - 2);
}

/// How many stages an attempt may still perform.
spec fn work_left(stage: WriteStage) -> int {
    match stage {
        WriteStage::WriteTemp => 4,
        WriteStage::SyncData => 3,
        WriteStage::Rename => 2,
        WriteStage::SyncDir => 1,
        _ => 0,
    }
}

/// A write ends: no more stages are performed than the attempts have
/// together.
pub proof fn law_write_is_bounded(jobs: Seq<WriteJob>, outcomes: Seq<Result<()>>)
    requires
        is_write(jobs, outcomes),
    ensures
        outcomes.len() <= 4 * WRITE_ATTEMPTS,
{
    lemma_work_left(jobs, outcomes, outcomes.len() as int);
}

proof fn lemma_work_left(jobs: Seq<WriteJob>, outcomes: Seq<Result<()>>, i: int)
    requires
        is_write(jobs, outcomes),
        0 <= i <= outcomes.len(),
    ensures
        jobs[i].wf(),
        i + work_left(jobs[i].stage) + 4 * (WRITE_ATTEMPTS - 1 - jobs[i].attempt) <= 4
            * WRITE_ATTEMPTS,
    decreases i,
{
    if i > 0 {
        lemma_work_left(jobs, outcomes, i - 1);
        assert(write_goes_on(jobs, outcomes, i - 1));
    }
}

/// How a write goes on: a stage that succeeds leads to the next one of the same
/// attempt, and the last one to the end. One that fails for a moment, the file
/// being gone or locked, starts the write over after a pause that grows by ten
/// milliseconds with every attempt, as long as one of the three attempts is
/// left. Any other failure ends the write, and so does that of the last
/// attempt, each with its own error.
pub proof fn law_transient_failures_are_tried_again(
    job: WriteJob,
    outcome: Result<()>,
    step: WriteStep,
    after: WriteJob,
)
    requires
        job.stepped(outcome, step, after),
        job.attempt < 3,
        job.stage.is_work(),
    ensures
        outcome is Ok ==> after.attempt == job.attempt && (job.stage == WriteStage::SyncDir
            <==> step is Done) && (job.stage != WriteStage::SyncDir <==> step is Go) && match job.stage {
            WriteStage::WriteTemp => after.stage == WriteStage::SyncData,
            WriteStage::SyncData => after.stage == WriteStage::Rename,
            WriteStage::Rename => after.stage == WriteStage::SyncDir,
            _ => after.stage == WriteStage::Durable,
        },
        outcome is Err ==> ({
            let e = outcome->Err_0;
            let passing = e is Io && (e->Io_0.kind == IoErrorKind::NotFound || e->Io_0.kind
                == IoErrorKind::PermissionDenied);
            if passing && job.attempt < 2 {
                &&& after.stage == WriteStage::WriteTemp
                &&& after.attempt == job.attempt + 1
                &&& step == (WriteStep::Again { pause_ms: (10 * (job.attempt + 1)) as u64 })
            } else {
                &&& after.stage == WriteStage::Failed
                &&& after.attempt == job.attempt
                &&& step == WriteStep::Failed(e)
            }
        }),
{
}

/// The name of a temporary file: hidden, after the final name and a unique
/// part.
pub open spec fn temp_name_of(name: Option<Seq<char>>, unique: Seq<char>) -> Seq<char> {
    let shown = match name {
        Some(n) => n,
        None => "export"@,
    };
    "."@ + shown + "."@ + unique + ".tmp"@
}

/// The name of the temporary file for the final name `name`; a name that is
/// no text stands as `export`.
pub fn temp_name(name: Option<&str>, unique: &str) -> (r: String)
    ensures
        r@ == temp_name_of(
            match name {
                Some(n) => Some(n@),
                None => None,
            },
            unique@,
        ),
{
    let shown = match name {
        Some(n) => n,
        None => "export",
    };
    let mut out = copy_str(".");
    out.append(shown);
    out.append(".");
    out.append(unique);
    out.append(".tmp");
    out
}

/// The error of a failed rename: its kind stays, because it decides whether
/// the write is tried again.
pub fn rename_error(e: IoError) -> (r: Z1Error)
    ensures
        r matches Z1Error::Io(io) && io.kind == e.kind && io.message@ == Z1Error::Io(e).text(),
        is_transient(r) == is_transient(Z1Error::Io(e)),
{
    let message = concat2("IO error: ", e.message.as_str());
    Z1Error::Io(IoError { kind: e.kind, message })
}

/// A temporary file is hidden, carries the final name, and is told from others
/// by its unique part.
pub proof fn law_temp_names(name: Seq<char>, a: Seq<char>, b: Seq<char>)
    ensures
        temp_name_of(Some(name), a)[0] == '.',
        temp_name_of(Some(name), a).subrange(1, 1 + name.len() as int) == name,
        ".tmp"@.is_suffix_of(temp_name_of(Some(name), a)),
        temp_name_of(Some(name), a) == temp_name_of(Some(name), b) ==> a == b,
        temp_name_of(None, a) == temp_name_of(Some("export"@), a),
        temp_name_of(Some(name), a) != name,
{
    reveal_strlit(".");
    reveal_strlit(".tmp");
    let x = temp_name_of(Some(name), a);
    let y = temp_name_of(Some(name), b);
    let n = name.len() as int;
    assert(x.len() == n + a.len() + 6);
    assert(y.len() == n + b.len() + 6);
    assert(x.subrange(1, 1 + n) =~= name);
    assert(x.subrange(x.len() - 4, x.len() as int) =~= ".tmp"@);
    assert(x.subrange(n + 2, n + 2 + a.len() as int) =~= a);
    assert(y.subrange(n + 2, n + 2 + b.len() as int) =~= b);
}

} // verus!
