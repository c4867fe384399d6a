//! The WAL writer: what to write where, and when to sync.
//!
//! The writer decides; the caller performs. Every operation returns a plan, a
//! list of actions on the segment files. The caller performs them in order
//! and reports each one back with [`WalWriter::applied`]. An action that fails
//! ends the plan; so does the error that a plan may carry, after its actions.
//!
//! Durability is reached in one place: when the `Sync` at the end of the plan
//! of `append_durable` is done. Under group commit, records are queued, and a
//! full queue is written and synced as a whole.

use crate::error::{IoErrorKind, Result, Z1Error};
use crate::text::{copy_str, decimal, push_decimal};
use crate::wal::names::{name_models, parse_segment, segment_number};
use crate::wal::record::{
    all_fit, encode_record, fits, lemma_wal_models_push, log_bytes, payload_of, raw_len,
    record_bytes, too_large_text, wal_models, WalEntry, WalModel, WalRecord, MAX_WAL_RECORD_LEN,
};
use crate::wal::replay::{holds, joined, segments_hold, sound_end, sound_len};
use crate::TxnId;
use vstd::prelude::*;

verus! {

/// When a record counts as durable.
#[derive(Debug, Clone, Copy, PartialEq, Eq, Structural)]
pub enum SyncPolicy {
    /// Every record is synced before the call returns.
    SyncEach,
    /// Records are queued, and a full queue is written and synced together.
    GroupCommitStrict,
    /// As `SyncEach`.
    FlushOnly,
}

impl Default for SyncPolicy {
    fn default() -> (r: Self)
        ensures
            r == SyncPolicy::GroupCommitStrict,
    {
        SyncPolicy::GroupCommitStrict
    }
}

/// Group commit configuration.
#[derive(Debug, Clone, Copy)]
pub struct GroupCommitConfig {
    pub max_batch_size: usize,
    pub max_wait_ms: u64,
    pub policy: SyncPolicy,
}

impl Default for GroupCommitConfig {
    fn default() -> (r: Self)
        ensures
            r.max_batch_size == 100,
            r.max_wait_ms == 50,
            r.policy == SyncPolicy::GroupCommitStrict,
    {
        GroupCommitConfig {
            max_batch_size: 100,
            max_wait_ms: 50,
            policy: SyncPolicy::GroupCommitStrict,
        }
    }
}

/// WAL configuration.
#[derive(Debug)]
pub struct WalConfig {
    pub wal_dir: String,
    pub max_file_size: u64,
    pub enabled: bool,
    pub group_commit: Option<GroupCommitConfig>,
    /// Writes go straight to the disk, and nothing is left to sync. Only
    /// Windows has this; see [`WalWriter::open`].
    pub write_through: bool,
}

/// The clone has the same settings.
impl Clone for WalConfig {
    fn clone(&self) -> (r: Self)
        ensures
            r.wal_dir@ == self.wal_dir@,
            r == (WalConfig { wal_dir: r.wal_dir, ..*self }),
    {
        WalConfig {
            wal_dir: copy_str(self.wal_dir.as_str()),
            max_file_size: self.max_file_size,
            enabled: self.enabled,
            group_commit: self.group_commit,
            write_through: self.write_through,
        }
    }
}

/// Write-through is on wherever the platform has it.
impl Default for WalConfig {
    fn default() -> (r: Self)
        ensures
            r.wal_dir@ == "wal"@,
            r.max_file_size == 128 * 1024 * 1024,
            r.enabled,
            r.group_commit matches Some(g) && g.max_batch_size == 100 && g.max_wait_ms == 50
                && g.policy == SyncPolicy::GroupCommitStrict,
            r.write_through,
    {
        WalConfig {
            wal_dir: copy_str("wal"),
            max_file_size: 128 * 1024 * 1024,
            enabled: true,
            group_commit: Some(GroupCommitConfig::default()),
            write_through: true,
        }
    }
}

impl WalConfig {
    pub open spec fn policy(self) -> SyncPolicy {
        match self.group_commit {
            Some(g) => g.policy,
            None => SyncPolicy::GroupCommitStrict,
        }
    }

    pub open spec fn batch_size(self) -> usize {
        match self.group_commit {
            Some(g) => g.max_batch_size,
            None => 100,
        }
    }

    /// The effective sync policy.
    pub fn sync_policy(&self) -> (r: SyncPolicy)
        ensures
            r == self.policy(),
    {
        match &self.group_commit {
            Some(g) => g.policy,
            None => SyncPolicy::GroupCommitStrict,
        }
    }
}

/// A segment as a position in the log.
#[derive(Debug, Clone, Copy, PartialEq, Eq, Structural)]
pub struct WalPosition {
    pub seq: u64,
}

/// Where the writer stands.
#[derive(Debug, Clone, Copy, PartialEq, Eq, Structural)]
pub struct Cursor {
    /// Number of the current segment.
    pub seq: u64,
    /// Bytes in the current segment.
    pub segment_bytes: u64,
    /// Bytes in the segments that this writer has sealed.
    pub prev_segments_bytes: u64,
}

/// An action on the segment files.
#[derive(Debug)]
pub enum WalAction {
    /// Sync the current segment before it is left.
    Seal,
    /// Create the segment `seq` and continue there.
    Open { seq: u64 },
    /// Append to the current segment.
    Write { bytes: Vec<u8> },
    /// Flush the current segment and, with `to_disk`, sync it.
    Sync { to_disk: bool },
}

/// An action as a mathematical value.
#[verifier::ext_equal]
pub enum ActionModel {
    Seal,
    Open { seq: u64 },
    Write { bytes: Seq<u8> },
    Sync { to_disk: bool },
}

impl View for WalAction {
    type V = ActionModel;

    open spec fn view(&self) -> ActionModel {
        match *self {
            WalAction::Seal => ActionModel::Seal,
            WalAction::Open { seq } => ActionModel::Open { seq },
            WalAction::Write { bytes } => ActionModel::Write { bytes: bytes@ },
            WalAction::Sync { to_disk } => ActionModel::Sync { to_disk },
        }
    }
}

pub open spec fn action_models(s: Seq<WalAction>) -> Seq<ActionModel> {
    s.map_values(|a: WalAction| a@)
}

proof fn lemma_action_models_push(s: Seq<WalAction>, a: WalAction)
    ensures
        action_models(s.push(a)) == action_models(s).push(a@),
{
    assert(action_models(s.push(a)) =~= action_models(s).push(a@));
}

/// Actions to perform in order, and an error to return after them.
#[derive(Debug)]
pub struct WalPlan {
    pub actions: Vec<WalAction>,
    pub error: Option<Z1Error>,
}

/// Why a plan ends in an error.
pub enum PlanStop {
    /// A payload of this size is over the limit.
    TooLarge(nat),
    /// There is no segment number after the current one.
    NoMoreSegments,
}

/// A plan as a mathematical value.
pub struct PlanModel {
    pub actions: Seq<ActionModel>,
    pub stop: Option<PlanStop>,
}

pub open spec fn plan_is(p: WalPlan, m: PlanModel) -> bool {
    &&& action_models(p.actions@) == m.actions
    &&& match m.stop {
        Some(PlanStop::TooLarge(len)) => p.error matches Some(Z1Error::Serialization(t)) && t@
            == too_large_text(len),
        Some(PlanStop::NoMoreSegments) => p.error matches Some(Z1Error::Wal(t)) && t@
            == "WAL segment numbers are used up"@,
        None => p.error is None,
    }
}

pub open spec fn no_plan() -> PlanModel {
    PlanModel { actions: Seq::empty(), stop: None }
}

/// `a + b`, or the largest number where that does not fit.
pub open spec fn capped_sum(a: u64, b: nat) -> u64 {
    if a + b > u64::MAX {
        u64::MAX
    } else {
        (a + b) as u64
    }
}

/// Where the writer stands after an action.
pub open spec fn after_action(c: Cursor, a: ActionModel) -> Cursor {
    match a {
        ActionModel::Open { seq } => Cursor {
            seq,
            segment_bytes: 0,
            prev_segments_bytes: capped_sum(c.prev_segments_bytes, c.segment_bytes as nat),
        },
        ActionModel::Write { bytes } => Cursor {
            segment_bytes: capped_sum(c.segment_bytes, bytes.len()),
            ..c
        },
        _ => c,
    }
}

pub open spec fn after_actions(c: Cursor, actions: Seq<ActionModel>) -> Cursor
    decreases actions.len(),
{
    if actions.len() == 0 {
        c
    } else {
        after_action(after_actions(c, actions.drop_last()), actions.last())
    }
}

/// A record of `len` bytes would take a segment that is not empty over the
/// size limit. A segment may be filled exactly.
pub open spec fn rotates(c: Cursor, max_file_size: u64, len: nat) -> bool {
    c.segment_bytes + len > max_file_size && c.segment_bytes > 0
}

/// Leaving the current segment.
pub open spec fn rotation(c: Cursor, write_through: bool) -> Seq<ActionModel> {
    let open = ActionModel::Open { seq: (c.seq + 1) as u64 };
    if write_through {
        seq![open]
    } else {
        seq![ActionModel::Seal, open]
    }
}

/// The plan for appending entries.
pub open spec fn planned(
    c: Cursor,
    max_file_size: u64,
    write_through: bool,
    es: Seq<WalModel>,
) -> PlanModel
    decreases es.len(),
{
    if es.len() == 0 {
        no_plan()
    } else {
        let before = planned(c, max_file_size, write_through, es.drop_last());
        let at = after_actions(c, before.actions);
        let e = es.last();
        let write = ActionModel::Write { bytes: record_bytes(e) };
        if before.stop is Some {
            before
        } else if !fits(e) {
            PlanModel { stop: Some(PlanStop::TooLarge(payload_of(e).len())), ..before }
        } else if !rotates(at, max_file_size, record_bytes(e).len()) {
            PlanModel { actions: before.actions.push(write), ..before }
        } else if at.seq == u64::MAX {
            PlanModel { stop: Some(PlanStop::NoMoreSegments), ..before }
        } else {
            PlanModel {
                actions: (before.actions + rotation(at, write_through)).push(write),
                ..before
            }
        }
    }
}

/// A plan, followed by a sync.
pub open spec fn with_sync(p: PlanModel, write_through: bool) -> PlanModel {
    if p.stop is Some {
        p
    } else {
        PlanModel { actions: p.actions.push(ActionModel::Sync { to_disk: !write_through }), ..p }
    }
}

/// The plan for writing and syncing the queued entries.
pub open spec fn flushed(
    c: Cursor,
    max_file_size: u64,
    write_through: bool,
    queue: Seq<WalModel>,
) -> PlanModel {
    if queue.len() == 0 {
        no_plan()
    } else {
        with_sync(planned(c, max_file_size, write_through, queue), write_through)
    }
}

/// WAL writer.
#[derive(Debug)]
pub struct WalWriter {
    pub config: WalConfig,
    pub cursor: Cursor,
    /// Queued by group commit, not yet written.
    pub queue: Vec<WalEntry>,
}

fn no_more_segments() -> (r: Z1Error)
    ensures
        r matches Z1Error::Wal(t) && t@ == "WAL segment numbers are used up"@,
{
    Z1Error::Wal(copy_str("WAL segment numbers are used up"))
}

fn advance(c: Cursor, a: &WalAction) -> (r: Cursor)
    ensures
        r == after_action(c, a@),
{
    match a {
        WalAction::Open { seq } => Cursor {
            seq: *seq,
            segment_bytes: 0,
            prev_segments_bytes: c.prev_segments_bytes.saturating_add(c.segment_bytes),
        },
        WalAction::Write { bytes } => Cursor {
            segment_bytes: c.segment_bytes.saturating_add(bytes.len() as u64),
            ..c
        },
        _ => c,
    }
}

proof fn lemma_after_push(c: Cursor, actions: Seq<ActionModel>, a: ActionModel)
    ensures
        after_actions(c, actions.push(a)) == after_action(after_actions(c, actions), a),
{
    assert(actions.push(a).drop_last() =~= actions);
}

/// The plan for appending entries.
fn plan_entries(
    start: Cursor,
    max_file_size: u64,
    write_through: bool,
    entries: &Vec<WalEntry>,
) -> (r: WalPlan)
    ensures
        plan_is(r, planned(start, max_file_size, write_through, wal_models(entries@))),
        r.error is None ==> forall|i: int|
            0 <= i < entries@.len() ==> raw_len((#[trigger] entries@[i])@.record)
                <= MAX_WAL_RECORD_LEN,
{
    let ghost all = wal_models(entries@);
    let mut actions: Vec<WalAction> = Vec::new();
    let mut at: Cursor = start;
    let mut i: usize = 0;
    assert(all.take(0) =~= Seq::<WalModel>::empty());
    assert(action_models(actions@) =~= Seq::<ActionModel>::empty());
    while i < entries.len()
        invariant
            i <= entries@.len(),
            all == wal_models(entries@),
            action_models(actions@) == planned(
                start,
                max_file_size,
                write_through,
                all.take(i as int),
            ).actions,
            planned(start, max_file_size, write_through, all.take(i as int)).stop is None,
            at == after_actions(start, action_models(actions@)),
            forall|j: int|
                0 <= j < i ==> raw_len((#[trigger] entries@[j])@.record) <= MAX_WAL_RECORD_LEN,
        decreases entries@.len() - i,
    {
        let ghost done = all.take(i + 1);
        proof {
            assert(done.drop_last() =~= all.take(i as int));
            assert(done.last() == entries@[i as int]@);
        }
        let bytes = match encode_record(&entries[i]) {
            Ok(b) => b,
            Err(e) => {
                proof {
                    lemma_stop_stays(start, max_file_size, write_through, all, i + 1);
                }
                return WalPlan { actions, error: Some(e) };
            },
        };
        let len: u64 = bytes.len() as u64;
        let over: bool = at.segment_bytes > max_file_size || len > max_file_size
            - at.segment_bytes;
        let ghost acts0 = action_models(actions@);
        if over && at.segment_bytes > 0 {
            assert(rotates(at, max_file_size, record_bytes(entries@[i as int]@).len()));
            if at.seq == u64::MAX {
                proof {
                    lemma_stop_stays(start, max_file_size, write_through, all, i + 1);
                }
                return WalPlan { actions, error: Some(no_more_segments()) };
            }
            let ghost a0 = actions@;
            let ghost c0 = at;
            if !write_through {
                let seal = WalAction::Seal;
                let ghost a1 = actions@;
                at = advance(at, &seal);
                actions.push(seal);
                proof {
                    lemma_action_models_push(a1, seal);
                    lemma_after_push(start, action_models(a1), seal@);
                }
            }
            let open = WalAction::Open { seq: at.seq + 1 };
            let ghost a2 = actions@;
            at = advance(at, &open);
            actions.push(open);
            proof {
                lemma_action_models_push(a2, open);
                lemma_after_push(start, action_models(a2), open@);
                assert(action_models(actions@) =~= acts0 + rotation(c0, write_through));
            }
        } else {
            assert(!rotates(at, max_file_size, record_bytes(entries@[i as int]@).len()));
        }
        let write = WalAction::Write { bytes };
        let ghost a3 = actions@;
        at = advance(at, &write);
        actions.push(write);
        proof {
            lemma_action_models_push(a3, write);
            lemma_after_push(start, action_models(a3), write@);
        }
        i = i + 1;
    }
    assert(all.take(i as int) =~= all);
    WalPlan { actions, error: None }
}

/// A plan that stops stays as it is, whatever comes after.
proof fn lemma_stop_stays(
    c: Cursor,
    max_file_size: u64,
    write_through: bool,
    es: Seq<WalModel>,
    k: int,
)
    requires
        0 <= k <= es.len(),
        planned(c, max_file_size, write_through, es.take(k)).stop is Some,
    ensures
        planned(c, max_file_size, write_through, es) == planned(
            c,
            max_file_size,
            write_through,
            es.take(k),
        ),
    decreases es.len() - k,
{
    if k == es.len() {
        assert(es.take(k) =~= es);
    } else {
        assert(es.take(k + 1).drop_last() =~= es.take(k));
        lemma_stop_stays(c, max_file_size, write_through, es, k + 1);
    }
}

impl WalWriter {
    /// A writer that stands at the end of the segment `seq`, which holds
    /// `segment_bytes` bytes.
    pub fn new(config: WalConfig, seq: u64, segment_bytes: u64) -> (r: Self)
        ensures
            r.config == config,
            r.cursor == (Cursor { seq, segment_bytes, prev_segments_bytes: 0 }),
            r.queue@.len() == 0,
    {
        WalWriter {
            config,
            cursor: Cursor { seq, segment_bytes, prev_segments_bytes: 0 },
            queue: Vec::new(),
        }
    }

    /// A writer that goes on from the latest segment found, given by its
    /// number and bytes; with none it starts segment 0. A record that broke
    /// off at the end of that segment is to be cut off first; see
    /// [`sound_len`]. Elsewhere than on Windows there is no write-through,
    /// whatever the configuration asks for.
    pub fn open(config: WalConfig, latest: Option<(u64, &Vec<u8>)>, windows: bool) -> (r: Self)
        ensures
            r.config == (WalConfig { write_through: windows && config.write_through, ..config }),
            r.cursor == (match latest {
                Some((seq, bytes)) => Cursor {
                    seq,
                    segment_bytes: sound_end(bytes@, 0) as u64,
                    prev_segments_bytes: 0,
                },
                None => Cursor { seq: 0, segment_bytes: 0, prev_segments_bytes: 0 },
            }),
            r.queue@.len() == 0,
    {
        let mut config = config;
        config.write_through = windows && config.write_through;
        match latest {
            Some((seq, bytes)) => {
                let n: usize = sound_len(bytes.as_slice());
                Self::new(config, seq, n as u64)
            },
            None => Self::new(config, 0, 0),
        }
    }

    /// Turn an entry into its bytes in a segment.
    pub fn encode_record(entry: &WalEntry) -> (r: Result<Vec<u8>>)
        ensures
            r is Ok <==> fits(entry@),
            r matches Ok(bytes) ==> bytes@ == record_bytes(entry@),
            r matches Err(e) ==> (e matches Z1Error::Serialization(m) && m@ == too_large_text(
                payload_of(entry@).len(),
            )),
    {
        encode_record(entry)
    }

    /// Append a record without syncing.
    pub fn append(&self, txn_id: TxnId, record: WalRecord) -> (r: WalPlan)
        ensures
            self.config.enabled ==> plan_is(
                r,
                planned(
                    self.cursor,
                    self.config.max_file_size,
                    self.config.write_through,
                    seq![WalModel { txn_id, record: record@ }],
                ),
            ),
            !self.config.enabled ==> plan_is(r, no_plan()),
            self.config.enabled && raw_len(record@) > MAX_WAL_RECORD_LEN ==> r.error is Some,
    {
        if !self.config.enabled {
            let r = WalPlan { actions: Vec::new(), error: None };
            assert(action_models(r.actions@) =~= Seq::<ActionModel>::empty());
            return r;
        }
        let mut entries: Vec<WalEntry> = Vec::new();
        entries.push(WalEntry { txn_id, record });
        assert(wal_models(entries@) =~= seq![WalModel { txn_id, record: record@ }]);
        let r = plan_entries(
            self.cursor,
            self.config.max_file_size,
            self.config.write_through,
            &entries,
        );
        assert(entries@[0]@.record == record@);
        r
    }

    /// Append a record durably: it is written and synced, or, under group
    /// commit, queued; a queue that has reached the batch size is written and
    /// synced as a whole.
    pub fn append_durable(&mut self, txn_id: TxnId, record: WalRecord) -> (r: WalPlan)
        ensures
            final(self).config == old(self).config,
            final(self).cursor == old(self).cursor,
            ({
                let c = old(self).config;
                let e = WalModel { txn_id, record: record@ };
                let queued = wal_models(old(self).queue@).push(e);
                if !c.enabled {
                    plan_is(r, no_plan()) && final(self).queue == old(self).queue
                } else if c.policy() != SyncPolicy::GroupCommitStrict {
                    &&& plan_is(
                        r,
                        with_sync(
                            planned(old(self).cursor, c.max_file_size, c.write_through, seq![e]),
                            c.write_through,
                        ),
                    )
                    &&& final(self).queue == old(self).queue
                } else if queued.len() >= c.batch_size() {
                    &&& plan_is(
                        r,
                        flushed(old(self).cursor, c.max_file_size, c.write_through, queued),
                    )
                    &&& final(self).queue@.len() == 0
                } else {
                    plan_is(r, no_plan()) && wal_models(final(self).queue@) == queued
                }
            }),
    {
        if !self.config.enabled {
            let r = WalPlan { actions: Vec::new(), error: None };
            assert(action_models(r.actions@) =~= Seq::<ActionModel>::empty());
            return r;
        }
        match self.config.sync_policy() {
            SyncPolicy::GroupCommitStrict => {
                let batch_size: usize = match &self.config.group_commit {
                    Some(g) => g.max_batch_size,
                    None => 100,
                };
                let entry = WalEntry { txn_id, record };
                let ghost q0 = self.queue@;
                self.queue.push(entry);
                proof {
                    lemma_wal_models_push(q0, entry);
                }
                if self.queue.len() >= batch_size {
                    return self.flush_queue();
                }
                let r = WalPlan { actions: Vec::new(), error: None };
                assert(action_models(r.actions@) =~= Seq::<ActionModel>::empty());
                r
            },
            _ => {
                let mut plan = self.append(txn_id, record);
                self.add_sync(&mut plan);
                plan
            },
        }
    }

    /// Add a sync at the end of a plan that does not end in an error.
    fn add_sync(&self, plan: &mut WalPlan)
        ensures
            forall|m: PlanModel| #[trigger]
                plan_is(*old(plan), m) ==> plan_is(
                    *final(plan),
                    with_sync(m, self.config.write_through),
                ),
    {
        if plan.error.is_none() {
            let ghost a0 = plan.actions@;
            let a = WalAction::Sync { to_disk: !self.config.write_through };
            plan.actions.push(a);
            proof {
                lemma_action_models_push(a0, a);
            }
        }
    }

    /// Write and sync the queue. The queue is empty afterwards, also when the
    /// plan ends in an error.
    fn flush_queue(&mut self) -> (r: WalPlan)
        ensures
            plan_is(
                r,
                flushed(
                    old(self).cursor,
                    old(self).config.max_file_size,
                    old(self).config.write_through,
                    wal_models(old(self).queue@),
                ),
            ),
            final(self).queue@.len() == 0,
            final(self).config == old(self).config,
            final(self).cursor == old(self).cursor,
    {
        if self.queue.len() == 0 {
            let r = WalPlan { actions: Vec::new(), error: None };
            assert(action_models(r.actions@) =~= Seq::<ActionModel>::empty());
            return r;
        }
        let mut plan = plan_entries(
            self.cursor,
            self.config.max_file_size,
            self.config.write_through,
            &self.queue,
        );
        self.queue = Vec::new();
        self.add_sync(&mut plan);
        plan
    }

    /// Write and sync the queued records. Returns their number.
    pub fn flush_pending(&mut self) -> (r: (usize, WalPlan))
        ensures
            r.0 == old(self).queue@.len(),
            plan_is(
                r.1,
                flushed(
                    old(self).cursor,
                    old(self).config.max_file_size,
                    old(self).config.write_through,
                    wal_models(old(self).queue@),
                ),
            ),
            final(self).queue@.len() == 0,
            final(self).config == old(self).config,
            final(self).cursor == old(self).cursor,
    {
        let n: usize = self.queue.len();
        let plan = self.flush_queue();
        (n, plan)
    }

    /// Write the queued records and sync the current segment.
    pub fn flush_and_sync(&mut self) -> (r: WalPlan)
        ensures
            plan_is(
                r,
                with_sync(
                    flushed(
                        old(self).cursor,
                        old(self).config.max_file_size,
                        old(self).config.write_through,
                        wal_models(old(self).queue@),
                    ),
                    old(self).config.write_through,
                ),
            ),
            final(self).queue@.len() == 0,
            final(self).config == old(self).config,
            final(self).cursor == old(self).cursor,
    {
        let mut plan = self.flush_queue();
        self.add_sync(&mut plan);
        plan
    }

    /// Take note of an action that was performed.
    pub fn applied(&mut self, action: &WalAction)
        ensures
            final(self).cursor == after_action(old(self).cursor, action@),
            final(self).config == old(self).config,
            final(self).queue == old(self).queue,
    {
        self.cursor = advance(self.cursor, action);
    }

    /// Total size of the segment files, given the sizes of the files found.
    /// With write-through the sizes that a directory reports lag behind, and
    /// what this writer has written is counted instead.
    pub fn size_bytes(&self, file_sizes: &Vec<u64>) -> (r: u64)
        ensures
            r == if self.config.write_through {
                capped_sum(self.cursor.segment_bytes, self.cursor.prev_segments_bytes as nat)
            } else {
                capped_total(file_sizes@)
            },
    {
        if self.config.write_through {
            return self.cursor.segment_bytes.saturating_add(self.cursor.prev_segments_bytes);
        }
        let mut sum: u64 = 0;
        let mut i: usize = 0;
        assert(file_sizes@.take(0) =~= Seq::<u64>::empty());
        while i < file_sizes.len()
            invariant
                i <= file_sizes@.len(),
                sum == capped_total(file_sizes@.take(i as int)),
            decreases file_sizes@.len() - i,
        {
            assert(file_sizes@.take(i + 1).drop_last() =~= file_sizes@.take(i as int));
            sum = sum.saturating_add(file_sizes[i]);
            i = i + 1;
        }
        assert(file_sizes@.take(i as int) =~= file_sizes@);
        sum
    }

    /// Which of the files in the WAL directory to delete: the segments
    /// strictly before `pos`. Refused while records are queued.
    pub fn truncate_before(&self, pos: WalPosition, names: &Vec<String>) -> (r: Result<Vec<usize>>)
        ensures
            match r {
                Ok(at) => self.queue@.len() == 0 && at@ == old_segments(
                    name_models(names@),
                    pos.seq,
                ),
                Err(e) => self.queue@.len() > 0 && (e matches Z1Error::Wal(m) && m@
                    == "truncate_before: "@ + decimal(self.queue@.len())
                    + " unflushed record(s) in group-commit queue; flush_and_sync must run before truncation"@),
            },
    {
        if self.queue.len() > 0 {
            let mut m = copy_str("truncate_before: ");
            push_decimal(&mut m, self.queue.len() as u64);
            m.append(
                " unflushed record(s) in group-commit queue; flush_and_sync must run before truncation",
            );
            return Err(Z1Error::Wal(m));
        }
        let mut out: Vec<usize> = Vec::new();
        let ghost all = name_models(names@);
        let mut i: usize = 0;
        assert(all.take(0) =~= Seq::<Seq<char>>::empty());
        while i < names.len()
            invariant
                i <= names@.len(),
                all == name_models(names@),
                out@ == old_segments(all.take(i as int), pos.seq),
            decreases names@.len() - i,
        {
            assert(all.take(i + 1).drop_last() =~= all.take(i as int));
            assert(all.take(i + 1).last() == names@[i as int]@);
            match parse_segment(names[i].as_str()) {
                Some(seq) => {
                    if seq < pos.seq {
                        out.push(i);
                    }
                },
                None => {},
            }
            i = i + 1;
        }
        assert(all.take(i as int) =~= all);
        Ok(out)
    }

    /// The current segment.
    pub fn position(&self) -> (r: WalPosition)
        ensures
            r.seq == self.cursor.seq,
    {
        WalPosition { seq: self.cursor.seq }
    }
}

/// The sum of sizes, or the largest number where that does not fit.
pub open spec fn capped_total(sizes: Seq<u64>) -> u64
    decreases sizes.len(),
{
    if sizes.len() == 0 {
        0
    } else {
        capped_sum(capped_total(sizes.drop_last()), sizes.last() as nat)
    }
}

/// Where the names of segments before `seq` stand.
pub open spec fn old_segments(names: Seq<Seq<char>>, seq: u64) -> Seq<usize>
    decreases names.len(),
{
    if names.len() == 0 {
        Seq::empty()
    } else {
        let before = old_segments(names.drop_last(), seq);
        match segment_number(names.last()) {
            Some(n) => if n < seq {
                before.push((names.len() - 1) as usize)
            } else {
                before
            },
            None => before,
        }
    }
}

/// Whether a failed flush or sync may be passed over: on Windows these kinds
/// of error do not mean that data is lost.
pub fn is_non_fatal_sync_error(kind: &IoErrorKind, windows: bool) -> (r: bool)
    ensures
        r == (windows && (*kind is PermissionDenied || *kind is AddrInUse || *kind
            is WouldBlock)),
{
    match kind {
        IoErrorKind::PermissionDenied => windows,
        IoErrorKind::AddrInUse => windows,
        IoErrorKind::WouldBlock => windows,
        _ => false,
    }
}

/// The segments of a log after an action, the current segment last.
pub open spec fn performed(segs: Seq<Seq<u8>>, a: ActionModel) -> Seq<Seq<u8>> {
    match a {
        ActionModel::Open { .. } => segs.push(Seq::empty()),
        ActionModel::Write { bytes } => segs.drop_last().push(segs.last() + bytes),
        _ => segs,
    }
}

pub open spec fn all_performed(segs: Seq<Seq<u8>>, actions: Seq<ActionModel>) -> Seq<Seq<u8>>
    decreases actions.len(),
{
    if actions.len() == 0 {
        segs
    } else {
        performed(all_performed(segs, actions.drop_last()), actions.last())
    }
}

pub proof fn lemma_performed_push(segs: Seq<Seq<u8>>, actions: Seq<ActionModel>, a: ActionModel)
    ensures
        all_performed(segs, actions.push(a)) == performed(all_performed(segs, actions), a),
{
    assert(actions.push(a).drop_last() =~= actions);
}

proof fn lemma_joined_concat(a: Seq<Seq<WalModel>>, b: Seq<WalModel>, i: int)
    requires
        0 <= i <= a.len(),
    ensures
        joined(a.push(b), i) == joined(a, i) + b,
    decreases a.len() - i,
{
    let s = a.push(b);
    if i == a.len() {
        assert(joined(s, i + 1) =~= Seq::<WalModel>::empty());
        assert(joined(s, i) =~= joined(a, i) + b);
    } else {
        lemma_joined_concat(a, b, i + 1);
        assert(joined(s, i) =~= joined(a, i) + b);
    }
}

/// A log with an entry added at the end of its last segment.
proof fn lemma_write(segs: Seq<Seq<u8>>, logs: Seq<Seq<WalModel>>, e: WalModel)
    requires
        segs.len() > 0,
        fits(e),
        segments_hold(segs, logs, Seq::empty()),
    ensures
        segments_hold(
            performed(segs, ActionModel::Write { bytes: record_bytes(e) }),
            logs.drop_last().push(logs.last().push(e)),
            Seq::empty(),
        ),
        joined(logs.drop_last().push(logs.last().push(e)), 0) == joined(logs, 0).push(e),
{
    let after = performed(segs, ActionModel::Write { bytes: record_bytes(e) });
    let logs2 = logs.drop_last().push(logs.last().push(e));
    let none = Seq::<u8>::empty();
    let k = segs.len() - 1;
    assert forall|i: int| 0 <= i < after.len() implies holds(
        #[trigger] after[i],
        logs2[i],
        if i + 1 == after.len() {
            none
        } else {
            Seq::empty()
        },
        i + 1 == after.len(),
    ) by {
        assert(holds(segs[i], logs[i], none, i + 1 == segs.len()));
        if i == k {
            let log = logs[k];
            assert(logs.last() == log && segs.last() == segs[k]);
            assert(log.push(e).drop_last() =~= log);
            assert(log_bytes(log.push(e)) + none =~= log_bytes(log) + none + record_bytes(e));
            assert(all_fit(log.push(e)));
        } else {
            assert(after[i] == segs[i] && logs2[i] == logs[i]);
        }
    }
    assert(logs =~= logs.drop_last().push(logs.last()));
    lemma_joined_concat(logs.drop_last(), logs.last(), 0);
    lemma_joined_concat(logs.drop_last(), logs.last().push(e), 0);
    assert(joined(logs2, 0) =~= joined(logs, 0).push(e));
}

/// A log with a new segment.
proof fn lemma_open(segs: Seq<Seq<u8>>, logs: Seq<Seq<WalModel>>, seq: u64)
    requires
        segments_hold(segs, logs, Seq::empty()),
    ensures
        segments_hold(
            performed(segs, ActionModel::Open { seq }),
            logs.push(Seq::empty()),
            Seq::empty(),
        ),
        joined(logs.push(Seq::empty()), 0) == joined(logs, 0),
{
    let after = segs.push(Seq::empty());
    let none = Seq::<WalModel>::empty();
    let logs2 = logs.push(none);
    assert forall|i: int| 0 <= i < after.len() implies holds(
        #[trigger] after[i],
        logs2[i],
        Seq::<u8>::empty(),
        i + 1 == after.len(),
    ) by {
        if i < segs.len() {
            assert(holds(segs[i], logs[i], Seq::<u8>::empty(), i + 1 == segs.len()));
        } else {
            assert(log_bytes(none) + Seq::<u8>::empty() =~= Seq::<u8>::empty());
        }
    }
    lemma_joined_concat(logs, none, 0);
    assert(joined(logs, 0) + none =~= joined(logs, 0));
}

/// Performing the plan for appending entries adds exactly these entries to
/// the log: whatever the segments held before is still there, and the new
/// entries follow it, in order. Reading such a log back is what replaying
/// promises.
pub proof fn law_plan_appends(
    c: Cursor,
    max_file_size: u64,
    write_through: bool,
    es: Seq<WalModel>,
    segs: Seq<Seq<u8>>,
    logs: Seq<Seq<WalModel>>,
) -> (after: Seq<Seq<WalModel>>)
    requires
        planned(c, max_file_size, write_through, es).stop is None,
        segs.len() > 0,
        segments_hold(segs, logs, Seq::empty()),
    ensures
        segments_hold(
            all_performed(segs, planned(c, max_file_size, write_through, es).actions),
            after,
            Seq::empty(),
        ),
        joined(after, 0) == joined(logs, 0) + es,
        all_performed(segs, planned(c, max_file_size, write_through, es).actions).len() > 0,
    decreases es.len(),
{
    if es.len() == 0 {
        assert(joined(logs, 0) + es =~= joined(logs, 0));
        logs
    } else {
        let before = planned(c, max_file_size, write_through, es.drop_last());
        let at = after_actions(c, before.actions);
        let e = es.last();
        let write = ActionModel::Write { bytes: record_bytes(e) };
        let mid = law_plan_appends(c, max_file_size, write_through, es.drop_last(), segs, logs);
        let now = all_performed(segs, before.actions);
        assert(es =~= es.drop_last().push(e));
        assert(joined(logs, 0) + es =~= (joined(logs, 0) + es.drop_last()).push(e));
        if !rotates(at, max_file_size, record_bytes(e).len()) {
            lemma_performed_push(segs, before.actions, write);
            lemma_write(now, mid, e);
            mid.drop_last().push(mid.last().push(e))
        } else {
            let open = ActionModel::Open { seq: (at.seq + 1) as u64 };
            let opened = before.actions + rotation(at, write_through);
            let now2 = performed(now, open);
            if write_through {
                assert(opened =~= before.actions.push(open));
                lemma_performed_push(segs, before.actions, open);
            } else {
                let sealed = before.actions.push(ActionModel::Seal);
                assert(opened =~= sealed.push(open));
                lemma_performed_push(segs, before.actions, ActionModel::Seal);
                lemma_performed_push(segs, sealed, open);
            }
            lemma_open(now, mid, open->seq);
            lemma_performed_push(segs, opened, write);
            let mid2 = mid.push(Seq::empty());
            lemma_write(now2, mid2, e);
            mid2.drop_last().push(mid2.last().push(e))
        }
    }
}

/// Truncation deletes only segments before the position; the segment at the
/// position and all after it stay.
pub proof fn law_truncation_keeps_the_rest(names: Seq<Seq<char>>, seq: u64, i: int)
    requires
        0 <= i < names.len() <= usize::MAX,
    ensures
        old_segments(names, seq).contains(i as usize) <==> (segment_number(names[i]) matches Some(n)
            && n < seq),
    decreases names.len(),
{
    let rest = names.drop_last();
    let s = old_segments(names, seq);
    let before = old_segments(rest, seq);
    lemma_old_segments_bound(rest, seq);
    let pushed = segment_number(names.last()) matches Some(n) && n < seq;
    if i == names.len() - 1 {
        if pushed {
            assert(s[before.len() as int] == i as usize);
        } else if s.contains(i as usize) {
            let k = choose|k: int| 0 <= k < s.len() && s[k] == i as usize;
            assert(before[k] < rest.len());
        }
    } else {
        law_truncation_keeps_the_rest(rest, seq, i);
        assert(rest[i] == names[i]);
        if before.contains(i as usize) {
            let k = choose|k: int| 0 <= k < before.len() && before[k] == i as usize;
            assert(s[k] == i as usize);
        }
        if s.contains(i as usize) {
            let k = choose|k: int| 0 <= k < s.len() && s[k] == i as usize;
            if k < before.len() {
                assert(before[k] == i as usize);
            }
        }
    }
}

proof fn lemma_old_segments_bound(names: Seq<Seq<char>>, seq: u64)
    requires
        names.len() <= usize::MAX,
    ensures
        forall|k: int|
            0 <= k < old_segments(names, seq).len() ==> #[trigger] old_segments(names, seq)[k]
                < names.len(),
    decreases names.len(),
{
    if names.len() > 0 {
        let rest = names.drop_last();
        let before = old_segments(rest, seq);
        lemma_old_segments_bound(rest, seq);
        assert forall|k: int| 0 <= k < old_segments(names, seq).len() implies #[trigger] old_segments(
            names,
            seq,
        )[k] < names.len() by {
            if k < before.len() {
                assert(old_segments(names, seq)[k] == before[k]);
            }
        }
    }
}

} // verus!
