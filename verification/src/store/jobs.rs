//! Flush and compaction as jobs that the caller drives.
//!
//! A job names one file operation at a time. The caller performs it and asks
//! for the next; where an operation fails, it drops the job. Nothing is
//! lost then: a flush leaves its versions in the recent-flush cache, and a
//! compaction drops the L2 patches of a column family only when what GC keeps
//! of them is in the index of L3.

use crate::bytes::lex_lt;
use crate::error::Z1Error;
use crate::sort::Ranked;
use crate::store::disk::{
    everything, is_patch_of, is_too_large, missing, others_unchanged, patch_bytes, patch_file,
    patch_list, patches_in, placed, prepared, ref_of, versions_in, DiskLayer, PatchWrite, RefModel,
};
use crate::store::flush::{
    as_patch, grouped, lemma_of_cf_member, merges, of_cf, CompactStep, FlushEngine, FlushGroup,
};
use crate::store::types::{patch_le, patch_models, EntryModel, PatchEntry, PatchModel};
use crate::text::copy_str;
use crate::TxnId;
use std::collections::HashMap;
use vstd::prelude::*;

verus! {

/// An index entry of a patch file that holds this entry.
pub open spec fn ref_holds(r: RefModel, p: PatchModel) -> bool {
    exists|c: Seq<PatchModel>| r == #[trigger] ref_of(r.name, c) && c.contains(p)
}

/// A patch file in the index holds this entry.
pub open spec fn indexed(list: Seq<RefModel>, p: PatchModel) -> bool {
    exists|i: int| 0 <= i < list.len() && ref_holds(#[trigger] list[i], p)
}

proof fn lemma_placed_members(s: Seq<RefModel>, r: RefModel, x: RefModel)
    requires
        s.contains(x) || x == r,
    ensures
        placed(s, r).contains(x),
    decreases s.len(),
{
    let now = placed(s, r);
    if s.len() == 0 {
        assert(now[0] == r);
    } else if lex_lt(r.min_key, s.last().min_key) {
        let rest = s.drop_last();
        let before = placed(rest, r);
        if x == s.last() && x != r {
            assert(now[now.len() - 1] == x);
        } else {
            if x != r {
                let i = choose|i: int| 0 <= i < s.len() && s[i] == x;
                assert(rest[i] == x);
            }
            lemma_placed_members(rest, r, x);
            let k = choose|k: int| 0 <= k < before.len() && before[k] == x;
            assert(now[k] == x);
        }
    } else {
        if x == r {
            assert(now[now.len() - 1] == x);
        } else {
            let i = choose|i: int| 0 <= i < s.len() && s[i] == x;
            assert(now[i] == x);
        }
    }
}

/// What is indexed stays so when a patch is entered, and the patch's entries
/// are indexed.
proof fn lemma_placed_indexed(s: Seq<RefModel>, r: RefModel, p: PatchModel)
    ensures
        indexed(s, p) || ref_holds(r, p) ==> indexed(placed(s, r), p),
{
    if indexed(s, p) || ref_holds(r, p) {
        let x = if indexed(s, p) {
            s[choose|i: int| 0 <= i < s.len() && ref_holds(#[trigger] s[i], p)]
        } else {
            r
        };
        if indexed(s, p) {
            let i = choose|i: int| 0 <= i < s.len() && ref_holds(#[trigger] s[i], p);
            assert(s.contains(s[i]));
        }
        lemma_placed_members(s, r, x);
        let now = placed(s, r);
        let k = choose|k: int| 0 <= k < now.len() && now[k] == x;
        assert(ref_holds(now[k], p));
    }
}

/// The patch made of some entries holds each of them.
proof fn lemma_prepared_holds(
    w: PatchWrite,
    cf: u16,
    entries: Seq<PatchEntry>,
    id: u64,
    p: PatchModel,
)
    requires
        prepared(w, cf, entries, id),
        patch_models(entries).contains(p),
    ensures
        w.patch.format@.contains(p),
{
    let sorted = w.patch.format->entries@;
    let m = choose|m: int| 0 <= m < patch_models(entries).len() && patch_models(entries)[m] == p;
    entries.to_multiset_ensures();
    sorted.to_multiset_ensures();
    let pe = entries[m];
    assert(entries.contains(pe));
    assert(entries.to_multiset().count(pe) > 0);
    assert(sorted.to_multiset().count(pe) > 0);
    assert(sorted.contains(pe));
    let n = choose|n: int| 0 <= n < sorted.len() && sorted[n] == pe;
    assert(patch_models(sorted)[n] == p);
}

/// The next operation of a flush.
#[derive(Debug)]
pub enum FlushStep {
    /// Write an L2 patch file, durably and all at once.
    Write { cf: u16, name: String, bytes: Vec<u8> },
    /// The flush is complete; how many patches it has written.
    Done(usize),
    /// The flush has failed.
    Failed(Z1Error),
}

/// A flush under way.
#[derive(Debug)]
pub struct FlushJob {
    pub groups: Vec<FlushGroup>,
    /// The group to write next.
    pub next: usize,
    /// The patch that the caller is writing.
    pub out: Option<PatchWrite>,
}

/// What a step of a flush comes to.
pub open spec fn flush_stepped(
    job0: FlushJob,
    st0: FlushEngine,
    r: FlushStep,
    job1: FlushJob,
    st1: FlushEngine,
) -> bool {
    &&& st1.wf()
    // only the group that is being written gives its entries away
    &&& job1.groups@.len() == job0.groups@.len()
    &&& forall|g: int|
        0 <= g < job0.groups@.len() && (g != job0.next || r is Done)
            ==> #[trigger] job1.groups@[g] == job0.groups@[g]
    &&& !(r is Write) ==> job1.out is None
    &&& st1 == (FlushEngine {
        l2: st1.l2,
        recent_flush: st1.recent_flush,
        flush_epoch: st1.flush_epoch,
        next_patch_id: st1.next_patch_id,
        ..st0
    })
    &&& match job0.out {
        Some(w) => {
            &&& patches_in(st1.l2.cfs@, w.cf) == Some(
                placed(patch_list(st0.l2, w.cf), ref_of(w.name@, w.patch.format@)),
            )
            &&& others_unchanged(st0.l2, st1.l2, w.cf)
        },
        None => st1.l2 == st0.l2,
    }
    &&& match r {
        FlushStep::Write { cf, name, bytes } => {
            &&& job1.wf(st1)
            &&& job0.next < job0.groups@.len()
            &&& job1.next == job0.next + 1
            &&& job1.out matches Some(w) && is_patch_of(
                w,
                cf,
                job0.groups@[job0.next as int].entries@,
                st0.next_patch_id,
            ) && bytes@ == patch_bytes(w.patch.format@)
            &&& cf == job0.groups@[job0.next as int].cf
            &&& name@ == patch_file(st0.next_patch_id)
            &&& st1.next_patch_id == st0.next_patch_id.wrapping_add(1)
            &&& st1.recent_flush == st0.recent_flush
            &&& st1.flush_epoch == st0.flush_epoch
        },
        FlushStep::Done(n) => {
            &&& job0.next == job0.groups@.len()
            &&& job1.next == job0.next
            &&& n == job0.groups@.len()
            &&& st1.next_patch_id == st0.next_patch_id
            &&& st1.recent_flush.cache@.len() == 0
            &&& st1.recent_flush.flush_epoch == st0.recent_flush.flush_epoch.wrapping_add(1)
            &&& st1.flush_epoch == st0.flush_epoch.wrapping_add(1)
            &&& forall|k: int|
                0 <= k < st0.recent_flush.cache@.len() ==> indexed(
                    patch_list(
                        st1.l2,
                        (#[trigger] st0.recent_flush.cache@[k]).key.cf,
                    ),
                    as_patch(st0.recent_flush.cache@[k]),
                )
        },
        FlushStep::Failed(e) => {
            &&& job0.next < job0.groups@.len()
            &&& job1.next == job0.next + 1
            &&& is_too_large(job0.groups@[job0.next as int].entries@, e)
            &&& st1.next_patch_id == st0.next_patch_id.wrapping_add(1)
            &&& st1.recent_flush == st0.recent_flush
            &&& st1.flush_epoch == st0.flush_epoch
        },
    }
}

impl FlushJob {
    /// The entry belongs to a group that is still to be written.
    pub open spec fn has_yet(self, cf: u16, p: PatchModel) -> bool {
        exists|g: int|
            self.next <= g < self.groups@.len() && (#[trigger] self.groups@[g]).cf == cf
                && patch_models(self.groups@[g].entries@).contains(p)
    }

    /// The version is written, being written, or to be written.
    pub open spec fn accounts_for(self, st: FlushEngine, e: EntryModel) -> bool {
        ||| indexed(patch_list(st.l2, e.key.cf), as_patch(e))
        ||| self.has_yet(e.key.cf, as_patch(e))
        ||| self.out matches Some(w) && w.cf == e.key.cf && w.patch.format@.contains(as_patch(e))
    }

    /// The job accounts for all that the recent-flush cache holds.
    pub open spec fn wf(self, st: FlushEngine) -> bool {
        &&& st.wf()
        &&& self.next <= self.groups@.len()
        &&& self.out matches Some(w) ==> w.patch.format@.len() > 0
        &&& forall|g: int|
            self.next <= g < self.groups@.len() ==> (#[trigger] self.groups@[g]).entries@.len() > 0
        &&& forall|k: int|
            0 <= k < st.recent_flush.cache@.len() ==> self.accounts_for(
                st,
                #[trigger] st.recent_flush.cache@[k],
            )
    }

    /// A flush of these groups.
    pub fn new(groups: Vec<FlushGroup>, st: &FlushEngine) -> (r: Self)
        requires
            st.wf(),
            grouped(st.recent_flush.cache@, groups@),
        ensures
            r.wf(*st),
            r.groups == groups,
            r.next == 0,
            r.out is None,
    {
        let r = FlushJob { groups, next: 0, out: None };
        proof {
            let cache = st.recent_flush.cache@;
            assert forall|k: int| 0 <= k < cache.len() implies r.accounts_for(
                *st,
                #[trigger] cache[k],
            ) by {
                let g = choose|g: int|
                    0 <= g < groups@.len() && (#[trigger] groups@[g]).cf == cache[k].key.cf;
                lemma_of_cf_member(cache, k);
                assert(r.groups@[g].cf == cache[k].key.cf);
                assert(r.has_yet(cache[k].key.cf, as_patch(cache[k])));
            }
        }
        r
    }

    /// Take note that the last operation was performed, and say what comes
    /// next. When all patches are written, the cache is cleared: every
    /// version that it held is in a patch in the index by then.
    pub fn step(&mut self, st: &mut FlushEngine) -> (r: FlushStep)
        requires
            old(self).wf(*old(st)),
        ensures
            flush_stepped(*old(self), *old(st), r, *final(self), *final(st)),
    {
        let ghost cache = st.recent_flush.cache@;
        let ghost l2_before = st.l2;
        let ghost out_before = self.out;
        let ghost groups_before = self.groups@;
        match self.out.take() {
            Some(w) => {
                st.publish_l2(&w);
                proof {
                    let r = ref_of(w.name@, w.patch.format@);
                    assert forall|k: int| 0 <= k < cache.len() implies indexed(
                        patch_list(st.l2, (#[trigger] cache[k]).key.cf),
                        as_patch(cache[k]),
                    ) || self.has_yet(cache[k].key.cf, as_patch(cache[k])) by {
                        let e = cache[k];
                        assert(old(self).accounts_for(*old(st), e));
                        if old(self).has_yet(e.key.cf, as_patch(e)) {
                            let g = choose|g: int|
                                old(self).next <= g < groups_before.len() && (
                                #[trigger] groups_before[g]).cf == e.key.cf && patch_models(
                                    groups_before[g].entries@,
                                ).contains(as_patch(e));
                            assert(self.groups@[g].cf == e.key.cf);
                        } else if w.cf == e.key.cf {
                            if w.patch.format@.contains(as_patch(e)) {
                                assert(r == ref_of(r.name, w.patch.format@));
                                assert(ref_holds(r, as_patch(e)));
                            }
                            lemma_placed_indexed(
                                patch_list(l2_before, w.cf),
                                r,
                                as_patch(e),
                            );
                        } else {
                            assert(patches_in(st.l2.cfs@, e.key.cf) == patches_in(
                                l2_before.cfs@,
                                e.key.cf,
                            ));
                        }
                    }
                }
            },
            None => {
                proof {
                    assert forall|k: int| 0 <= k < cache.len() implies indexed(
                        patch_list(st.l2, (#[trigger] cache[k]).key.cf),
                        as_patch(cache[k]),
                    ) || self.has_yet(cache[k].key.cf, as_patch(cache[k])) by {
                        let e = cache[k];
                        assert(old(self).accounts_for(*old(st), e));
                        if old(self).has_yet(e.key.cf, as_patch(e)) {
                            let g = choose|g: int|
                                old(self).next <= g < groups_before.len() && (
                                #[trigger] groups_before[g]).cf == e.key.cf && patch_models(
                                    groups_before[g].entries@,
                                ).contains(as_patch(e));
                            assert(self.groups@[g].cf == e.key.cf);
                        }
                    }
                }
            },
        }
        assert(self.groups@ == groups_before);
        if self.next == self.groups.len() {
            st.finish_flush();
            return FlushStep::Done(self.groups.len());
        }
        let at: usize = self.next;
        let cf: u16 = self.groups[at].cf;
        let mut entries: Vec<PatchEntry> = Vec::new();
        core::mem::swap(&mut entries, &mut self.groups[at].entries);
        self.next = at + 1;
        let ghost given = entries@;
        let ghost id = st.next_patch_id;
        assert(given == groups_before[at as int].entries@);
        match st.next_patch(cf, entries) {
            Ok(Some(w)) => {
                let mut w = w;
                let ghost w0 = w;
                let mut bytes: Vec<u8> = Vec::new();
                core::mem::swap(&mut bytes, &mut w.bytes);
                let name = copy_str(w.name.as_str());
                assert(w.patch == w0.patch);
                assert(prepared(w0, cf, given, id));
                assert(w.patch.format@.len() == given.len());
                self.out = Some(w);
                proof {
                    assert forall|p: PatchModel| patch_models(given).contains(p) implies
                        #[trigger] w.patch.format@.contains(p) by {
                        lemma_prepared_holds(w0, cf, given, id, p);
                    }
                    assert forall|g: int| self.next <= g < self.groups@.len() implies
                        #[trigger] self.groups@[g] == groups_before[g] by {}
                    assert forall|k: int| 0 <= k < cache.len() implies self.accounts_for(
                        *st,
                        #[trigger] st.recent_flush.cache@[k],
                    ) by {
                        let e = cache[k];
                        if exists|g: int|
                            at <= g < groups_before.len() && (#[trigger] groups_before[g]).cf
                                == e.key.cf && patch_models(groups_before[g].entries@).contains(
                                as_patch(e),
                            ) {
                            let g = choose|g: int|
                                at <= g < groups_before.len() && (#[trigger] groups_before[g]).cf
                                    == e.key.cf && patch_models(
                                    groups_before[g].entries@,
                                ).contains(as_patch(e));
                            if g == at {
                                assert(w.patch.format@.contains(as_patch(e)));
                            } else {
                                assert(self.groups@[g].cf == e.key.cf);
                                assert(self.has_yet(e.key.cf, as_patch(e)));
                            }
                        }
                    }
                }
                FlushStep::Write { cf, name, bytes }
            },
            Ok(None) => {
                assert(false);
                FlushStep::Done(0)
            },
            Err(e) => FlushStep::Failed(e),
        }
    }
}

/// `jobs` are the states of a flush over these steps, from its beginning on:
/// step `i` takes it from `jobs[i]` to `jobs[i + 1]`, on whatever store it
/// finds.
pub open spec fn flush_runs(jobs: Seq<FlushJob>, steps: Seq<FlushStep>) -> bool {
    &&& jobs.len() == steps.len() + 1
    &&& jobs[0].next == 0
    &&& jobs[0].out is None
    &&& forall|i: int|
        0 <= i < steps.len() ==> flush_steps(jobs[i], #[trigger] steps[i], jobs[i + 1])
    // the last step is the only one that can end it
    &&& forall|i: int| 0 <= i < steps.len() - 1 ==> (#[trigger] steps[i]) is Write
}

/// A step of a flush, on some store.
pub open spec fn flush_steps(job0: FlushJob, r: FlushStep, job1: FlushJob) -> bool {
    exists|st0: FlushEngine, st1: FlushEngine| #[trigger] flush_stepped(job0, st0, r, job1, st1)
}

/// Before step `i` the first `i` groups are written, and the others are as they
/// were.
proof fn lemma_flush_runs(jobs: Seq<FlushJob>, steps: Seq<FlushStep>, i: int)
    requires
        flush_runs(jobs, steps),
        0 <= i < steps.len(),
    ensures
        jobs[i].next == i,
        jobs[i].groups@.len() == jobs[0].groups@.len(),
        forall|g: int|
            i <= g < jobs[0].groups@.len() ==> #[trigger] jobs[i].groups@[g] == jobs[0].groups@[g],
    decreases i,
{
    if i > 0 {
        lemma_flush_runs(jobs, steps, i - 1);
        assert(steps[i - 1] is Write);
        assert(flush_steps(jobs[i - 1], steps[i - 1], jobs[i - 1 + 1]));
        let (st0, st1) = choose|st0: FlushEngine, st1: FlushEngine| #[trigger]
            flush_stepped(jobs[i - 1], st0, steps[i - 1], jobs[i], st1);
        assert forall|g: int| i <= g < jobs[0].groups@.len() implies #[trigger] jobs[i].groups@[g]
            == jobs[0].groups@[g] by {
            assert(jobs[i].groups@[g] == jobs[i - 1].groups@[g]);
        }
    }
}

/// A flush writes what the cache held when it began, and nothing else: step
/// `i` writes the patch of the `i`-th column family, whose entries are exactly
/// the versions of that column family in the cache, sorted. A flush that is
/// done has written one patch for every column family in the cache, and says
/// how many these were.
pub proof fn law_flush_writes_the_cache(
    cache: Seq<EntryModel>,
    jobs: Seq<FlushJob>,
    steps: Seq<FlushStep>,
    i: int,
)
    requires
        grouped(cache, jobs[0].groups@),
        flush_runs(jobs, steps),
        0 <= i < steps.len(),
    ensures
        match steps[i] {
            FlushStep::Write { cf, name, bytes } => {
                &&& i < jobs[0].groups@.len()
                &&& cf == jobs[0].groups@[i].cf
                &&& exists|c: Seq<PatchModel>| #[trigger]
                    patch_bytes(c) == bytes@ && c.to_multiset() == of_cf(cache, cf).to_multiset()
                        && (forall|p: PatchModel| c.contains(p) <==> #[trigger] of_cf(
                        cache,
                        cf,
                    ).contains(p)) && (forall|a: int, b: int|
                        0 <= a <= b < c.len() ==> patch_le(#[trigger] c[a], #[trigger] c[b]))
            },
            FlushStep::Done(n) => {
                &&& i == jobs[0].groups@.len()
                &&& n == i
                &&& forall|k: int|
                    0 <= k < cache.len() ==> exists|g: int|
                        0 <= g < i && (#[trigger] steps[g] matches FlushStep::Write { cf, .. } && cf
                            == (#[trigger] cache[k]).key.cf)
            },
            FlushStep::Failed(e) => {
                &&& i < jobs[0].groups@.len()
                &&& is_too_large(jobs[0].groups@[i].entries@, e)
            },
        },
    decreases i,
{
    lemma_flush_runs(jobs, steps, i);
    assert(flush_steps(jobs[i], steps[i], jobs[i + 1]));
    let (st0, st1) = choose|st0: FlushEngine, st1: FlushEngine| #[trigger]
        flush_stepped(jobs[i], st0, steps[i], jobs[i + 1], st1);
    match steps[i] {
        FlushStep::Write { cf, name, bytes } => {
            assert(jobs[i].groups@[i] == jobs[0].groups@[i]);
            let entries = jobs[0].groups@[i].entries@;
            let w = jobs[i + 1].out->0;
            let sorted = w.patch.format->entries@;
            let c = w.patch.format@;
            assert(is_patch_of(w, cf, entries, st0.next_patch_id));
            assert(c == patch_models(sorted));
            assert(patch_models(entries) == of_cf(cache, cf));
            lemma_models_of_permutation(entries, sorted);
            c.to_multiset_ensures();
            of_cf(cache, cf).to_multiset_ensures();
            assert forall|p: PatchModel| c.contains(p) <==> #[trigger] of_cf(cache, cf).contains(
                p,
            ) by {
                assert(c.contains(p) <==> c.to_multiset().count(p) > 0);
                assert(of_cf(cache, cf).contains(p) <==> of_cf(cache, cf).to_multiset().count(p)
                    > 0);
            }
            assert forall|a: int, b: int| 0 <= a <= b < c.len() implies patch_le(
                #[trigger] c[a],
                #[trigger] c[b],
            ) by {
                assert(sorted[a].ranks_le(sorted[b]));
            }
            assert(patch_bytes(c) == bytes@);
        },
        FlushStep::Done(n) => {
            assert forall|k: int| 0 <= k < cache.len() implies exists|g: int|
                0 <= g < i && (#[trigger] steps[g] matches FlushStep::Write { cf, .. } && cf == (
                #[trigger] cache[k]).key.cf) by {
                let g = choose|g: int|
                    0 <= g < jobs[0].groups@.len() && (#[trigger] jobs[0].groups@[g]).cf
                        == cache[k].key.cf;
                assert(steps[g] is Write);
                law_flush_writes_the_cache(cache, jobs, steps, g);
            }
        },
        FlushStep::Failed(_) => {
            assert(jobs[i].groups@[i] == jobs[0].groups@[i]);
        },
    }
}

/// Two sequences with the same entries hold the same content.
proof fn lemma_models_of_permutation(a: Seq<PatchEntry>, b: Seq<PatchEntry>)
    requires
        a.to_multiset() == b.to_multiset(),
    ensures
        patch_models(a).to_multiset() == patch_models(b).to_multiset(),
    decreases a.len(),
{
    broadcast use vstd::multiset::group_multiset_axioms;

    a.to_multiset_ensures();
    b.to_multiset_ensures();
    assert(a.len() == b.len());
    if a.len() == 0 {
        assert(patch_models(a) =~= patch_models(b));
    } else {
        let x = a.last();
        assert(a[a.len() - 1] == x);
        assert(a.contains(x) <==> a.to_multiset().count(x) > 0);
        assert(b.contains(x) <==> b.to_multiset().count(x) > 0);
        let k = choose|k: int| 0 <= k < b.len() && b[k] == x;
        let a1 = a.drop_last();
        let b1 = b.remove(k);
        assert(a =~= a1.push(x));
        a1.to_multiset_ensures();
        assert(a.to_multiset() == a1.to_multiset().insert(x));
        assert(a1.to_multiset() =~= a.to_multiset().remove(x));
        assert(b1.to_multiset() =~= b.to_multiset().remove(x));
        lemma_models_of_permutation(a1, b1);
        let ma = patch_models(a);
        let mb = patch_models(b);
        assert(ma =~= patch_models(a1).push(x@));
        assert(mb.remove(k) =~= patch_models(b1));
        patch_models(a1).to_multiset_ensures();
        mb.to_multiset_ensures();
        assert(ma.to_multiset() == patch_models(a1).to_multiset().insert(x@));
        assert(mb.remove(k).to_multiset() =~= mb.to_multiset().remove(x@));
        assert(mb.contains(mb[k]));
        assert(mb.to_multiset().count(x@) > 0);
        assert(ma.to_multiset() =~= mb.to_multiset());
    }
}

/// The next operation of a compaction.
#[derive(Debug)]
pub enum CompactTask {
    /// Read an L2 patch file and install it in L2.
    Read { cf: u16, name: String },
    /// Write an L3 patch file, durably and all at once.
    Write { cf: u16, name: String, bytes: Vec<u8> },
    /// Delete the L2 patch files of a column family.
    Drop { cf: u16 },
    /// The compaction is complete: column families compacted, and entries
    /// reclaimed.
    Done { cfs: usize, reclaimed: usize },
    /// The compaction has failed.
    Failed(Z1Error),
}

/// A compaction under way.
#[derive(Debug)]
pub struct CompactJob {
    pub cfs: Vec<u16>,
    /// The column family to compact next.
    pub next: usize,
    pub watermark: TxnId,
    /// The patch that the caller is writing.
    pub out: Option<PatchWrite>,
    /// The caller is deleting the L2 patches of the column family.
    pub dropping: bool,
    pub compacted: usize,
    pub reclaimed: usize,
}

/// All L2 versions of a column family are in memory, and `kept_of` holds what
/// GC keeps of them at the watermark, where `known` are the committed
/// transactions.
pub open spec fn merged_from(
    st: FlushEngine,
    cf: u16,
    watermark: TxnId,
    known: Set<TxnId>,
    kept_of: spec_fn(PatchModel) -> bool,
) -> bool {
    exists|retained: Seq<PatchEntry>|
        #[trigger] merges(versions_in(cf, patch_list(st.l2, cf), everything()), watermark, known, retained)
            && forall|p: PatchModel| #[trigger]
            patch_models(retained).contains(p) ==> kept_of(p)
}

/// What GC keeps of the L2 versions of a column family is in the index of L3.
pub open spec fn taken_over(st: FlushEngine, cf: u16) -> bool {
    &&& missing(patch_list(st.l2, cf), everything()) is None
    &&& exists|watermark: TxnId, known: Set<TxnId>| #[trigger]
        merged_into_l3(st, cf, watermark, known)
}

/// What GC keeps of the L2 versions of a column family at this watermark is in
/// the index of L3.
pub open spec fn merged_into_l3(
    st: FlushEngine,
    cf: u16,
    watermark: TxnId,
    known: Set<TxnId>,
) -> bool {
    merged_from(st, cf, watermark, known, |p: PatchModel| indexed(patch_list(st.l3, cf), p))
}

/// What GC keeps of the L2 versions of a column family is in a patch.
pub open spec fn goes_into(st: FlushEngine, cf: u16, w: PatchWrite) -> bool {
    &&& missing(patch_list(st.l2, cf), everything()) is None
    &&& exists|watermark: TxnId, known: Set<TxnId>| #[trigger]
        merged_into(st, cf, watermark, known, w)
}

/// What GC keeps of the L2 versions of a column family at this watermark is in
/// a patch.
pub open spec fn merged_into(
    st: FlushEngine,
    cf: u16,
    watermark: TxnId,
    known: Set<TxnId>,
    w: PatchWrite,
) -> bool {
    merged_from(st, cf, watermark, known, |p: PatchModel| w.patch.format@.contains(p))
}

/// There is nothing to compact in this column family.
pub open spec fn nothing_in(l2: DiskLayer, cf: u16) -> bool {
    &&& missing(patch_list(l2, cf), everything()) is None
    &&& versions_in(cf, patch_list(l2, cf), everything()).len() == 0
}

/// GC at the watermark leaves out some L2 versions of a column family, which
/// takes the count of reclaimed entries from `before` to `after`.
pub open spec fn reclaims(
    st: FlushEngine,
    cf: u16,
    watermark: TxnId,
    known: Set<TxnId>,
    before: usize,
    after: usize,
) -> bool {
    let versions = versions_in(cf, patch_list(st.l2, cf), everything());
    exists|retained: Seq<PatchEntry>|
        #[trigger] merges(versions, watermark, known, retained) && retained.len() <= versions.len()
            && after == (if before + versions.len() - retained.len() > usize::MAX {
            usize::MAX as int
        } else {
            before + versions.len() - retained.len()
        })
}

/// What GC keeps of the L2 versions of a column family does not fit in a
/// patch, which `e` reports.
pub open spec fn too_large(
    st: FlushEngine,
    cf: u16,
    watermark: TxnId,
    known: Set<TxnId>,
    e: Z1Error,
) -> bool {
    exists|retained: Seq<PatchEntry>|
        merges(versions_in(cf, patch_list(st.l2, cf), everything()), watermark, known, retained)
            && #[trigger] is_too_large(retained, e)
}

/// `w` is the patch of what GC keeps of the L2 versions of a column family.
pub open spec fn is_merged(
    st: FlushEngine,
    cf: u16,
    watermark: TxnId,
    known: Set<TxnId>,
    w: PatchWrite,
    patch_id: u64,
) -> bool {
    exists|retained: Seq<PatchEntry>|
        merges(versions_in(cf, patch_list(st.l2, cf), everything()), watermark, known, retained)
            && #[trigger] is_patch_of(w, cf, retained, patch_id)
}

/// What a step of a compaction comes to.
pub open spec fn compact_stepped(
    job0: CompactJob,
    st0: FlushEngine,
    known: Set<TxnId>,
    r: CompactTask,
    job1: CompactJob,
    st1: FlushEngine,
) -> bool {
    &&& st1.wf()
    &&& job1.cfs == job0.cfs
    &&& job1.watermark == job0.watermark
    &&& !(r is Failed) ==> job1.wf(st1)
    &&& st1 == (FlushEngine {
        l2: st1.l2,
        l3: st1.l3,
        flush_epoch: st1.flush_epoch,
        next_patch_id: st1.next_patch_id,
        ..st0
    })
    // a patch that was written is entered in L3
    &&& match job0.out {
        Some(w) => {
            &&& patches_in(st1.l3.cfs@, w.cf) == Some(
                placed(patch_list(st0.l3, w.cf), ref_of(w.name@, w.patch.format@)),
            )
            &&& others_unchanged(st0.l3, st1.l3, w.cf)
            &&& r matches CompactTask::Drop { cf } && cf == w.cf
        },
        None => st1.l3 == st0.l3,
    }
    // L2 patches whose files were deleted leave the index
    &&& if job0.dropping {
        &&& patches_in(st1.l2.cfs@, job0.cfs@[job0.next as int]) is None
        &&& others_unchanged(
            st0.l2,
            st1.l2,
            job0.cfs@[job0.next as int],
        )
        &&& job1.compacted == job0.compacted + 1
    } else {
        st1.l2 == st0.l2 && job1.compacted == job0.compacted
    }
    // column families without versions are passed over
    &&& job0.from() <= job1.next
    &&& forall|j: int|
        job0.from() <= j < job1.next ==> nothing_in(
            st1.l2,
            #[trigger] job0.cfs@[j],
        )
    &&& match r {
        CompactTask::Read { cf, name } => {
            &&& job1.next < job1.cfs@.len()
            &&& cf == job1.cfs@[job1.next as int]
            &&& missing(patch_list(st1.l2, cf), everything()) == Some(name@)
            &&& job1.out is None && !job1.dropping
            &&& job1.reclaimed == job0.reclaimed
        },
        CompactTask::Write { cf, name, bytes } => {
            &&& job1.next < job1.cfs@.len()
            &&& cf == job1.cfs@[job1.next as int]
            &&& job1.out matches Some(w) && is_merged(
                st1,
                cf,
                job1.watermark,
                known,
                w,
                st0.next_patch_id,
            ) && bytes@ == patch_bytes(w.patch.format@)
            &&& name@ == patch_file(st0.next_patch_id)
            &&& st1.next_patch_id == st0.next_patch_id.wrapping_add(1)
            &&& reclaims(st1, cf, job1.watermark, known, job0.reclaimed, job1.reclaimed)
            // what the patch does not hold was reclaimed
            &&& ({
                let given = versions_in(cf, patch_list(st1.l2, cf), everything()).len();
                let left = (job1.out->0).patch.format@.len();
                &&& left <= given
                &&& job1.reclaimed == if job0.reclaimed + given - left > usize::MAX {
                    usize::MAX as int
                } else {
                    job0.reclaimed + given - left
                }
            })
        },
        CompactTask::Drop { cf } => {
            &&& job1.dropping
            &&& cf == job1.cfs@[job1.next as int]
            &&& if job0.out is Some {
                job1.reclaimed == job0.reclaimed
            } else {
                reclaims(st1, cf, job1.watermark, known, job0.reclaimed, job1.reclaimed)
            }
        },
        CompactTask::Done { cfs, reclaimed } => {
            &&& job1.next == job1.cfs@.len()
            &&& cfs == job1.compacted
            &&& reclaimed == job1.reclaimed == job0.reclaimed
            &&& st1.flush_epoch == if cfs > 0 {
                st0.flush_epoch.wrapping_add(1)
            } else {
                st0.flush_epoch
            }
        },
        CompactTask::Failed(e) => job1.next < job1.cfs@.len() && too_large(
            st1,
            job1.cfs@[job1.next as int],
            job1.watermark,
            known,
            e,
        ),
    }
    &&& !(r is Done) ==> st1.flush_epoch == st0.flush_epoch
    &&& !(r is Write) && !(r is Failed) ==> st1.next_patch_id == st0.next_patch_id
}

impl CompactJob {
    pub open spec fn wf(self, st: FlushEngine) -> bool {
        &&& st.wf()
        &&& self.next <= self.cfs@.len()
        &&& self.compacted <= self.next
        &&& self.dropping ==> {
            &&& self.next < self.cfs@.len()
            &&& self.out is None
            &&& taken_over(st, self.cfs@[self.next as int])
        }
        &&& self.out matches Some(w) ==> {
            &&& self.next < self.cfs@.len()
            &&& w.cf == self.cfs@[self.next as int]
            &&& w.patch.format@.len() > 0
            &&& goes_into(st, w.cf, w)
        }
    }

    /// A compaction of all column families in L2.
    pub fn new(st: &FlushEngine, min_active_begin_ts: TxnId) -> (r: Self)
        requires
            st.wf(),
        ensures
            r.wf(*st),
            forall|cf: u16| r.cfs@.contains(cf) <==> (#[trigger] patches_in(st.l2.cfs@, cf)) is Some,
            r.next == 0,
            r.watermark == min_active_begin_ts,
            r.out is None,
            !r.dropping,
            r.compacted == 0,
            r.reclaimed == 0,
    {
        CompactJob {
            cfs: st.l2.list_cfs(),
            next: 0,
            watermark: min_active_begin_ts,
            out: None,
            dropping: false,
            compacted: 0,
            reclaimed: 0,
        }
    }

    /// The first column family that this step looks at.
    pub open spec fn from(self) -> int {
        if self.dropping {
            self.next + 1
        } else {
            self.next as int
        }
    }

    /// Take note that the last operation was performed, and say what comes
    /// next; `known` holds the committed transactions.
    pub fn step(&mut self, st: &mut FlushEngine, known: &HashMap<TxnId, u64>) -> (r: CompactTask)
        requires
            old(self).wf(*old(st)),
        ensures
            compact_stepped(
                *old(self),
                *old(st),
                known@.dom(),
                r,
                *final(self),
                *final(st),
            ),
    {
        let ghost ids = known@.dom();
        match self.out.take() {
            Some(w) => {
                let cf: u16 = w.cf;
                let ghost l3_before = st.l3;
                st.publish_l3(&w);
                self.dropping = true;
                proof {
                    let r = ref_of(w.name@, w.patch.format@);
                    let versions = versions_in(cf, patch_list(st.l2, cf), everything());
                    let st0 = *old(st);
                    let (wm, ks) = choose|wm: TxnId, ks: Set<TxnId>| #[trigger]
                        merged_into(st0, cf, wm, ks, w);
                    let retained = choose|retained: Seq<PatchEntry>|
                        #[trigger] merges(versions, wm, ks, retained) && forall|p: PatchModel|
                            #[trigger] patch_models(retained).contains(p)
                                ==> w.patch.format@.contains(p);
                    assert(merges(versions, wm, ks, retained));
                    assert forall|p: PatchModel| #[trigger]
                        patch_models(retained).contains(p) implies indexed(
                        patch_list(st.l3, cf),
                        p,
                    ) by {
                        assert(w.patch.format@.contains(p));
                        assert(r == ref_of(r.name, w.patch.format@));
                        assert(ref_holds(r, p));
                        lemma_placed_indexed(patch_list(l3_before, cf), r, p);
                    }
                    assert(merged_into_l3(*st, cf, wm, ks));
                    assert(taken_over(*st, cf));
                }
                return CompactTask::Drop { cf };
            },
            None => {},
        }
        if self.dropping {
            let total: usize = self.cfs.len();
            assert(self.next < total);
            let cf: u16 = self.cfs[self.next];
            st.drop_l2(cf);
            self.dropping = false;
            self.compacted = self.compacted + 1;
            self.next = self.next + 1;
        }
        let ghost st1 = *st;
        let ghost job1 = *self;
        #[verifier::loop_isolation(false)]
        while self.next < self.cfs.len()
            invariant
                *st == st1,
                st.wf(),
                self.next <= self.cfs@.len(),
                *self == (CompactJob { next: self.next, ..job1 }),
                job1.next <= self.next,
                self.compacted <= self.next,
                self.cfs == old(self).cfs,
                self.out is None,
                !self.dropping,
                forall|j: int|
                    job1.next <= j < self.next ==> nothing_in(st.l2, #[trigger] self.cfs@[j]),
            decreases self.cfs@.len() - self.next,
        {
            let cf: u16 = self.cfs[self.next];
            match st.compact_l2_to_l3(cf, self.watermark, known) {
                CompactStep::Need(name) => {
                    return CompactTask::Read { cf, name };
                },
                CompactStep::Empty => {
                    self.next = self.next + 1;
                },
                CompactStep::Merged { retained, reclaimed } => {
                    let ghost given = retained@;
                    let ghost versions = versions_in(cf, patch_list(st.l2, cf), everything());
                    let ghost wm = self.watermark;
                    assert(merges(versions, wm, ids, given));
                    let ghost before = self.reclaimed;
                    self.reclaimed = self.reclaimed.saturating_add(reclaimed);
                    assert(reclaims(*st, cf, wm, ids, before, self.reclaimed));
                    let ghost id = st.next_patch_id;
                    if retained.len() == 0 {
                        self.dropping = true;
                        proof {
                            assert forall|p: PatchModel| #[trigger]
                                patch_models(given).contains(p) implies indexed(
                                patch_list(st.l3, cf),
                                p,
                            ) by {
                                assert(patch_models(given).len() == 0);
                            }
                            assert(merged_into_l3(*st, cf, wm, ids));
                            assert(taken_over(*st, cf));
                        }
                        return CompactTask::Drop { cf };
                    }
                    match st.next_patch(cf, retained) {
                        Ok(Some(w)) => {
                            let mut w = w;
                            let ghost w0 = w;
                            let mut bytes: Vec<u8> = Vec::new();
                            core::mem::swap(&mut bytes, &mut w.bytes);
                            let name = copy_str(w.name.as_str());
                            assert(w.patch == w0.patch);
                            assert(prepared(w0, cf, given, id));
                            assert(w.patch.format@.len() == given.len());
                            self.out = Some(w);
                            proof {
                                assert forall|p: PatchModel| #[trigger]
                                    patch_models(given).contains(
                                    p,
                                ) implies w.patch.format@.contains(p) by {
                                    lemma_prepared_holds(w0, cf, given, id, p);
                                }
                                assert(st.l2 == st1.l2);
                                assert(merged_into(*st, cf, wm, ids, w));
                                assert(goes_into(*st, cf, w));
                                assert(is_patch_of(w, cf, given, id));
                            }
                            return CompactTask::Write { cf, name, bytes };
                        },
                        Ok(None) => {
                            assert(false);
                        },
                        Err(e) => {
                            assert(too_large(*st, cf, wm, ids, e));
                            return CompactTask::Failed(e);
                        },
                    }
                },
            }
        }
        st.finish_compaction(self.compacted);
        CompactTask::Done { cfs: self.compacted, reclaimed: self.reclaimed }
    }
}

} // verus!
