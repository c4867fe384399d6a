//! Moving versions between the layers: the flush from L1 to L2 and the
//! compaction from L2 to L3.
//!
//! The engine decides and prepares; the caller writes and deletes files.
//!
//! A flush takes the hot buffer of L1, keeps its versions readable in the
//! recent-flush cache, and hands out one group of entries per column family.
//! For every group the caller takes a patch ([`FlushEngine::next_patch`]),
//! writes it and publishes it. Only when all are published is the cache
//! cleared. Where a write fails, the cache keeps its versions, readers still
//! see them, and the next flush writes them again.

use crate::bytes::{copy_bytes, lemma_lex_asymmetric, lex_lt};
use crate::error::Result;
use crate::sort::ascending;
use crate::store::disk::{
    as_entries, as_entry, everything, is_max_patch, is_too_large, missing, others_unchanged,
    patch_file, patch_list, patches_in, placed, prepared, ref_of, stem_number, versions_in,
    versions_of, DiskLayer, LayerRead, PatchWrite, RefModel,
};
use crate::store::gc::{gc_committed, gc_merged};
use crate::store::mem::MemStore;
use crate::store::recent_flush_cache::{law_merge_accumulates, RecentFlushCache};
use crate::store::select::{lemma_kept_members, Pick, Span};
use crate::store::types::{
    entry_models, lemma_patch_models_push, lemma_sorted_patch_bounds, patch_models, share_value,
    EntryModel, PatchEntry, PatchModel, Z1Entry,
};
use crate::store::version_map::{all_upserted, same_version, version_lt, versions_ascend};
use crate::TxnId;
use std::collections::HashMap;
use vstd::prelude::*;

verus! {

/// A version as a patch entry.
pub open spec fn as_patch(e: EntryModel) -> PatchModel {
    PatchModel { key: e.key.key, value: e.value, txn_id: e.txn_id }
}

/// The versions of a column family as patch entries, in order.
pub open spec fn of_cf(s: Seq<EntryModel>, cf: u16) -> Seq<PatchModel>
    decreases s.len(),
{
    if s.len() == 0 {
        Seq::empty()
    } else if s.last().key.cf == cf {
        of_cf(s.drop_last(), cf).push(as_patch(s.last()))
    } else {
        of_cf(s.drop_last(), cf)
    }
}

/// The entries of one column family, to become one patch.
#[derive(Debug)]
pub struct FlushGroup {
    pub cf: u16,
    pub entries: Vec<PatchEntry>,
}

/// `groups` hold the versions by column family: ascending, each with exactly
/// its versions, none empty, none left out.
pub open spec fn grouped(s: Seq<EntryModel>, groups: Seq<FlushGroup>) -> bool {
    &&& forall|i: int, j: int|
        0 <= i < j < groups.len() ==> (#[trigger] groups[i]).cf < (#[trigger] groups[j]).cf
    &&& forall|i: int|
        0 <= i < groups.len() ==> (#[trigger] groups[i]).entries@.len() > 0 && patch_models(
            groups[i].entries@,
        ) == of_cf(s, groups[i].cf)
    &&& forall|k: int|
        0 <= k < s.len() ==> exists|i: int|
            0 <= i < groups.len() && (#[trigger] groups[i]).cf == (#[trigger] s[k]).key.cf
}

proof fn lemma_of_cf_push(s: Seq<EntryModel>, e: EntryModel, cf: u16)
    ensures
        of_cf(s.push(e), cf) == (if e.key.cf == cf {
            of_cf(s, cf).push(as_patch(e))
        } else {
            of_cf(s, cf)
        }),
{
    assert(s.push(e).drop_last() =~= s);
}

proof fn lemma_of_cf_none(s: Seq<EntryModel>, cf: u16)
    requires
        forall|k: int| 0 <= k < s.len() ==> (#[trigger] s[k]).key.cf != cf,
    ensures
        of_cf(s, cf).len() == 0,
    decreases s.len(),
{
    if s.len() > 0 {
        assert(s[s.len() - 1].key.cf != cf);
        assert forall|k: int| 0 <= k < s.drop_last().len() implies (
        #[trigger] s.drop_last()[k]).key.cf != cf by {
            assert(s[k].key.cf != cf);
        }
        lemma_of_cf_none(s.drop_last(), cf);
    }
}

/// Every version of a column family is among its patch entries.
pub proof fn lemma_of_cf_member(s: Seq<EntryModel>, k: int)
    requires
        0 <= k < s.len(),
    ensures
        of_cf(s, s[k].key.cf).contains(as_patch(s[k])),
    decreases s.len(),
{
    let cf = s[k].key.cf;
    let now = of_cf(s, cf);
    if k == s.len() - 1 {
        assert(now[now.len() - 1] == as_patch(s[k]));
    } else {
        let rest = s.drop_last();
        assert(rest[k] == s[k]);
        lemma_of_cf_member(rest, k);
        let before = of_cf(rest, cf);
        let i = choose|i: int| 0 <= i < before.len() && before[i] == as_patch(s[k]);
        assert(now[i] == as_patch(s[k]));
    }
}

fn to_patch_entry(e: &Z1Entry) -> (r: PatchEntry)
    ensures
        r@ == as_patch(e@),
{
    PatchEntry {
        key: copy_bytes(e.key.key.as_slice()),
        value: share_value(&e.value),
        txn_id: e.txn_id,
    }
}

/// Group versions, given by ascending column family, into patches.
fn group_by_cf(all: &Vec<Z1Entry>) -> (r: Vec<FlushGroup>)
    requires
        versions_ascend(entry_models(all@)),
    ensures
        grouped(entry_models(all@), r@),
{
    let ghost models = entry_models(all@);
    let mut groups: Vec<FlushGroup> = Vec::new();
    let mut i: usize = 0;
    assert(models.take(0) =~= Seq::<EntryModel>::empty());
    while i < all.len()
        invariant
            i <= all@.len(),
            models == entry_models(all@),
            versions_ascend(models),
            grouped(models.take(i as int), groups@),
            groups@.len() > 0 ==> i > 0 && groups@.last().cf == models[i - 1].key.cf,
            groups@.len() == 0 ==> i == 0,
        decreases all@.len() - i,
    {
        let e = &all[i];
        let pe = to_patch_entry(e);
        let ghost seen = models.take(i as int);
        let ghost now = models.take(i + 1);
        let ghost groups0 = groups@;
        proof {
            assert(now =~= seen.push(e@));
            assert forall|cf: u16| #[trigger] of_cf(now, cf) == (if e@.key.cf == cf {
                of_cf(seen, cf).push(as_patch(e@))
            } else {
                of_cf(seen, cf)
            }) by {
                lemma_of_cf_push(seen, e@, cf);
            }
            if i > 0 {
                assert(version_lt(models[i - 1], models[i as int]));
            }
        }
        let n: usize = groups.len();
        if n > 0 && groups[n - 1].cf == e.key.cf {
            let mut last = match groups.pop() {
                Some(g) => g,
                None => FlushGroup { cf: e.key.cf, entries: Vec::new() },
            };
            let ghost entries0 = last.entries@;
            last.entries.push(pe);
            proof {
                lemma_patch_models_push(entries0, pe);
            }
            groups.push(last);
            proof {
                assert forall|a: int| 0 <= a < groups@.len() implies (
                #[trigger] groups@[a]).entries@.len() > 0 && patch_models(groups@[a].entries@)
                    == of_cf(now, groups@[a].cf) by {
                    if a < n - 1 {
                        assert(groups@[a] == groups0[a]);
                        assert(groups0[a].cf < groups0[n - 1].cf);
                    }
                }
                assert forall|a: int, b: int| 0 <= a < b < groups@.len() implies (
                #[trigger] groups@[a]).cf < (#[trigger] groups@[b]).cf by {
                    assert(groups0[a].cf < groups0[b].cf);
                }
                assert forall|k: int| 0 <= k < now.len() implies exists|a: int|
                    0 <= a < groups@.len() && (#[trigger] groups@[a]).cf == (
                    #[trigger] now[k]).key.cf by {
                    if k < i {
                        assert(now[k] == seen[k]);
                        let a = choose|a: int|
                            0 <= a < groups0.len() && (#[trigger] groups0[a]).cf
                                == seen[k].key.cf;
                        assert(groups@[a].cf == seen[k].key.cf);
                    } else {
                        assert(groups@[n - 1].cf == now[k].key.cf);
                    }
                }
            }
        } else {
            let mut entries: Vec<PatchEntry> = Vec::new();
            entries.push(pe);
            assert(patch_models(entries@) =~= seq![as_patch(e@)]);
            groups.push(FlushGroup { cf: e.key.cf, entries });
            proof {
                // the column family is new
                assert forall|k: int| 0 <= k < seen.len() implies (#[trigger] seen[k]).key.cf
                    < e@.key.cf by {
                    assert(version_lt(models[k], models[i as int]));
                    if k < i - 1 {
                        assert(version_lt(models[k], models[i - 1]));
                    }
                    assert(models[k].key.cf <= models[i - 1].key.cf);
                    assert(models[i - 1].key.cf != e@.key.cf);
                }
                lemma_of_cf_none(seen, e@.key.cf);
                assert(of_cf(seen, e@.key.cf) =~= Seq::<PatchModel>::empty());
                assert(of_cf(now, e@.key.cf) =~= seq![as_patch(e@)]);
                assert forall|a: int| 0 <= a < groups0.len() implies (#[trigger] groups0[a]).cf
                    < e@.key.cf by {
                    lemma_group_has_member(seen, groups0, a);
                }
                assert forall|a: int| 0 <= a < groups@.len() implies (
                #[trigger] groups@[a]).entries@.len() > 0 && patch_models(groups@[a].entries@)
                    == of_cf(now, groups@[a].cf) by {
                    if a < groups0.len() {
                        assert(groups@[a] == groups0[a]);
                    }
                }
                assert forall|a: int, b: int| 0 <= a < b < groups@.len() implies (
                #[trigger] groups@[a]).cf < (#[trigger] groups@[b]).cf by {
                    assert(groups@[a] == groups0[a]);
                    if b < groups0.len() {
                        assert(groups@[b] == groups0[b]);
                        assert(groups0[a].cf < groups0[b].cf);
                    }
                }
                assert forall|k: int| 0 <= k < now.len() implies exists|a: int|
                    0 <= a < groups@.len() && (#[trigger] groups@[a]).cf == (
                    #[trigger] now[k]).key.cf by {
                    if k < i {
                        assert(now[k] == seen[k]);
                        let a = choose|a: int|
                            0 <= a < groups0.len() && (#[trigger] groups0[a]).cf
                                == seen[k].key.cf;
                        assert(groups@[a].cf == seen[k].key.cf);
                    } else {
                        assert(groups@[groups0.len() as int].cf == now[k].key.cf);
                    }
                }
            }
        }
        i = i + 1;
    }
    assert(models.take(i as int) =~= models);
    groups
}

/// A group belongs to a version.
proof fn lemma_group_has_member(s: Seq<EntryModel>, groups: Seq<FlushGroup>, a: int)
    requires
        grouped(s, groups),
        0 <= a < groups.len(),
    ensures
        exists|k: int| 0 <= k < s.len() && (#[trigger] s[k]).key.cf == groups[a].cf,
{
    if forall|k: int| 0 <= k < s.len() ==> (#[trigger] s[k]).key.cf != groups[a].cf {
        lemma_of_cf_none(s, groups[a].cf);
        assert(patch_models(groups[a].entries@).len() == groups[a].entries@.len());
    }
}

/// What compacting a column family comes to.
#[derive(Debug)]
pub enum CompactStep {
    /// The L2 patch file of this name is needed first.
    Need(String),
    /// There is nothing to compact.
    Empty,
    /// The merged entries for L3, and how many entries GC has reclaimed.
    Merged { retained: Vec<PatchEntry>, reclaimed: usize },
}

/// `entries` holds these versions as patch entries.
pub open spec fn same_as(entries: Seq<PatchEntry>, versions: Seq<EntryModel>) -> bool {
    patch_models(entries) == versions.map_values(|e: EntryModel| as_patch(e))
}

/// `retained` is what GC keeps of these versions at this watermark, where
/// `known` are the committed transactions.
pub open spec fn merges(
    versions: Seq<EntryModel>,
    watermark: TxnId,
    known: Set<TxnId>,
    retained: Seq<PatchEntry>,
) -> bool {
    exists|entries: Seq<PatchEntry>, sorted: Seq<PatchEntry>|
        same_as(entries, versions) && #[trigger] gc_merged(
            entries,
            watermark,
            known,
            sorted,
            retained,
        )
}

/// The three layers, the recent-flush cache, and the counters.
#[derive(Debug)]
pub struct FlushEngine {
    pub l1: MemStore,
    pub l2: DiskLayer,
    pub l3: DiskLayer,
    pub recent_flush: RecentFlushCache,
    /// Counts flushes and compactions, wrapping.
    pub flush_epoch: u64,
    /// The number of the next patch, wrapping.
    pub next_patch_id: u64,
}

/// `id` is the first patch number after all that the layers carry.
pub open spec fn is_first_free_patch(l2: DiskLayer, l3: DiskLayer, id: u64) -> bool {
    &&& id > 0
    &&& forall|i: int, j: int|
        0 <= i < l2.cfs@.len() && 0 <= j < l2.cfs@[i].patches@.len() ==> (stem_number(
            (#[trigger] l2.cfs@[i].patches@[j]).name@,
        ) matches Some(n) ==> n < id)
    &&& forall|i: int, j: int|
        0 <= i < l3.cfs@.len() && 0 <= j < l3.cfs@[i].patches@.len() ==> (stem_number(
            (#[trigger] l3.cfs@[i].patches@[j]).name@,
        ) matches Some(n) ==> n < id)
    &&& is_max_patch(l2.cfs@, (id - 1) as u64) || is_max_patch(l3.cfs@, (id - 1) as u64)
}

/// The first patch number after all that the layers carry; none where the
/// numbers are used up.
pub fn first_free_patch_id(l2: &DiskLayer, l3: &DiskLayer) -> (r: Option<u64>)
    ensures
        match r {
            Some(id) => is_first_free_patch(*l2, *l3, id),
            None => is_max_patch(l2.cfs@, u64::MAX) || is_max_patch(l3.cfs@, u64::MAX),
        },
{
    let a: u64 = l2.max_patch_id();
    let b: u64 = l3.max_patch_id();
    let m: u64 = if a >= b {
        a
    } else {
        b
    };
    if m == u64::MAX {
        return None;
    }
    Some(m + 1)
}

impl FlushEngine {
    pub open spec fn wf(&self) -> bool {
        &&& self.l1.wf()
        &&& self.l2.wf()
        &&& self.l3.wf()
        &&& self.recent_flush.wf()
    }

    /// `next_patch_id` has to lie above every number in use, or a patch could
    /// replace another; [`first_free_patch_id`] finds it.
    pub fn with_l3(
        l1: MemStore,
        l2: DiskLayer,
        l3: DiskLayer,
        recent_flush: RecentFlushCache,
        flush_epoch: u64,
        next_patch_id: u64,
    ) -> (r: Self)
        ensures
            r.l1 == l1,
            r.l2 == l2,
            r.l3 == l3,
            r.recent_flush == recent_flush,
            r.flush_epoch == flush_epoch,
            r.next_patch_id == next_patch_id,
    {
        FlushEngine { l1, l2, l3, recent_flush, flush_epoch, next_patch_id }
    }

    /// Begin a flush: take the hot buffer of L1 into the recent-flush cache.
    /// Returns what the cache holds, grouped by column family: the versions
    /// just taken, and those that an earlier flush could not write.
    pub fn flush_l1_to_l2(&mut self) -> (r: Vec<FlushGroup>)
        requires
            old(self).wf(),
        ensures
            final(self).wf(),
            final(self).l1.hot@.len() == 0,
            final(self).l1.cold@ == old(self).l1.cold@,
            final(self).l1.snapshot@ == old(self).l1.hot@,
            final(self).l1.hot_size_bytes == 0,
            final(self).recent_flush.cache@ == all_upserted(
                old(self).recent_flush.cache@,
                old(self).l1.hot@,
            ),
            grouped(final(self).recent_flush.cache@, r@),
            *final(self) == (FlushEngine {
                l1: final(self).l1,
                recent_flush: final(self).recent_flush,
                ..*old(self)
            }),
            final(self).recent_flush.flush_epoch == old(self).recent_flush.flush_epoch,
            final(self).l1 == (MemStore {
                hot: final(self).l1.hot,
                snapshot: final(self).l1.snapshot,
                hot_size_bytes: 0,
                ..old(self).l1
            }),
    {
        let swapped = self.l1.swap_and_drain();
        self.recent_flush.cache_merge(&swapped);
        let all = self.recent_flush.get_all();
        group_by_cf(&all)
    }

    /// Begin a flush if the hot buffer has outgrown its threshold.
    pub fn try_flush(&mut self) -> (r: Option<Vec<FlushGroup>>)
        requires
            old(self).wf(),
        ensures
            final(self).wf(),
            r is Some <==> old(self).l1.hot_size_bytes > old(self).l1.flush_threshold,
            r is None ==> *final(self) == *old(self),
            r matches Some(groups) ==> {
                &&& final(self).l1.snapshot@ == old(self).l1.hot@
                &&& final(self).l1.hot@.len() == 0
                &&& final(self).recent_flush.cache@ == all_upserted(
                    old(self).recent_flush.cache@,
                    old(self).l1.hot@,
                )
                &&& grouped(final(self).recent_flush.cache@, groups@)
                &&& final(self).recent_flush.flush_epoch == old(self).recent_flush.flush_epoch
                &&& final(self).l1 == (MemStore {
                    hot: final(self).l1.hot,
                    snapshot: final(self).l1.snapshot,
                    hot_size_bytes: 0,
                    ..old(self).l1
                })
                &&& *final(self) == (FlushEngine {
                    l1: final(self).l1,
                    recent_flush: final(self).recent_flush,
                    ..*old(self)
                })
            },
    {
        if self.l1.should_flush() {
            Some(self.flush_l1_to_l2())
        } else {
            None
        }
    }

    /// Take the next patch number and make a patch of these entries ready.
    pub fn next_patch(&mut self, cf: u16, entries: Vec<PatchEntry>) -> (r: Result<
        Option<PatchWrite>,
    >)
        ensures
            *final(self) == (FlushEngine {
                next_patch_id: old(self).next_patch_id.wrapping_add(1),
                ..*old(self)
            }),
            match r {
                Ok(None) => entries@.len() == 0,
                Ok(Some(w)) => entries@.len() > 0 && prepared(
                    w,
                    cf,
                    entries@,
                    old(self).next_patch_id,
                ),
                Err(e) => entries@.len() > 0 && is_too_large(entries@, e),
            },
    {
        let id: u64 = self.next_patch_id;
        self.next_patch_id = id.wrapping_add(1);
        DiskLayer::prepare_patch(cf, entries, id)
    }

    /// Enter a patch that was written to L2.
    pub fn publish_l2(&mut self, w: &PatchWrite)
        requires
            old(self).wf(),
            w.patch.format@.len() > 0,
        ensures
            final(self).wf(),
            patches_in(final(self).l2.cfs@, w.cf) == Some(
                placed(patch_list(old(self).l2, w.cf), ref_of(w.name@, w.patch.format@)),
            ),
            others_unchanged(old(self).l2, final(self).l2, w.cf),
            *final(self) == (FlushEngine { l2: final(self).l2, ..*old(self) }),
    {
        self.l2.publish(w);
    }

    /// Enter a patch that was written to L3.
    pub fn publish_l3(&mut self, w: &PatchWrite)
        requires
            old(self).wf(),
            w.patch.format@.len() > 0,
        ensures
            final(self).wf(),
            patches_in(final(self).l3.cfs@, w.cf) == Some(
                placed(patch_list(old(self).l3, w.cf), ref_of(w.name@, w.patch.format@)),
            ),
            others_unchanged(old(self).l3, final(self).l3, w.cf),
            *final(self) == (FlushEngine { l3: final(self).l3, ..*old(self) }),
    {
        self.l3.publish(w);
    }

    /// End a flush whose patches are all written and published: the cache is
    /// no longer needed.
    pub fn finish_flush(&mut self)
        requires
            old(self).wf(),
        ensures
            final(self).wf(),
            final(self).recent_flush.cache@.len() == 0,
            final(self).recent_flush.flush_epoch == old(self).recent_flush.flush_epoch.wrapping_add(
                1,
            ),
            final(self).flush_epoch == old(self).flush_epoch.wrapping_add(1),
            *final(self) == (FlushEngine {
                recent_flush: final(self).recent_flush,
                flush_epoch: final(self).flush_epoch,
                ..*old(self)
            }),
    {
        self.recent_flush.clear();
        self.recent_flush.increment_epoch();
        self.flush_epoch = self.flush_epoch.wrapping_add(1);
    }

    /// Merge the L2 versions of a column family for L3, where `known` holds the
    /// committed transactions. GC keeps of every key the newest committed
    /// version below the watermark and what is newer than that; with
    /// `u64::MAX`, when nothing is active and all is committed, only the newest
    /// version of every key.
    pub fn compact_l2_to_l3(
        &self,
        cf: u16,
        min_active_begin_ts: TxnId,
        known: &HashMap<TxnId, u64>,
    ) -> (r: CompactStep)
        requires
            self.wf(),
        ensures
            ({
                let list = patch_list(self.l2, cf);
                let versions = versions_in(cf, list, everything());
                match r {
                    CompactStep::Need(name) => missing(list, everything()) == Some(name@),
                    CompactStep::Empty => missing(list, everything()) is None && versions.len()
                        == 0,
                    CompactStep::Merged { retained, reclaimed } => {
                        &&& missing(list, everything()) is None
                        &&& versions.len() > 0
                        &&& retained@.len() + reclaimed == versions.len()
                        &&& merges(versions, min_active_begin_ts, known@.dom(), retained@)
                    },
                }
            }),
    {
        let versions = match self.l2.all_versions(cf) {
            LayerRead::Done(v) => v,
            LayerRead::Need(name) => {
                return CompactStep::Need(name);
            },
        };
        let ghost models = entry_models(versions@);
        assert(models.len() == versions@.len());
        if versions.len() == 0 {
            return CompactStep::Empty;
        }
        let mut entries: Vec<PatchEntry> = Vec::new();
        let mut i: usize = 0;
        while i < versions.len()
            invariant
                i <= versions@.len(),
                models == entry_models(versions@),
                entries@.len() == i,
                forall|j: int| 0 <= j < i ==> (#[trigger] entries@[j])@ == as_patch(models[j]),
            decreases versions@.len() - i,
        {
            entries.push(to_patch_entry(&versions[i]));
            i = i + 1;
        }
        let ghost given = entries@;
        proof {
            assert(patch_models(given) =~= models.map_values(|e: EntryModel| as_patch(e)));
            assert(same_as(given, models));
        }
        let merged = gc_committed(entries, min_active_begin_ts, known);
        let ghost sorted = choose|s: Seq<PatchEntry>| #[trigger]
            gc_merged(given, min_active_begin_ts, known@.dom(), s, merged.0@);
        let (retained, stats) = merged;
        assert(gc_merged(given, min_active_begin_ts, known@.dom(), sorted, retained@));
        assert(merges(models, min_active_begin_ts, known@.dom(), retained@));
        CompactStep::Merged { retained, reclaimed: stats.reclaimed }
    }

    /// Leave the L2 patches of a column family to L3, after their files were
    /// deleted.
    pub fn drop_l2(&mut self, cf: u16)
        requires
            old(self).wf(),
        ensures
            final(self).wf(),
            patches_in(final(self).l2.cfs@, cf) is None,
            others_unchanged(old(self).l2, final(self).l2, cf),
            *final(self) == (FlushEngine { l2: final(self).l2, ..*old(self) }),
    {
        self.l2.drop_cf(cf);
    }

    /// End a compaction of this many column families.
    pub fn finish_compaction(&mut self, cfs_compacted: usize)
        ensures
            *final(self) == (FlushEngine {
                flush_epoch: if cfs_compacted > 0 {
                    old(self).flush_epoch.wrapping_add(1)
                } else {
                    old(self).flush_epoch
                },
                ..*old(self)
            }),
    {
        if cfs_compacted > 0 {
            self.flush_epoch = self.flush_epoch.wrapping_add(1);
        }
    }

    /// Whether L2 has reached the number of patches at which it is compacted.
    pub fn try_compact(patch_count: usize, l2_patch_threshold: usize) -> (r: bool)
        ensures
            r == (patch_count >= l2_patch_threshold),
    {
        patch_count >= l2_patch_threshold
    }
}

/// Beginning a flush takes nothing away from readers: everything that was in
/// the hot buffer is in the cache, and what the cache held before is still
/// there unless the hot buffer had the same version, which replaces it.
pub proof fn law_flush_cache_covers_hot(
    hot: Seq<EntryModel>,
    cache: Seq<EntryModel>,
    x: EntryModel,
)
    requires
        versions_ascend(hot),
        versions_ascend(cache),
    ensures
        hot.contains(x) ==> all_upserted(cache, hot).contains(x),
        cache.contains(x) ==> exists|y: EntryModel| #[trigger]
            all_upserted(cache, hot).contains(y) && same_version(x, y),
{
    law_merge_accumulates(cache, hot, x);
    if cache.contains(x) {
        if exists|i: int| 0 <= i < hot.len() && same_version(x, #[trigger] hot[i]) {
            let i = choose|i: int| 0 <= i < hot.len() && same_version(x, #[trigger] hot[i]);
            law_merge_accumulates(cache, hot, hot[i]);
            assert(hot.contains(hot[i]));
            assert(all_upserted(cache, hot).contains(hot[i]));
        } else {
            assert(all_upserted(cache, hot).contains(x));
        }
    }
}

proof fn lemma_versions_in_member(cf: u16, s: Seq<RefModel>, span: Span, i: int, e: EntryModel)
    requires
        0 <= i < s.len(),
        versions_of(cf, s[i], span).contains(e),
    ensures
        versions_in(cf, s, span).contains(e),
    decreases s.len(),
{
    let now = versions_in(cf, s, span);
    let rest = versions_in(cf, s.drop_last(), span);
    let last = versions_of(cf, s.last(), span);
    if i == s.len() - 1 {
        let k = choose|k: int| 0 <= k < last.len() && last[k] == e;
        assert(now[rest.len() + k] == e);
    } else {
        assert(s.drop_last()[i] == s[i]);
        lemma_versions_in_member(cf, s.drop_last(), span, i, e);
        let k = choose|k: int| 0 <= k < rest.len() && rest[k] == e;
        assert(now[k] == e);
    }
}

/// A patch that is in the index and in memory serves every one of its
/// versions: the key range does not shut any of them out.
pub proof fn law_patch_serves_its_versions(
    cf: u16,
    list: Seq<RefModel>,
    i: int,
    sorted: Seq<PatchEntry>,
    p: PatchModel,
)
    requires
        0 <= i < list.len(),
        ascending(sorted),
        patch_models(sorted).contains(p),
        list[i].content == Some(patch_models(sorted)),
        list[i].min_key == patch_models(sorted)[0].key,
        list[i].max_key == patch_models(sorted).last().key,
    ensures
        versions_in(cf, list, Span::Key(p.key)).contains(as_entry(cf, p)),
        versions_in(cf, list, everything()).contains(as_entry(cf, p)),
{
    let c = patch_models(sorted);
    let k = choose|k: int| 0 <= k < c.len() && c[k] == p;
    assert(c[k] == sorted[k]@);
    assert(c[0] == sorted[0]@);
    assert(c.last() == sorted[sorted.len() - 1]@);
    lemma_sorted_patch_bounds(sorted, k);
    let e = as_entry(cf, p);
    assert(as_entries(cf, c)[k] == e);
    assert(as_entries(cf, c).contains(e));
    crate::bytes::lemma_lex_irreflexive(p.key);
    if lex_lt(p.key, list[i].min_key) {
        lemma_lex_asymmetric(p.key, list[i].min_key);
    }
    if lex_lt(list[i].max_key, p.key) {
        lemma_lex_asymmetric(list[i].max_key, p.key);
    }
    lemma_kept_members(as_entries(cf, c), Pick { cf, span: Span::Key(p.key), sight: None }, e);
    lemma_kept_members(as_entries(cf, c), Pick { cf, span: everything(), sight: None }, e);
    assert(!lex_lt(p.key, Seq::<u8>::empty()));
    assert(!lex_lt(list[i].max_key, Seq::<u8>::empty()));
    lemma_versions_in_member(cf, list, Span::Key(p.key), i, e);
    lemma_versions_in_member(cf, list, everything(), i, e);
}

/// A flush loses nothing: once the patches of all groups are in the index and
/// in memory, L2 serves every version that the cache held, so that the cache
/// may be cleared.
pub proof fn law_flush_loses_nothing(
    cache: Seq<EntryModel>,
    groups: Seq<FlushGroup>,
    g: int,
    w: PatchWrite,
    patch_id: u64,
    list: Seq<RefModel>,
    i: int,
    k: int,
)
    requires
        grouped(cache, groups),
        0 <= k < cache.len(),
        0 <= g < groups.len(),
        groups[g].cf == cache[k].key.cf,
        prepared(w, groups[g].cf, groups[g].entries@, patch_id),
        0 <= i < list.len(),
        list[i] == (RefModel {
            content: Some(w.patch.format@),
            ..ref_of(w.name@, w.patch.format@)
        }),
    ensures
        versions_in(cache[k].key.cf, list, Span::Key(cache[k].key.key)).contains(
            EntryModel { ts: 0, ..cache[k] },
        ),
{
    let cf = cache[k].key.cf;
    let p = as_patch(cache[k]);
    lemma_of_cf_member(cache, k);
    let given = groups[g].entries@;
    let sorted = w.patch.format->entries@;
    let m = choose|m: int| 0 <= m < of_cf(cache, cf).len() && of_cf(cache, cf)[m] == p;
    assert(patch_models(given)[m] == given[m]@);
    given.to_multiset_ensures();
    sorted.to_multiset_ensures();
    let pe = given[m];
    assert(given.contains(pe));
    assert(given.to_multiset().count(pe) > 0);
    assert(sorted.to_multiset().count(pe) > 0);
    assert(sorted.contains(pe));
    let n = choose|n: int| 0 <= n < sorted.len() && sorted[n] == pe;
    assert(patch_models(sorted)[n] == p);
    assert(patch_models(sorted).contains(p));
    law_patch_serves_its_versions(cf, list, i, sorted, p);
    assert(as_entry(cf, p) =~= EntryModel { ts: 0, ..cache[k] });
}

/// A patch number above all in use gives a file name that is not in use.
pub proof fn law_fresh_patch_name(name: Seq<char>, id: u64)
    requires
        stem_number(name) matches Some(n) ==> n < id,
    ensures
        patch_file(id) != name,
{
    crate::store::disk::law_patch_name_round_trip(id);
}

} // verus!
