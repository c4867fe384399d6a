//! The cache of recently flushed versions.
//!
//! It bridges the flush from L1 to L2: versions taken out of L1 stay readable
//! here until their patch is written and indexed. The cache holds everything
//! not yet durably written: versions are merged in when they leave L1, and it
//! is cleared only after every patch was written. Where a patch cannot be
//! written, the versions stay readable and the flush can be tried again.

use crate::bytes::bytes_eq;
use crate::store::select::{kept, lemma_kept_push, Pick, Span};
use crate::store::types::{entry_models, lemma_entry_models_push, EntryModel, Z1Entry};
use crate::store::version_map::{
    all_upserted, lemma_upserted_members, same_version, versions_ascend, VersionMap,
};
use vstd::prelude::*;

verus! {

/// Cache for recently flushed versions.
#[derive(Debug)]
pub struct RecentFlushCache {
    pub cache: VersionMap,
    /// Counts the flushes from L1 to L2, wrapping.
    pub flush_epoch: u64,
}

/// The versions of `s` whose flag is set, in order.
pub open spec fn flagged(s: Seq<EntryModel>, flags: Seq<bool>) -> Seq<EntryModel>
    decreases s.len(),
{
    if s.len() == 0 {
        Seq::empty()
    } else if flags[s.len() - 1] {
        flagged(s.drop_last(), flags).push(s.last())
    } else {
        flagged(s.drop_last(), flags)
    }
}

proof fn lemma_flagged_push(s: Seq<EntryModel>, flags: Seq<bool>, more: Seq<bool>)
    requires
        s.len() <= flags.len() <= more.len(),
        forall|i: int| 0 <= i < flags.len() ==> flags[i] == more[i],
    ensures
        flagged(s, flags) == flagged(s, more),
    decreases s.len(),
{
    if s.len() > 0 {
        lemma_flagged_push(s.drop_last(), flags, more);
    }
}

impl RecentFlushCache {
    pub open spec fn wf(&self) -> bool {
        self.cache.wf()
    }

    pub fn new() -> (r: Self)
        ensures
            r.wf(),
            r.cache@.len() == 0,
            r.flush_epoch == 0,
    {
        RecentFlushCache { cache: VersionMap::new(), flush_epoch: 0 }
    }

    /// Cache these versions instead of what was cached before.
    pub fn cache_entries(&mut self, entries: &Vec<Z1Entry>)
        ensures
            final(self).wf(),
            final(self).cache@ == all_upserted(Seq::empty(), entry_models(entries@)),
            final(self).flush_epoch == old(self).flush_epoch,
    {
        self.cache = VersionMap::new();
        self.cache.insert_all(entries);
    }

    /// All cached versions, in order.
    pub fn get_all(&self) -> (r: Vec<Z1Entry>)
        ensures
            entry_models(r@) == self.cache@,
    {
        self.cache.to_vec()
    }

    /// Cache these versions in addition to what is cached already.
    pub fn cache_merge(&mut self, entries: &Vec<Z1Entry>)
        requires
            old(self).wf(),
        ensures
            final(self).wf(),
            final(self).cache@ == all_upserted(old(self).cache@, entry_models(entries@)),
            final(self).flush_epoch == old(self).flush_epoch,
    {
        self.cache.insert_all(entries);
    }

    /// All cached versions of a key.
    pub fn get_for_key(&self, cf: u16, key: &[u8]) -> (r: Vec<Z1Entry>)
        ensures
            entry_models(r@) == kept(
                self.cache@,
                Pick { cf, span: Span::Key(key@), sight: None },
            ),
    {
        let ghost p = Pick { cf, span: Span::Key(key@), sight: None };
        let ghost all = self.cache@;
        let mut out: Vec<Z1Entry> = Vec::new();
        let mut i: usize = 0;
        assert(all.take(0) =~= Seq::<EntryModel>::empty());
        assert(entry_models(out@) =~= Seq::<EntryModel>::empty());
        while i < self.cache.entries.len()
            invariant
                i <= self.cache.entries@.len(),
                all == self.cache@,
                p == (Pick { cf, span: Span::Key(key@), sight: None }),
                entry_models(out@) == kept(all.take(i as int), p),
            decreases self.cache.entries@.len() - i,
        {
            let e = &self.cache.entries[i];
            let ghost out0 = out@;
            proof {
                assert(all.take(i + 1) =~= all.take(i as int).push(e@));
                lemma_kept_push(all.take(i as int), e@, p);
            }
            if e.key.cf == cf && bytes_eq(e.key.key.as_slice(), key) {
                let c = e.clone();
                out.push(c);
                proof {
                    lemma_entry_models_push(out0, c);
                    assert(p.admits(e@));
                }
            } else {
                assert(!p.admits(e@));
            }
            i = i + 1;
        }
        assert(all.take(i as int) =~= all);
        out
    }

    /// All cached versions that a filter accepts, in order.
    pub fn get_filtered<F: Fn(&Z1Entry) -> bool>(&self, filter: F) -> (r: Vec<Z1Entry>)
        requires
            forall|e: Z1Entry| #[trigger] call_requires(filter, (&e,)),
        ensures
            exists|flags: Seq<bool>|
                flags.len() == self.cache.entries@.len() && entry_models(r@) == #[trigger] flagged(
                    self.cache@,
                    flags,
                ) && forall|i: int|
                    0 <= i < flags.len() ==> call_ensures(
                        filter,
                        (&self.cache.entries@[i],),
                        #[trigger] flags[i],
                    ),
    {
        let ghost all = self.cache@;
        let ghost mut flags: Seq<bool> = Seq::empty();
        let mut out: Vec<Z1Entry> = Vec::new();
        let mut i: usize = 0;
        assert(all.take(0) =~= Seq::<EntryModel>::empty());
        assert(entry_models(out@) =~= Seq::<EntryModel>::empty());
        while i < self.cache.entries.len()
            invariant
                i <= self.cache.entries@.len(),
                all == self.cache@,
                forall|e: Z1Entry| #[trigger] call_requires(filter, (&e,)),
                flags.len() == i,
                entry_models(out@) == flagged(all.take(i as int), flags),
                forall|j: int|
                    0 <= j < i ==> call_ensures(
                        filter,
                        (&self.cache.entries@[j],),
                        #[trigger] flags[j],
                    ),
            decreases self.cache.entries@.len() - i,
        {
            let e = &self.cache.entries[i];
            assert(call_requires(filter, (e,)));
            let keep: bool = filter(e);
            let ghost out0 = out@;
            let ghost flags0 = flags;
            proof {
                flags = flags.push(keep);
                assert(all.take(i + 1).drop_last() =~= all.take(i as int));
                assert(all.take(i + 1).last() == e@);
                lemma_flagged_push(all.take(i as int), flags0, flags);
            }
            if keep {
                let c = e.clone();
                out.push(c);
                proof {
                    lemma_entry_models_push(out0, c);
                }
            }
            i = i + 1;
        }
        assert(all.take(i as int) =~= all);
        out
    }

    pub fn clear(&mut self)
        ensures
            final(self).wf(),
            final(self).cache@.len() == 0,
            final(self).flush_epoch == old(self).flush_epoch,
    {
        self.cache = VersionMap::new();
    }

    /// Count one more flush.
    pub fn increment_epoch(&mut self)
        ensures
            final(self).flush_epoch == old(self).flush_epoch.wrapping_add(1),
            final(self).cache == old(self).cache,
    {
        self.flush_epoch = self.flush_epoch.wrapping_add(1);
    }

    /// The number of flushes.
    pub fn flush_epoch(&self) -> (r: u64)
        ensures
            r == self.flush_epoch,
    {
        self.flush_epoch
    }
}

impl Default for RecentFlushCache {
    fn default() -> (r: Self)
        ensures
            r.wf(),
            r.cache@.len() == 0,
            r.flush_epoch == 0,
    {
        Self::new()
    }
}

/// Merging adds: every merged version is cached unless a later one of the
/// batch is the same version, and what was cached before stays unless the
/// batch holds the same version.
pub proof fn law_merge_accumulates(s: Seq<EntryModel>, es: Seq<EntryModel>, x: EntryModel)
    requires
        versions_ascend(s),
    ensures
        versions_ascend(all_upserted(s, es)),
        s.contains(x) && (forall|i: int| 0 <= i < es.len() ==> !same_version(x, #[trigger] es[i]))
            ==> all_upserted(s, es).contains(x),
        es.len() > 0 && versions_ascend(es) && es.contains(x) ==> all_upserted(s, es).contains(x),
    decreases es.len(),
{
    if es.len() > 0 {
        let rest = es.drop_last();
        let e = es.last();
        law_merge_accumulates(s, rest, x);
        let mid = all_upserted(s, rest);
        crate::store::version_map::lemma_upserted_ascends(mid, e);
        lemma_upserted_members(mid, e, x);
        if s.contains(x) && (forall|i: int|
            0 <= i < es.len() ==> !same_version(x, #[trigger] es[i])) {
            assert(!same_version(x, es[es.len() - 1]));
            assert forall|i: int| 0 <= i < rest.len() implies !same_version(
                x,
                #[trigger] rest[i],
            ) by {
                assert(!same_version(x, es[i]));
            }
        }
        if versions_ascend(es) && es.contains(x) {
            let k = choose|k: int| 0 <= k < es.len() && es[k] == x;
            if k < rest.len() {
                assert(rest[k] == x);
                assert(versions_ascend(rest)) by {
                    assert forall|i: int, j: int| 0 <= i < j < rest.len() implies
                        crate::store::version_map::version_lt(
                        #[trigger] rest[i],
                        #[trigger] rest[j],
                    ) by {
                        assert(crate::store::version_map::version_lt(es[i], es[j]));
                    }
                }
                assert(crate::store::version_map::version_lt(es[k], es[es.len() - 1]));
                crate::store::version_map::lemma_version_lt_excludes(x, e);
            }
        }
    }
}

} // verus!
