//! Snapshot cache with generational invalidation.
//!
//! Every cached snapshot carries the generation it was built in. Any change
//! of the MVCC state clears the cache and starts a new generation, and a
//! snapshot that was built in an older generation is not cached. A reader in
//! the new generation therefore never meets an outdated snapshot.

use crate::mvcc::visibility::{
    snapshot_of, IsolationLevel, ManagerModel, SnapshotModel, TxnSnapshot, VisibilityManager,
};
use crate::TxnId;
use vstd::prelude::*;

verus! {

/// A cached snapshot with its generation.
#[derive(Debug)]
pub struct SnapshotCacheEntry {
    pub generation: TxnId,
    pub snapshot: TxnSnapshot,
}

/// Generational snapshot cache.
#[derive(Debug)]
pub struct SnapshotCache {
    /// Started anew by every change of the MVCC state.
    pub generation: TxnId,
    pub full_cache: Option<SnapshotCacheEntry>,
}

/// The snapshot cached for the current generation.
pub open spec fn cached(c: SnapshotCache) -> Option<SnapshotModel> {
    match c.full_cache {
        Some(e) => if e.generation == c.generation {
            Some(e.snapshot@)
        } else {
            None
        },
        None => None,
    }
}

/// What a cache holds for the current generation is up to date.
pub open spec fn fresh_for(c: SnapshotCache, m: ManagerModel) -> bool {
    cached(c) matches Some(s) ==> s == snapshot_of(m, IsolationLevel::Snapshot)
}

/// Invalidating takes `before` to `after`: the cached snapshot is dropped, and
/// a new generation starts.
pub open spec fn is_invalidated(before: SnapshotCache, after: SnapshotCache) -> bool {
    &&& after.generation == before.generation.wrapping_add(1)
    &&& cached(after) is None
}

/// Publishing a snapshot built in generation `built_in` takes `before` to
/// `after`.
pub open spec fn is_published(
    before: SnapshotCache,
    built_in: TxnId,
    s: SnapshotModel,
    after: SnapshotCache,
) -> bool {
    if built_in == before.generation {
        after.generation == before.generation && cached(after) == Some(s)
    } else {
        after == before
    }
}

/// A snapshot that was built before an invalidation is not served after it:
/// publishing it has no effect, and the next reader builds a new one.
pub proof fn law_outdated_snapshot_is_not_cached(
    before: SnapshotCache,
    between: SnapshotCache,
    s: SnapshotModel,
    after: SnapshotCache,
)
    requires
        is_invalidated(before, between),
        is_published(between, before.generation, s, after),
    ensures
        after == between,
        cached(after) is None,
{
}

impl SnapshotCache {
    /// An empty cache in generation 1.
    pub fn new() -> (r: Self)
        ensures
            r.generation == 1,
            cached(r) is None,
    {
        SnapshotCache { generation: 1, full_cache: None }
    }

    /// Drop the cached snapshot and start a new generation.
    pub fn invalidate(&mut self)
        ensures
            is_invalidated(*old(self), *final(self)),
            forall|m: ManagerModel| fresh_for(*final(self), m),
    {
        self.full_cache = None;
        self.generation = self.generation.wrapping_add(1);
    }

    pub fn current_generation(&self) -> (r: TxnId)
        ensures
            r == self.generation,
    {
        self.generation
    }

    /// The snapshot cached for the current generation.
    pub fn lookup(&self) -> (r: Option<TxnSnapshot>)
        ensures
            match r {
                Some(s) => cached(*self) == Some(s@),
                None => cached(*self) is None,
            },
    {
        match &self.full_cache {
            Some(entry) => if entry.generation == self.generation {
                Some(entry.snapshot.clone())
            } else {
                None
            },
            None => None,
        }
    }

    /// Cache a snapshot that was built in generation `built_in`. One from
    /// another generation is not cached: it may be outdated.
    pub fn publish(&mut self, built_in: TxnId, snapshot: &TxnSnapshot) -> (r: bool)
        ensures
            r == (built_in == old(self).generation),
            is_published(*old(self), built_in, snapshot@, *final(self)),
    {
        if self.generation != built_in {
            return false;
        }
        self.full_cache = Some(
            SnapshotCacheEntry { generation: built_in, snapshot: snapshot.clone() },
        );
        true
    }

    /// The cached snapshot, or a new one, which is then cached.
    pub fn snapshot(&mut self, mvcc: &VisibilityManager) -> (r: TxnSnapshot)
        ensures
            final(self).generation == old(self).generation,
            cached(*old(self)) matches Some(s) ==> r@ == s,
            cached(*old(self)) is None ==> r@ == snapshot_of(mvcc@, IsolationLevel::Snapshot),
            cached(*final(self)) == Some(r@),
            fresh_for(*old(self), mvcc@) ==> r@ == snapshot_of(mvcc@, IsolationLevel::Snapshot)
                && fresh_for(*final(self), mvcc@),
    {
        let built_in: TxnId = self.current_generation();
        match self.lookup() {
            Some(s) => {
                return s;
            },
            None => {},
        }
        let snap = mvcc.snapshot(IsolationLevel::Snapshot);
        self.publish(built_in, &snap);
        snap
    }
}

impl Default for SnapshotCache {
    fn default() -> (r: Self)
        ensures
            r.generation == 1,
            cached(r) is None,
    {
        Self::new()
    }
}

/// A snapshot is served from the cache only in the generation that it was
/// cached in, and then as it was cached.
pub proof fn law_cached_is_of_this_generation(c: SnapshotCache)
    ensures
        cached(c) is Some <==> c.full_cache is Some && (c.full_cache->0).generation
            == c.generation,
        cached(c) is Some ==> cached(c)->0 == (c.full_cache->0).snapshot@,
{
}

} // verus!
