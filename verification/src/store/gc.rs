//! GC: physical reclamation of versions that no snapshot can reach.
//!
//! For each key GC keeps
//!
//! - every version with `txn_id >= min_active_begin_ts` (active snapshots may
//!   reference them), and
//! - the newest version below `min_active_begin_ts` (the baseline of long
//!   running transactions).
//!
//! Everything else is reclaimed; a tombstone is a version like any other.
//!
//! Only a committed version can be a baseline. [`gc_entries`] goes by
//! transaction ids alone, and takes all versions it is given to be committed;
//! [`gc_committed`] is told which are. A version that is not known to be
//! committed hides no other: it is reclaimed where a baseline hides it, and
//! kept where none does.

use crate::sort::{ascending, of_rank, same_rank, stable_sort, stably_sorted, Ranked};
use crate::store::types::{visible_at, PatchEntry};
use crate::bytes::{bytes_eq, lemma_lex_asymmetric, lemma_lex_irreflexive, lex_lt};
use crate::TxnId;
use std::collections::HashMap;
use vstd::prelude::*;

verus! {

broadcast use vstd::std_specs::hash::group_hash_axioms;

/// GC statistics.
#[derive(Debug, Clone, Copy, Default)]
pub struct GcStats {
    /// Number of entries scanned.
    pub scanned: usize,
    /// Number of entries retained.
    pub retained: usize,
    /// Number of entries reclaimed.
    pub reclaimed: usize,
}

/// Whether GC keeps the entry at `i` of a sorted sequence: it is not below
/// the watermark, or the next entry is not a newer version of the same key
/// below the watermark.
pub open spec fn gc_keeps(s: Seq<PatchEntry>, watermark: TxnId, i: int) -> bool {
    ||| s[i].txn_id >= watermark
    ||| i + 1 >= s.len()
    ||| s[i + 1].key@ != s[i].key@
    ||| s[i + 1].txn_id >= watermark
}

/// What GC keeps of the first `n` entries of a sorted sequence.
pub open spec fn gc_select(s: Seq<PatchEntry>, watermark: TxnId, n: int) -> Seq<PatchEntry>
    decreases n,
{
    if n <= 0 {
        Seq::empty()
    } else if gc_keeps(s, watermark, n - 1) {
        gc_select(s, watermark, n - 1).push(s[n - 1])
    } else {
        gc_select(s, watermark, n - 1)
    }
}

/// Whether two sequences of entries have the same content.
pub open spec fn same_entries(a: Seq<PatchEntry>, b: Seq<PatchEntry>) -> bool {
    a.len() == b.len() && forall|i: int| 0 <= i < a.len() ==> (#[trigger] a[i])@ == b[i]@
}

/// `retained` is what GC keeps of `entries`: sort them by key and
/// transaction id, and keep of every key the newest version below the
/// watermark and all versions from the watermark on.
pub open spec fn gc_result(
    entries: Seq<PatchEntry>,
    watermark: TxnId,
    sorted: Seq<PatchEntry>,
    retained: Seq<PatchEntry>,
) -> bool {
    &&& stably_sorted(entries, sorted)
    &&& same_entries(retained, gc_select(sorted, watermark, sorted.len() as int))
}

/// Merge the versions of a column family and drop those that GC reclaims at
/// the watermark `min_active_begin_ts`. The entries need not be sorted.
pub fn gc_entries(entries: Vec<PatchEntry>, min_active_begin_ts: TxnId) -> (r: (
    Vec<PatchEntry>,
    GcStats,
))
    ensures
        exists|sorted: Seq<PatchEntry>| #[trigger]
            gc_result(entries@, min_active_begin_ts, sorted, r.0@),
        r.1.scanned == entries@.len(),
        r.1.retained == r.0@.len(),
        r.1.retained + r.1.reclaimed == r.1.scanned,
{
    let ghost input = entries@;
    let scanned: usize = entries.len();
    let sorted = stable_sort(entries);
    let mut retained: Vec<PatchEntry> = Vec::new();
    let mut reclaimed: usize = 0;
    let mut i: usize = 0;
    while i < sorted.len()
        invariant
            i <= sorted@.len(),
            same_entries(retained@, gc_select(sorted@, min_active_begin_ts, i as int)),
            retained@.len() + reclaimed == i,
        decreases sorted@.len() - i,
    {
        let keep: bool = if sorted[i].txn_id >= min_active_begin_ts {
            true
        } else if i + 1 >= sorted.len() {
            true
        } else if !bytes_eq(sorted[i + 1].key.as_slice(), sorted[i].key.as_slice()) {
            true
        } else {
            sorted[i + 1].txn_id >= min_active_begin_ts
        };
        if keep {
            retained.push(sorted[i].clone());
        } else {
            reclaimed = reclaimed + 1;
        }
        i = i + 1;
    }
    let stats = GcStats { scanned, retained: retained.len(), reclaimed };
    let r = (retained, stats);
    proof {
        assert(gc_result(input, min_active_begin_ts, sorted@, r.0@));
    }
    r
}

/// The newest version of `key` that is not above `limit`; of versions of one
/// transaction the last in the sequence.
pub open spec fn newest_at(s: Seq<PatchEntry>, key: Seq<u8>, limit: TxnId) -> Option<PatchEntry>
    decreases s.len(),
{
    if s.len() == 0 {
        None
    } else {
        let before = newest_at(s.drop_last(), key, limit);
        let e = s.last();
        if e.key@ == key && e.txn_id <= limit && (before is None || before->0.txn_id <= e.txn_id) {
            Some(e)
        } else {
            before
        }
    }
}

/// What `newest_at` returns.
proof fn lemma_newest_at(s: Seq<PatchEntry>, key: Seq<u8>, limit: TxnId)
    ensures
        match newest_at(s, key, limit) {
            Some(e) => {
                &&& e.key@ == key
                &&& e.txn_id <= limit
                &&& s.contains(e)
                &&& of_rank(s, e).len() > 0
                &&& of_rank(s, e).last() == e
                &&& forall|i: int|
                    0 <= i < s.len() && (#[trigger] s[i]).key@ == key && s[i].txn_id <= limit
                        ==> s[i].txn_id <= e.txn_id
            },
            None => forall|i: int|
                0 <= i < s.len() ==> !((#[trigger] s[i]).key@ == key && s[i].txn_id <= limit),
        },
    decreases s.len(),
{
    reveal(Seq::filter);
    if s.len() > 0 {
        let before = s.drop_last();
        lemma_newest_at(before, key, limit);
        let last = s.last();
        assert(forall|i: int| 0 <= i < before.len() ==> before[i] == s[i]);
        match newest_at(s, key, limit) {
            Some(e) => {
                lemma_lex_irreflexive(key);
                if last.key@ == key && last.txn_id <= limit && (newest_at(before, key, limit)
                    is None || newest_at(before, key, limit)->0.txn_id <= last.txn_id) {
                    assert(s[s.len() - 1] == last);
                } else {
                    let k = choose|k: int| 0 <= k < before.len() && before[k] == e;
                    assert(s[k] == e);
                    assert(!same_rank(e, last)) by {
                        if same_rank(e, last) {
                            if lex_lt(e.key@, last.key@) {
                                lemma_lex_asymmetric(e.key@, last.key@);
                            }
                        }
                    }
                }
            },
            None => {
                assert(forall|i: int| 0 <= i < s.len() - 1 ==> s[i] == before[i]);
            },
        }
    }
}

/// Sorting keeps the members.
pub proof fn lemma_same_members(s: Seq<PatchEntry>, sorted: Seq<PatchEntry>, e: PatchEntry)
    requires
        stably_sorted(s, sorted),
    ensures
        s.contains(e) == sorted.contains(e),
{
    s.to_multiset_ensures();
    sorted.to_multiset_ensures();
    assert(s.contains(e) == (s.to_multiset().count(e) > 0));
    assert(sorted.contains(e) == (sorted.to_multiset().count(e) > 0));
}

/// Sorting keeps the newest version of every key.
pub proof fn lemma_newest_at_sorted(
    s: Seq<PatchEntry>,
    sorted: Seq<PatchEntry>,
    key: Seq<u8>,
    limit: TxnId,
)
    requires
        stably_sorted(s, sorted),
    ensures
        newest_at(sorted, key, limit) == newest_at(s, key, limit),
{
    lemma_newest_at(s, key, limit);
    lemma_newest_at(sorted, key, limit);
    match (newest_at(s, key, limit), newest_at(sorted, key, limit)) {
        (Some(a), Some(b)) => {
            lemma_same_members(s, sorted, a);
            lemma_same_members(s, sorted, b);
            assert(a.txn_id == b.txn_id);
            assert(of_rank(sorted, a) == of_rank(s, a));
            assert forall|y: PatchEntry| same_rank(a, y) == same_rank(b, y) by {
                assert(a@.key == b@.key && a@.txn_id == b@.txn_id);
            }
            assert((|y: PatchEntry| same_rank(a, y)) =~= (|y: PatchEntry| same_rank(b, y)));
        },
        (Some(a), None) => {
            lemma_same_members(s, sorted, a);
        },
        (None, Some(b)) => {
            lemma_same_members(s, sorted, b);
        },
        (None, None) => {},
    }
}

/// In a sorted sequence the newest version is the last matching one.
proof fn lemma_newest_at_ascending(s: Seq<PatchEntry>, n: int, key: Seq<u8>, limit: TxnId)
    requires
        ascending(s),
        0 <= n < s.len(),
        s[n].key@ == key,
        s[n].txn_id <= limit,
    ensures
        newest_at(s.take(n + 1), key, limit) == Some(s[n]),
{
    let t = s.take(n + 1);
    assert(t.drop_last() =~= s.take(n));
    lemma_newest_at(s.take(n), key, limit);
    match newest_at(s.take(n), key, limit) {
        Some(e) => {
            let k = choose|k: int| 0 <= k < n && s.take(n)[k] == e;
            assert(s[k].ranks_le(s[n]));
            lemma_lex_irreflexive(key);
        },
        None => {},
    }
}

/// Up to any point, the newest version among what GC kept is the newest
/// version, unless the next entry replaces it.
proof fn lemma_gc_prefix(s: Seq<PatchEntry>, watermark: TxnId, key: Seq<u8>, limit: TxnId, n: int)
    requires
        ascending(s),
        0 <= n <= s.len(),
        limit + 1 >= watermark,
    ensures
        ({
            let full = newest_at(s.take(n), key, limit);
            let kept = newest_at(gc_select(s, watermark, n), key, limit);
            ||| kept == full
            ||| n > 0 && !gc_keeps(s, watermark, n - 1) && s[n - 1].key@ == key
        }),
    decreases n,
{
    if n > 0 {
        lemma_gc_prefix(s, watermark, key, limit, n - 1);
        let e = s[n - 1];
        let before = s.take(n - 1);
        assert(s.take(n).drop_last() =~= before);
        let kept_before = gc_select(s, watermark, n - 1);
        if gc_keeps(s, watermark, n - 1) {
            assert(kept_before.push(e).drop_last() =~= kept_before);
            if e.key@ == key && e.txn_id <= limit {
                lemma_newest_at_ascending(s, n - 1, key, limit);
                lemma_gc_select_members(s, watermark, n - 1);
                lemma_newest_at(kept_before, key, limit);
                match newest_at(kept_before, key, limit) {
                    Some(x) => {
                        let k = choose|k: int| 0 <= k < kept_before.len() && kept_before[k] == x;
                        let j = choose|j: int| 0 <= j < n - 1 && s[j] == kept_before[k];
                        assert(s[j].ranks_le(s[n - 1]));
                        lemma_lex_irreflexive(key);
                    },
                    None => {},
                }
            } else if n - 1 > 0 && !gc_keeps(s, watermark, n - 2) && s[n - 2].key@ == key {
                // the dropped entry is followed by a newer version of its key
                assert(s[n - 1].key@ == key);
                assert(s[n - 1].txn_id < watermark);
            }
        } else {
            if e.key@ != key && n - 1 > 0 && !gc_keeps(s, watermark, n - 2) && s[n - 2].key@
                == key {
                assert(s[n - 1].key@ == key);
            }
        }
    } else {
        assert(s.take(0) =~= Seq::<PatchEntry>::empty());
    }
}

/// GC keeps entries of what it was given.
pub proof fn lemma_gc_select_members(s: Seq<PatchEntry>, watermark: TxnId, n: int)
    requires
        0 <= n <= s.len(),
    ensures
        forall|k: int|
            0 <= k < gc_select(s, watermark, n).len() ==> exists|j: int|
                0 <= j < n && s[j] == #[trigger] gc_select(s, watermark, n)[k],
    decreases n,
{
    if n > 0 {
        lemma_gc_select_members(s, watermark, n - 1);
        let before = gc_select(s, watermark, n - 1);
        let now = gc_select(s, watermark, n);
        assert forall|k: int| 0 <= k < now.len() implies exists|j: int|
            0 <= j < n && s[j] == #[trigger] now[k] by {
            if k < before.len() {
                let j = choose|j: int| 0 <= j < n - 1 && s[j] == before[k];
                assert(s[j] == now[k]);
            } else {
                assert(s[n - 1] == now[k]);
            }
        }
    }
}

/// Conservativeness: every snapshot at or above the watermark finds, for
/// every key, the same newest version after GC as before it.
pub proof fn law_gc_is_conservative(
    entries: Seq<PatchEntry>,
    watermark: TxnId,
    sorted: Seq<PatchEntry>,
    key: Seq<u8>,
    snapshot: TxnId,
)
    requires
        stably_sorted(entries, sorted),
        snapshot + 1 >= watermark,
    ensures
        newest_at(gc_select(sorted, watermark, sorted.len() as int), key, snapshot) == newest_at(
            entries,
            key,
            snapshot,
        ),
{
    let n = sorted.len() as int;
    lemma_gc_prefix(sorted, watermark, key, snapshot, n);
    assert(sorted.take(n) =~= sorted);
    lemma_newest_at_sorted(entries, sorted, key, snapshot);
}

/// GC never reclaims a version from the watermark on.
pub proof fn law_gc_keeps_all_from_watermark(
    entries: Seq<PatchEntry>,
    watermark: TxnId,
    sorted: Seq<PatchEntry>,
    e: PatchEntry,
)
    requires
        stably_sorted(entries, sorted),
        entries.contains(e),
        e.txn_id >= watermark,
    ensures
        gc_select(sorted, watermark, sorted.len() as int).contains(e),
{
    lemma_same_members(entries, sorted, e);
    let i = choose|i: int| 0 <= i < sorted.len() && sorted[i] == e;
    lemma_gc_select_contains(sorted, watermark, i, sorted.len() as int);
}

pub proof fn lemma_gc_select_contains(s: Seq<PatchEntry>, watermark: TxnId, i: int, n: int)
    requires
        0 <= i < n <= s.len(),
        gc_keeps(s, watermark, i),
    ensures
        gc_select(s, watermark, n).contains(s[i]),
    decreases n,
{
    let now = gc_select(s, watermark, n);
    if i == n - 1 {
        assert(now[now.len() - 1] == s[i]);
    } else {
        lemma_gc_select_contains(s, watermark, i, n - 1);
        let before = gc_select(s, watermark, n - 1);
        let k = choose|k: int| 0 <= k < before.len() && before[k] == s[i];
        assert(now[k] == s[i]);
    }
}

/// The newest version of `key` that a snapshot sees; of versions of one
/// transaction the last in the sequence.
pub open spec fn newest_visible(
    s: Seq<PatchEntry>,
    key: Seq<u8>,
    snapshot: TxnId,
    commits: Map<TxnId, u64>,
    active: Set<TxnId>,
) -> Option<PatchEntry>
    decreases s.len(),
{
    if s.len() == 0 {
        None
    } else {
        let before = newest_visible(s.drop_last(), key, snapshot, commits, active);
        let e = s.last();
        if e.key@ == key && visible_at(e.txn_id, snapshot, commits, active) && (before is None
            || before->0.txn_id <= e.txn_id) {
            Some(e)
        } else {
            before
        }
    }
}

/// What `newest_visible` returns: a visible version of the key, and none is
/// newer.
pub proof fn lemma_newest_visible(
    s: Seq<PatchEntry>,
    key: Seq<u8>,
    snapshot: TxnId,
    commits: Map<TxnId, u64>,
    active: Set<TxnId>,
)
    ensures
        match newest_visible(s, key, snapshot, commits, active) {
            Some(e) => {
                &&& e.key@ == key
                &&& visible_at(e.txn_id, snapshot, commits, active)
                &&& s.contains(e)
                &&& forall|i: int|
                    0 <= i < s.len() && (#[trigger] s[i]).key@ == key && visible_at(
                        s[i].txn_id,
                        snapshot,
                        commits,
                        active,
                    ) ==> s[i].txn_id <= e.txn_id
            },
            None => forall|i: int|
                0 <= i < s.len() ==> !((#[trigger] s[i]).key@ == key && visible_at(
                    s[i].txn_id,
                    snapshot,
                    commits,
                    active,
                )),
        },
    decreases s.len(),
{
    if s.len() > 0 {
        let before = s.drop_last();
        lemma_newest_visible(before, key, snapshot, commits, active);
        assert(forall|i: int| 0 <= i < before.len() ==> #[trigger] s[i] == before[i]);
        match newest_visible(s, key, snapshot, commits, active) {
            Some(e) => {
                if newest_visible(before, key, snapshot, commits, active) == Some(e) {
                    let k = choose|k: int| 0 <= k < before.len() && before[k] == e;
                    assert(s[k] == e);
                } else {
                    assert(s[s.len() - 1] == e);
                }
            },
            None => {},
        }
    }
}

proof fn lemma_newest_visible_ascending(
    s: Seq<PatchEntry>,
    n: int,
    key: Seq<u8>,
    snapshot: TxnId,
    commits: Map<TxnId, u64>,
    active: Set<TxnId>,
)
    requires
        ascending(s),
        0 <= n < s.len(),
        s[n].key@ == key,
        visible_at(s[n].txn_id, snapshot, commits, active),
    ensures
        newest_visible(s.take(n + 1), key, snapshot, commits, active) == Some(s[n]),
{
    let t = s.take(n + 1);
    assert(t.drop_last() =~= s.take(n));
    lemma_newest_visible(s.take(n), key, snapshot, commits, active);
    match newest_visible(s.take(n), key, snapshot, commits, active) {
        Some(e) => {
            let k = choose|k: int| 0 <= k < n && s.take(n)[k] == e;
            assert(s[k].ranks_le(s[n]));
            lemma_lex_irreflexive(key);
        },
        None => {},
    }
}

/// Where the last visible version of a key stands.
proof fn lemma_last_visible(
    s: Seq<PatchEntry>,
    key: Seq<u8>,
    snapshot: TxnId,
    commits: Map<TxnId, u64>,
    active: Set<TxnId>,
    n: int,
) -> (r: int)
    requires
        ascending(s),
        0 <= n <= s.len(),
    ensures
        -1 <= r < n,
        r >= 0 ==> s[r].key@ == key && visible_at(s[r].txn_id, snapshot, commits, active),
        forall|j: int|
            r < j < n ==> !((#[trigger] s[j]).key@ == key && visible_at(
                s[j].txn_id,
                snapshot,
                commits,
                active,
            )),
        newest_visible(s.take(n), key, snapshot, commits, active) == (if r >= 0 {
            Some(s[r])
        } else {
            None
        }),
    decreases n,
{
    if n == 0 {
        assert(s.take(0) =~= Seq::<PatchEntry>::empty());
        -1
    } else {
        assert(s.take(n).drop_last() =~= s.take(n - 1));
        if s[n - 1].key@ == key && visible_at(s[n - 1].txn_id, snapshot, commits, active) {
            lemma_newest_visible_ascending(s, n - 1, key, snapshot, commits, active);
            n - 1
        } else {
            lemma_last_visible(s, key, snapshot, commits, active, n - 1)
        }
    }
}

/// The last visible version of a key, once kept, is what GC leaves to see.
proof fn lemma_kept_stays_newest(
    s: Seq<PatchEntry>,
    watermark: TxnId,
    key: Seq<u8>,
    snapshot: TxnId,
    commits: Map<TxnId, u64>,
    active: Set<TxnId>,
    n: int,
    k: int,
)
    requires
        ascending(s),
        0 <= n < k <= s.len(),
        s[n].key@ == key,
        visible_at(s[n].txn_id, snapshot, commits, active),
        gc_keeps(s, watermark, n),
        forall|j: int|
            n < j < s.len() ==> !((#[trigger] s[j]).key@ == key && visible_at(
                s[j].txn_id,
                snapshot,
                commits,
                active,
            )),
    ensures
        newest_visible(gc_select(s, watermark, k), key, snapshot, commits, active) == Some(s[n]),
    decreases k,
{
    let rest = gc_select(s, watermark, k - 1);
    assert(rest.push(s[k - 1]).drop_last() =~= rest);
    if k == n + 1 {
        lemma_gc_select_members(s, watermark, n);
        lemma_newest_visible(rest, key, snapshot, commits, active);
        if let Some(x) = newest_visible(rest, key, snapshot, commits, active) {
            let m = choose|m: int| 0 <= m < rest.len() && rest[m] == x;
            let j = choose|j: int| 0 <= j < n && s[j] == rest[m];
            assert(s[j].ranks_le(s[n]));
            lemma_lex_irreflexive(key);
        }
    } else {
        lemma_kept_stays_newest(s, watermark, key, snapshot, commits, active, n, k - 1);
    }
}

/// GC leaves nothing to see that was not there before.
proof fn lemma_gc_shows_nothing_new(
    s: Seq<PatchEntry>,
    watermark: TxnId,
    key: Seq<u8>,
    snapshot: TxnId,
    commits: Map<TxnId, u64>,
    active: Set<TxnId>,
    k: int,
)
    requires
        0 <= k <= s.len(),
        forall|j: int|
            0 <= j < s.len() ==> !((#[trigger] s[j]).key@ == key && visible_at(
                s[j].txn_id,
                snapshot,
                commits,
                active,
            )),
    ensures
        newest_visible(gc_select(s, watermark, k), key, snapshot, commits, active) is None,
    decreases k,
{
    if k > 0 {
        lemma_gc_shows_nothing_new(s, watermark, key, snapshot, commits, active, k - 1);
        let rest = gc_select(s, watermark, k - 1);
        assert(rest.push(s[k - 1]).drop_last() =~= rest);
    }
}

/// A snapshot sees the same version of a key after GC as before it, unless a
/// version that it does not see stands between the newest one it sees and the
/// watermark.
pub proof fn law_gc_keeps_what_a_snapshot_sees(
    entries: Seq<PatchEntry>,
    watermark: TxnId,
    sorted: Seq<PatchEntry>,
    key: Seq<u8>,
    snapshot: TxnId,
    commits: Map<TxnId, u64>,
    active: Set<TxnId>,
)
    requires
        stably_sorted(entries, sorted),
        newest_visible(sorted, key, snapshot, commits, active) matches Some(x) ==> forall|i: int|
            0 <= i < sorted.len() && (#[trigger] sorted[i]).key@ == key && x.txn_id
                < sorted[i].txn_id ==> sorted[i].txn_id >= watermark,
    ensures
        newest_visible(
            gc_select(sorted, watermark, sorted.len() as int),
            key,
            snapshot,
            commits,
            active,
        ) == newest_visible(sorted, key, snapshot, commits, active),
{
    let len = sorted.len() as int;
    let n = lemma_last_visible(sorted, key, snapshot, commits, active, len);
    assert(sorted.take(len) =~= sorted);
    if n < 0 {
        lemma_gc_shows_nothing_new(sorted, watermark, key, snapshot, commits, active, len);
    } else {
        assert(gc_keeps(sorted, watermark, n)) by {
            if n + 1 < len && sorted[n + 1].key@ == key {
                assert(sorted[n].ranks_le(sorted[n + 1]));
                lemma_lex_irreflexive(key);
                assert(sorted[n].txn_id <= sorted[n + 1].txn_id);
                if sorted[n].txn_id == sorted[n + 1].txn_id {
                    assert(visible_at(sorted[n + 1].txn_id, snapshot, commits, active));
                }
            }
        }
        lemma_kept_stays_newest(
            sorted,
            watermark,
            key,
            snapshot,
            commits,
            active,
            n,
            len,
        );
    }
}

/// Behind the entry at `i` of a sorted sequence stands a version of the same
/// key that is committed and below the watermark.
pub open spec fn covered(
    s: Seq<PatchEntry>,
    watermark: TxnId,
    known: Set<TxnId>,
    i: int,
) -> bool
    decreases s.len() - i,
{
    &&& i + 1 < s.len()
    &&& s[i + 1].key@ == s[i].key@
    &&& (s[i + 1].txn_id < watermark && known.contains(s[i + 1].txn_id)) || covered(
        s,
        watermark,
        known,
        i + 1,
    )
}

/// What GC keeps of the first `n` entries of a sorted sequence, where `known`
/// are the committed transactions: what is not below the watermark, and what
/// no committed version below the watermark hides.
pub open spec fn gc_spared(
    s: Seq<PatchEntry>,
    watermark: TxnId,
    known: Set<TxnId>,
    n: int,
) -> Seq<PatchEntry>
    decreases n,
{
    if n <= 0 {
        Seq::empty()
    } else if s[n - 1].txn_id >= watermark || !covered(s, watermark, known, n - 1) {
        gc_spared(s, watermark, known, n - 1).push(s[n - 1])
    } else {
        gc_spared(s, watermark, known, n - 1)
    }
}

/// `retained` is what GC keeps of `entries`, where `known` are the committed
/// transactions.
pub open spec fn gc_merged(
    entries: Seq<PatchEntry>,
    watermark: TxnId,
    known: Set<TxnId>,
    sorted: Seq<PatchEntry>,
    retained: Seq<PatchEntry>,
) -> bool {
    &&& stably_sorted(entries, sorted)
    &&& same_entries(retained, gc_spared(sorted, watermark, known, sorted.len() as int))
}

/// Merge the versions of a column family and drop those that GC reclaims at
/// the watermark, where `known` holds the committed transactions. The entries
/// need not be sorted.
pub fn gc_committed(
    entries: Vec<PatchEntry>,
    watermark: TxnId,
    known: &HashMap<TxnId, u64>,
) -> (r: (Vec<PatchEntry>, GcStats))
    ensures
        exists|sorted: Seq<PatchEntry>| #[trigger]
            gc_merged(entries@, watermark, known@.dom(), sorted, r.0@),
        // what a newer committed version below the watermark hides is reclaimed
        forall|k: int, x: PatchEntry|
            0 <= k < r.0@.len() && #[trigger] entries@.contains(x) && x.key@ == (
            #[trigger] r.0@[k]).key@ && x.txn_id < watermark && known@.contains_key(x.txn_id)
                ==> r.0@[k].txn_id >= watermark || x.txn_id <= r.0@[k].txn_id,
        r.1.scanned == entries@.len(),
        r.1.retained == r.0@.len(),
        r.1.retained + r.1.reclaimed == r.1.scanned,
{
    let ghost input = entries@;
    let ghost ids = known@.dom();
    let scanned: usize = entries.len();
    let sorted = stable_sort(entries);
    let len: usize = sorted.len();
    // whether an entry is covered, from the last entry to the first
    let mut flags: Vec<bool> = Vec::new();
    let mut i: usize = len;
    while i > 0
        invariant
            i <= len,
            len == sorted@.len(),
            ids == known@.dom(),
            flags@.len() == len - i,
            forall|k: int|
                0 <= k < flags@.len() ==> #[trigger] flags@[k] == covered(
                    sorted@,
                    watermark,
                    ids,
                    len - 1 - k,
                ),
        decreases i,
    {
        i = i - 1;
        let c: bool = if i + 1 < len && bytes_eq(
            sorted[i + 1].key.as_slice(),
            sorted[i].key.as_slice(),
        ) {
            let next: TxnId = sorted[i + 1].txn_id;
            (next < watermark && known.contains_key(&next)) || flags[len - 2 - i]
        } else {
            false
        };
        assert(c == covered(sorted@, watermark, ids, i as int));
        flags.push(c);
    }
    let mut retained: Vec<PatchEntry> = Vec::new();
    let mut reclaimed: usize = 0;
    let mut i: usize = 0;
    while i < len
        invariant
            i <= len,
            len == sorted@.len(),
            flags@.len() == len,
            forall|k: int|
                0 <= k < flags@.len() ==> #[trigger] flags@[k] == covered(
                    sorted@,
                    watermark,
                    ids,
                    len - 1 - k,
                ),
            same_entries(retained@, gc_spared(sorted@, watermark, ids, i as int)),
            retained@.len() + reclaimed == i,
        decreases len - i,
    {
        assert(flags@[len - 1 - i] == covered(sorted@, watermark, ids, i as int));
        if sorted[i].txn_id >= watermark || !flags[len - 1 - i] {
            retained.push(sorted[i].clone());
        } else {
            reclaimed = reclaimed + 1;
        }
        i = i + 1;
    }
    let stats = GcStats { scanned, retained: retained.len(), reclaimed };
    let r = (retained, stats);
    proof {
        assert(gc_merged(input, watermark, ids, sorted@, r.0@));
        assert forall|k: int, x: PatchEntry|
            0 <= k < r.0@.len() && #[trigger] input.contains(x) && x.key@ == (
            #[trigger] r.0@[k]).key@ && x.txn_id < watermark && known@.contains_key(
                x.txn_id,
            ) implies r.0@[k].txn_id >= watermark || x.txn_id <= r.0@[k].txn_id by {
            crate::store::gc_exact::law_gc_reclaims_what_is_hidden(
                input,
                watermark,
                ids,
                sorted@,
                r.0@,
                k,
                x,
            );
        }
    }
    r
}

/// GC keeps entries of what it was given.
pub proof fn lemma_gc_spared_members(s: Seq<PatchEntry>, watermark: TxnId, known: Set<TxnId>, n: int)
    requires
        0 <= n <= s.len(),
    ensures
        forall|k: int|
            0 <= k < gc_spared(s, watermark, known, n).len() ==> exists|j: int|
                0 <= j < n && s[j] == #[trigger] gc_spared(s, watermark, known, n)[k],
    decreases n,
{
    if n > 0 {
        lemma_gc_spared_members(s, watermark, known, n - 1);
        let before = gc_spared(s, watermark, known, n - 1);
        let now = gc_spared(s, watermark, known, n);
        assert forall|k: int| 0 <= k < now.len() implies exists|j: int|
            0 <= j < n && s[j] == #[trigger] now[k] by {
            if k < before.len() {
                let j = choose|j: int| 0 <= j < n - 1 && s[j] == before[k];
                assert(s[j] == now[k]);
            } else {
                assert(s[n - 1] == now[k]);
            }
        }
    }
}

proof fn lemma_gc_spared_contains(
    s: Seq<PatchEntry>,
    watermark: TxnId,
    known: Set<TxnId>,
    i: int,
    n: int,
)
    requires
        0 <= i < n <= s.len(),
        s[i].txn_id >= watermark || !covered(s, watermark, known, i),
    ensures
        gc_spared(s, watermark, known, n).contains(s[i]),
    decreases n,
{
    let now = gc_spared(s, watermark, known, n);
    if i == n - 1 {
        assert(now[now.len() - 1] == s[i]);
    } else {
        lemma_gc_spared_contains(s, watermark, known, i, n - 1);
        let before = gc_spared(s, watermark, known, n - 1);
        let k = choose|k: int| 0 <= k < before.len() && before[k] == s[i];
        assert(now[k] == s[i]);
    }
}

/// What covers an entry.
proof fn lemma_covered(s: Seq<PatchEntry>, watermark: TxnId, known: Set<TxnId>, i: int) -> (j: int)
    requires
        0 <= i < s.len(),
        covered(s, watermark, known, i),
    ensures
        i < j < s.len(),
        s[j].key@ == s[i].key@,
        s[j].txn_id < watermark,
        known.contains(s[j].txn_id),
    decreases s.len() - i,
{
    if s[i + 1].txn_id < watermark && known.contains(s[i + 1].txn_id) {
        i + 1
    } else {
        lemma_covered(s, watermark, known, i + 1)
    }
}

/// The last entry of a key and a transaction.
proof fn lemma_last_of(s: Seq<PatchEntry>, key: Seq<u8>, t: TxnId, i: int) -> (m: int)
    requires
        0 <= i < s.len(),
        s[i].key@ == key,
        s[i].txn_id == t,
    ensures
        i <= m < s.len(),
        s[m].key@ == key,
        s[m].txn_id == t,
        forall|j: int| m < j < s.len() ==> !((#[trigger] s[j]).key@ == key && s[j].txn_id == t),
    decreases s.len() - i,
{
    if exists|j: int| i < j < s.len() && (#[trigger] s[j]).key@ == key && s[j].txn_id == t {
        let j = choose|j: int|
            i < j < s.len() && (#[trigger] s[j]).key@ == key && s[j].txn_id == t;
        lemma_last_of(s, key, t, j)
    } else {
        i
    }
}

/// A version survives GC where no committed version of its key below the
/// watermark is newer.
pub proof fn law_gc_keeps_what_nothing_hides(
    entries: Seq<PatchEntry>,
    watermark: TxnId,
    known: Set<TxnId>,
    sorted: Seq<PatchEntry>,
    e: PatchEntry,
)
    requires
        stably_sorted(entries, sorted),
        entries.contains(e),
        forall|x: PatchEntry| #[trigger]
            entries.contains(x) && x.key@ == e.key@ && x.txn_id < watermark && known.contains(
                x.txn_id,
            ) ==> x.txn_id <= e.txn_id,
    ensures
        exists|k: int|
            0 <= k < gc_spared(sorted, watermark, known, sorted.len() as int).len() && (
            #[trigger] gc_spared(sorted, watermark, known, sorted.len() as int)[k]).key@ == e.key@
                && gc_spared(sorted, watermark, known, sorted.len() as int)[k].txn_id == e.txn_id,
{
    let len = sorted.len() as int;
    let out = gc_spared(sorted, watermark, known, len);
    lemma_same_members(entries, sorted, e);
    let i = choose|i: int| 0 <= i < len && sorted[i] == e;
    let m = lemma_last_of(sorted, e.key@, e.txn_id, i);
    if covered(sorted, watermark, known, m) {
        let j = lemma_covered(sorted, watermark, known, m);
        assert(sorted[m].ranks_le(sorted[j]));
        lemma_lex_irreflexive(e.key@);
        assert(sorted.contains(sorted[j]));
        lemma_same_members(entries, sorted, sorted[j]);
        assert(sorted[j].txn_id == e.txn_id);
        assert(false);
    }
    lemma_gc_spared_contains(sorted, watermark, known, m, len);
    let k = choose|k: int| 0 <= k < out.len() && out[k] == sorted[m];
    assert(out[k].key@ == e.key@ && out[k].txn_id == e.txn_id);
}

} // verus!
