//! The committed history: transaction id -> (commit timestamp, insertion time).

use crate::maps::sorted_keys;
use crate::sort::{stable_sort, Ranked};
use crate::TxnId;
use std::collections::{BTreeMap, HashMap};
use vstd::prelude::*;

verus! {

broadcast use {
    vstd::std_specs::btree::group_btree_axioms,
    vstd::std_specs::hash::group_hash_axioms,
    vstd::laws_cmp::group_laws_cmp,
};

/// The commit timestamps of a history.
pub open spec fn commit_times(h: Map<TxnId, (u64, u64)>) -> Map<TxnId, u64> {
    h.map_values(|v: (u64, u64)| v.0)
}

/// The commit timestamps of a history that are not above `limit`.
pub open spec fn commits_up_to(h: Map<TxnId, (u64, u64)>, limit: u64) -> Map<TxnId, u64> {
    Map::new(|t: TxnId| h.contains_key(t) && h[t].0 <= limit, |t: TxnId| h[t].0)
}

/// The entries that were inserted at `cutoff` or later.
pub open spec fn not_older(h: Map<TxnId, (u64, u64)>, cutoff: u64) -> Map<TxnId, (u64, u64)> {
    Map::new(|t: TxnId| h.contains_key(t) && h[t].1 >= cutoff, |t: TxnId| h[t])
}

/// `kept` is what remains of `h` when the oldest entries by insertion time
/// are evicted until `keep` are left. Which of several entries of the same
/// age go is open.
pub open spec fn oldest_evicted(
    h: Map<TxnId, (u64, u64)>,
    keep: nat,
    kept: Map<TxnId, (u64, u64)>,
) -> bool {
    &&& kept.submap_of(h)
    &&& kept.len() == keep
    &&& forall|a: TxnId, b: TxnId|
        kept.contains_key(a) && h.contains_key(b) && !kept.contains_key(b) ==> (#[trigger] h[b]).1
            <= (#[trigger] h[a]).1
}

/// A history entry by age.
struct Aged {
    inserted_at: u64,
    txn_id: TxnId,
}

impl Ranked for Aged {
    closed spec fn ranks_le(self, other: Self) -> bool {
        self.inserted_at <= other.inserted_at
    }

    proof fn ranks_total(a: Self, b: Self) {
    }

    proof fn ranks_transitive(a: Self, b: Self, c: Self) {
    }

    fn is_le(&self, other: &Self) -> (r: bool) {
        self.inserted_at <= other.inserted_at
    }
}

/// `l` lists every entry of `h` once.
spec fn lists(l: Seq<Aged>, h: Map<TxnId, (u64, u64)>) -> bool {
    &&& l.len() == h.len()
    &&& forall|i: int|
        0 <= i < l.len() ==> h.contains_key((#[trigger] l[i]).txn_id) && h[l[i].txn_id].1
            == l[i].inserted_at
    &&& forall|i: int, j: int|
        0 <= i < j < l.len() ==> (#[trigger] l[i]).txn_id != (#[trigger] l[j]).txn_id
    &&& forall|t: TxnId|
        h.contains_key(t) ==> exists|i: int| 0 <= i < l.len() && (#[trigger] l[i]).txn_id == t
}

proof fn lemma_lists_sorted(l: Seq<Aged>, sorted: Seq<Aged>, h: Map<TxnId, (u64, u64)>)
    requires
        lists(l, h),
        sorted.to_multiset() == l.to_multiset(),
    ensures
        lists(sorted, h),
{
    l.to_multiset_ensures();
    sorted.to_multiset_ensures();
    assert forall|x: Aged| l.contains(x) == sorted.contains(x) by {
        assert(l.contains(x) == (l.to_multiset().count(x) > 0));
        assert(sorted.contains(x) == (sorted.to_multiset().count(x) > 0));
    }
    assert(l.no_duplicates());
    l.lemma_multiset_has_no_duplicates();
    sorted.lemma_multiset_has_no_duplicates_conv();
    assert forall|i: int| 0 <= i < sorted.len() implies h.contains_key((#[trigger] sorted[i]).txn_id)
        && h[sorted[i].txn_id].1 == sorted[i].inserted_at by {
        assert(sorted.contains(sorted[i]));
        let k = choose|k: int| 0 <= k < l.len() && l[k] == sorted[i];
        assert(h.contains_key(l[k].txn_id));
    }
    assert forall|i: int, j: int| 0 <= i < j < sorted.len() implies (#[trigger] sorted[i]).txn_id
        != (#[trigger] sorted[j]).txn_id by {
        assert(h.contains_key(sorted[i].txn_id) && h.contains_key(sorted[j].txn_id));
        if sorted[i].txn_id == sorted[j].txn_id {
            assert(sorted[i] == sorted[j]);
        }
    }
    assert forall|t: TxnId| h.contains_key(t) implies exists|i: int|
        0 <= i < sorted.len() && (#[trigger] sorted[i]).txn_id == t by {
        let k = choose|k: int| 0 <= k < l.len() && (#[trigger] l[k]).txn_id == t;
        assert(l.contains(l[k]));
        assert(sorted.contains(l[k]));
        let i = choose|i: int| 0 <= i < sorted.len() && sorted[i] == l[k];
        assert(sorted[i].txn_id == t);
    }
}

/// List the entries of a history.
fn list_entries(h: &BTreeMap<TxnId, (u64, u64)>) -> (r: Vec<Aged>)
    ensures
        lists(r@, h@),
{
    let keys = sorted_keys(h);
    let mut out: Vec<Aged> = Vec::new();
    let mut i: usize = 0;
    while i < keys.len()
        invariant
            i <= keys@.len(),
            out@.len() == i,
            keys@.len() == h@.len(),
            crate::maps::strictly_ascending(keys@),
            forall|k: u64| keys@.contains(k) <==> #[trigger] h@.contains_key(k),
            forall|j: int|
                0 <= j < i ==> (#[trigger] out@[j]).txn_id == keys@[j] && out@[j].inserted_at
                    == h@[keys@[j]].1,
        decreases keys@.len() - i,
    {
        let k: u64 = keys[i];
        assert(keys@.contains(k));
        match h.get(&k) {
            Some(v) => {
                out.push(Aged { inserted_at: v.1, txn_id: k });
            },
            None => {
                assert(false);
            },
        }
        i = i + 1;
    }
    proof {
        assert forall|j: int| 0 <= j < out@.len() implies h@.contains_key((#[trigger] out@[j]).txn_id)
            && h@[out@[j].txn_id].1 == out@[j].inserted_at by {
            assert(keys@.contains(keys@[j]));
        }
        assert forall|t: TxnId| h@.contains_key(t) implies exists|j: int|
            0 <= j < out@.len() && (#[trigger] out@[j]).txn_id == t by {
            assert(keys@.contains(t));
            let j = choose|j: int| 0 <= j < keys@.len() && keys@[j] == t;
            assert(out@[j].txn_id == t);
        }
    }
    out
}

/// Evict the oldest entries by insertion time until `keep` are left.
pub fn evict_oldest(h: &mut BTreeMap<TxnId, (u64, u64)>, keep: usize)
    requires
        keep <= old(h)@.len(),
    ensures
        oldest_evicted(old(h)@, keep as nat, final(h)@),
{
    let ghost h0 = h@;
    let listed = list_entries(h);
    let ghost l0 = listed@;
    let sorted = stable_sort(listed);
    proof {
        lemma_lists_sorted(l0, sorted@, h0);
    }
    let evict: usize = sorted.len() - keep;
    let mut i: usize = 0;
    while i < evict
        invariant
            lists(sorted@, h0),
            i <= evict,
            evict + keep == sorted@.len(),
            h@.len() == sorted@.len() - i,
            h@.submap_of(h0),
            forall|j: int|
                0 <= j < sorted@.len() ==> (h@.contains_key((#[trigger] sorted@[j]).txn_id) <==> j
                    >= i),
        decreases evict - i,
    {
        let t: TxnId = sorted[i].txn_id;
        assert(h@.contains_key(sorted@[i as int].txn_id));
        h.remove(&t);
        i = i + 1;
    }
    proof {
        assert forall|a: TxnId, b: TxnId|
            h@.contains_key(a) && h0.contains_key(b) && !h@.contains_key(b) implies (
        #[trigger] h0[b]).1 <= (#[trigger] h0[a]).1 by {
            assert(h@.dom().contains(a));
            assert(h0.contains_key(a));
            let ia = choose|j: int| 0 <= j < sorted@.len() && (#[trigger] sorted@[j]).txn_id == a;
            let ib = choose|j: int| 0 <= j < sorted@.len() && (#[trigger] sorted@[j]).txn_id == b;
            assert(sorted@[ib].ranks_le(sorted@[ia]));
        }
    }
}

/// Evict the entries that were inserted before `cutoff`.
pub fn evict_expired(h: &mut BTreeMap<TxnId, (u64, u64)>, cutoff: u64)
    ensures
        final(h)@ == not_older(old(h)@, cutoff),
{
    let ghost h0 = h@;
    let keys = sorted_keys(h);
    let mut i: usize = 0;
    while i < keys.len()
        invariant
            i <= keys@.len(),
            keys@.no_duplicates(),
            forall|k: u64| keys@.contains(k) <==> #[trigger] h0.contains_key(k),
            h@.submap_of(h0),
            forall|j: int|
                0 <= j < keys@.len() ==> (h@.contains_key(#[trigger] keys@[j]) <==> (j >= i
                    || h0[keys@[j]].1 >= cutoff)),
        decreases keys@.len() - i,
    {
        let k: u64 = keys[i];
        assert(keys@.contains(k));
        assert(h@.contains_key(keys@[i as int]));
        assert(h@.dom().contains(k) && h0.dom().contains(k));
        assert(h@[k] == h0[k]);
        let ghost before = h@;
        let expired: bool = match h.get(&k) {
            Some(v) => v.1 < cutoff,
            None => false,
        };
        if expired {
            h.remove(&k);
        }
        proof {
            assert forall|j: int| 0 <= j < keys@.len() implies (h@.contains_key(#[trigger] keys@[j])
                <==> (j >= i + 1 || h0[keys@[j]].1 >= cutoff)) by {
                assert(before.contains_key(keys@[j]) <==> (j >= i || h0[keys@[j]].1 >= cutoff));
                assert(j != i ==> keys@[j] != k);
            }
        }
        i = i + 1;
    }
    proof {
        let want = not_older(h0, cutoff);
        assert forall|t: TxnId| h@.contains_key(t) == want.contains_key(t) by {
            if h0.contains_key(t) {
                assert(keys@.contains(t));
                let j = choose|j: int| 0 <= j < keys@.len() && keys@[j] == t;
                assert(keys@[j] == t);
            }
        }
        assert(h@ =~= want);
    }
}

/// The commit timestamps of a history that are not above `limit`.
pub fn collect_commits(h: &BTreeMap<TxnId, (u64, u64)>, limit: u64) -> (r: HashMap<TxnId, u64>)
    ensures
        r@ == commits_up_to(h@, limit),
{
    let keys = sorted_keys(h);
    let mut r: HashMap<TxnId, u64> = HashMap::new();
    let mut i: usize = 0;
    while i < keys.len()
        invariant
            i <= keys@.len(),
            keys@.no_duplicates(),
            forall|k: u64| keys@.contains(k) <==> #[trigger] h@.contains_key(k),
            r@.submap_of(commits_up_to(h@, limit)),
            forall|j: int|
                0 <= j < i && h@[keys@[j]].0 <= limit ==> r@.contains_key(#[trigger] keys@[j]),
        decreases keys@.len() - i,
    {
        let k: u64 = keys[i];
        assert(keys@.contains(k));
        match h.get(&k) {
            Some(v) => {
                if v.0 <= limit {
                    r.insert(k, v.0);
                }
            },
            None => {},
        }
        i = i + 1;
    }
    proof {
        let want = commits_up_to(h@, limit);
        assert forall|t: TxnId| want.contains_key(t) implies r@.contains_key(t) by {
            assert(keys@.contains(t));
            let j = choose|j: int| 0 <= j < keys@.len() && keys@[j] == t;
            assert(r@.contains_key(keys@[j]));
        }
        assert(r@ =~= want);
    }
    r
}

/// The largest of `floor` and the commit timestamps of a history.
pub fn max_commit_ts(h: &BTreeMap<TxnId, (u64, u64)>, floor: u64) -> (r: u64)
    ensures
        r >= floor,
        forall|t: TxnId| #[trigger] h@.contains_key(t) ==> h@[t].0 <= r,
        r == floor || exists|t: TxnId| #[trigger] h@.contains_key(t) && h@[t].0 == r,
{
    let keys = sorted_keys(h);
    let mut r: u64 = floor;
    let mut i: usize = 0;
    while i < keys.len()
        invariant
            i <= keys@.len(),
            forall|k: u64| keys@.contains(k) <==> #[trigger] h@.contains_key(k),
            r >= floor,
            forall|j: int| 0 <= j < i ==> h@[#[trigger] keys@[j]].0 <= r,
            r == floor || exists|t: TxnId| #[trigger] h@.contains_key(t) && h@[t].0 == r,
        decreases keys@.len() - i,
    {
        let k: u64 = keys[i];
        assert(keys@.contains(k));
        match h.get(&k) {
            Some(v) => {
                if v.0 > r {
                    r = v.0;
                    assert(h@.contains_key(k) && h@[k].0 == r);
                }
            },
            None => {},
        }
        i = i + 1;
    }
    proof {
        assert forall|t: TxnId| #[trigger] h@.contains_key(t) implies h@[t].0 <= r by {
            assert(keys@.contains(t));
            let j = choose|j: int| 0 <= j < keys@.len() && keys@[j] == t;
            assert(h@[keys@[j]].0 <= r);
        }
    }
    r
}

} // verus!
