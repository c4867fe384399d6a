//! Walking maps keyed by integers.

use std::collections::{BTreeMap, BTreeSet, HashMap, HashSet};
use vstd::laws_cmp::obeys_cmp;
use vstd::prelude::*;
use vstd::std_specs::btree::increasing_seq;
use vstd::std_specs::cmp::OrdSpec;
use vstd::std_specs::iter::IteratorSpec;

verus! {

broadcast use {
    vstd::std_specs::btree::group_btree_axioms,
    vstd::std_specs::hash::group_hash_axioms,
    vstd::laws_cmp::group_laws_cmp,
};

/// The numbers of `s` ascend without repetition.
pub open spec fn strictly_ascending(s: Seq<u64>) -> bool {
    forall|i: int, j: int| 0 <= i < j < s.len() ==> s[i] < s[j]
}

proof fn lemma_increasing<K: Ord>(s: Seq<K>, i: int, j: int)
    requires
        obeys_cmp::<K>(),
        increasing_seq(s),
        0 <= i < j < s.len(),
    ensures
        s[i].cmp_spec(&s[j]) is Less,
{
}

proof fn lemma_ascending_refs(s: Seq<&u64>)
    requires
        increasing_seq(s),
    ensures
        strictly_ascending(s.unref()),
{
    assert(obeys_cmp::<&u64>());
    assert forall|i: int, j: int| 0 <= i < j < s.len() implies s.unref()[i] < s.unref()[j] by {
        lemma_increasing(s, i, j);
    }
}

/// The keys of a map, ascending.
pub fn sorted_keys<V>(m: &BTreeMap<u64, V>) -> (r: Vec<u64>)
    ensures
        strictly_ascending(r@),
        r@.no_duplicates(),
        r@.to_set() == m@.dom(),
        r@.len() == m@.len(),
        forall|k: u64| r@.contains(k) <==> #[trigger] m@.contains_key(k),
{
    let mut r: Vec<u64> = Vec::new();
    let ghost all = vstd::std_specs::btree::spec_keys_iter(m).remaining();
    for k in it: m.keys()
        invariant
            it.seq() == all,
            r@.len() == it.index(),
            forall|i: int| 0 <= i < r@.len() ==> r@[i] == *all[i],
    {
        r.push(*k);
    }
    proof {
        assert(r@ =~= all.unref());
        lemma_ascending_refs(all);
        assert forall|k: u64| r@.contains(k) <==> #[trigger] m@.contains_key(k) by {
            assert(r@.to_set().contains(k) == m@.dom().contains(k));
        }
    }
    r
}

/// The keys of a hash map, in no particular order.
pub fn hash_keys(m: &HashMap<u64, u64>) -> (r: Vec<u64>)
    ensures
        r@.no_duplicates(),
        r@.to_set() == m@.dom(),
        forall|k: u64| r@.contains(k) <==> #[trigger] m@.contains_key(k),
{
    let mut r: Vec<u64> = Vec::new();
    let ghost all = vstd::std_specs::hash::spec_keys_iter(m).remaining();
    for k in it: m.keys()
        invariant
            it.seq() == all,
            r@.len() == it.index(),
            forall|i: int| 0 <= i < r@.len() ==> r@[i] == *all[i],
    {
        r.push(*k);
    }
    proof {
        assert(r@ =~= all.unref());
        assert forall|k: u64| r@.contains(k) <==> #[trigger] m@.contains_key(k) by {
            assert(r@.to_set().contains(k) == m@.dom().contains(k));
        }
    }
    r
}

/// The members of a set, ascending.
pub fn sorted_members(s: &BTreeSet<u64>) -> (r: Vec<u64>)
    ensures
        strictly_ascending(r@),
        r@.to_set() == s@,
        forall|k: u64| r@.contains(k) <==> #[trigger] s@.contains(k),
{
    let mut r: Vec<u64> = Vec::new();
    let ghost all = vstd::std_specs::btree::spec_btree_keys_iter(s).remaining();
    for k in it: s.iter()
        invariant
            it.seq() == all,
            r@.len() == it.index(),
            forall|i: int| 0 <= i < r@.len() ==> r@[i] == *all[i],
    {
        r.push(*k);
    }
    proof {
        assert(r@ =~= all.unref());
        lemma_ascending_refs(all);
        assert forall|k: u64| r@.contains(k) <==> #[trigger] s@.contains(k) by {
            assert(r@.to_set().contains(k) == s@.contains(k));
        }
    }
    r
}

/// The same members in a hash set.
pub fn to_hash_set(s: &BTreeSet<u64>) -> (r: HashSet<u64>)
    ensures
        r@ == s@,
{
    let ids = sorted_members(s);
    let mut out: HashSet<u64> = HashSet::new();
    let mut i: usize = 0;
    while i < ids.len()
        invariant
            i <= ids@.len(),
            forall|k: u64|
                out@.contains(k) <==> (exists|j: int| 0 <= j < i && #[trigger] ids@[j] == k),
        decreases ids@.len() - i,
    {
        let ghost out0 = out@;
        out.insert(ids[i]);
        proof {
            assert forall|k: u64|
                out@.contains(k) <==> (exists|j: int| 0 <= j < i + 1 && #[trigger] ids@[j] == k) by {
                if out0.contains(k) {
                    let j = choose|j: int| 0 <= j < i && #[trigger] ids@[j] == k;
                    assert(ids@[j] == k);
                }
                if k == ids@[i as int] {
                    assert(ids@[i as int] == k);
                }
            }
        }
        i = i + 1;
    }
    proof {
        assert forall|k: u64| out@.contains(k) == s@.contains(k) by {
            if s@.contains(k) {
                assert(ids@.contains(k));
                let j = choose|j: int| 0 <= j < ids@.len() && ids@[j] == k;
                assert(ids@[j] == k);
            }
            if out@.contains(k) {
                let j = choose|j: int| 0 <= j < i && #[trigger] ids@[j] == k;
                assert(ids@.contains(k));
            }
        }
        assert(out@ =~= s@);
    }
    out
}

} // verus!
