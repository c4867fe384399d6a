//! An ordered map from (key, transaction) to versions.

use crate::bytes::{compare_bytes, lemma_lex_irreflexive, lemma_lex_transitive, KeyOrder};
use crate::store::types::{
    entry_models, key_lt, lemma_entry_models_push, EntryModel, KeyModel, Z1Entry,
};
use vstd::prelude::*;

verus! {

/// By key, then by transaction.
pub open spec fn version_lt(a: EntryModel, b: EntryModel) -> bool {
    key_lt(a.key, b.key) || (a.key == b.key && a.txn_id < b.txn_id)
}

/// The same key, written by the same transaction.
pub open spec fn same_version(a: EntryModel, b: EntryModel) -> bool {
    a.key == b.key && a.txn_id == b.txn_id
}

/// No version occurs twice, and they stand in order.
pub open spec fn versions_ascend(s: Seq<EntryModel>) -> bool {
    forall|i: int, j: int| 0 <= i < j < s.len() ==> version_lt(#[trigger] s[i], #[trigger] s[j])
}

/// `s` with `e` in its place, instead of the same version if that was there.
pub open spec fn upserted(s: Seq<EntryModel>, e: EntryModel) -> Seq<EntryModel>
    decreases s.len(),
{
    if s.len() == 0 {
        seq![e]
    } else if version_lt(s.last(), e) {
        s.push(e)
    } else if same_version(s.last(), e) {
        s.drop_last().push(e)
    } else {
        upserted(s.drop_last(), e).push(s.last())
    }
}

/// `s` with all of `es` put in, one after the other.
pub open spec fn all_upserted(s: Seq<EntryModel>, es: Seq<EntryModel>) -> Seq<EntryModel>
    decreases es.len(),
{
    if es.len() == 0 {
        s
    } else {
        upserted(all_upserted(s, es.drop_last()), es.last())
    }
}

proof fn lemma_key_lt_transitive(a: KeyModel, b: KeyModel, c: KeyModel)
    requires
        key_lt(a, b),
        key_lt(b, c),
    ensures
        key_lt(a, c),
{
    if a.cf == b.cf && b.cf == c.cf {
        lemma_lex_transitive(a.key, b.key, c.key);
    }
}

proof fn lemma_key_lt_irreflexive(a: KeyModel)
    ensures
        !key_lt(a, a),
{
    lemma_lex_irreflexive(a.key);
}

pub proof fn lemma_version_lt_transitive(a: EntryModel, b: EntryModel, c: EntryModel)
    requires
        version_lt(a, b),
        version_lt(b, c),
    ensures
        version_lt(a, c),
{
    if key_lt(a.key, b.key) && key_lt(b.key, c.key) {
        lemma_key_lt_transitive(a.key, b.key, c.key);
    }
}

pub proof fn lemma_version_lt_excludes(a: EntryModel, b: EntryModel)
    requires
        version_lt(a, b),
    ensures
        !version_lt(b, a),
        !same_version(a, b),
{
    lemma_key_lt_irreflexive(a.key);
    if version_lt(b, a) {
        lemma_version_lt_transitive(a, b, a);
    }
}

/// Putting a version in replaces the same version and keeps all others.
pub proof fn lemma_upserted_members(s: Seq<EntryModel>, e: EntryModel, x: EntryModel)
    requires
        versions_ascend(s),
    ensures
        upserted(s, e).contains(x) <==> x == e || (s.contains(x) && !same_version(x, e)),
    decreases s.len(),
{
    if s.len() == 0 {
        assert(seq![e][0] == e);
    } else {
        let rest = s.drop_last();
        let l = s.last();
        assert(s =~= rest.push(l));
        crate::store::select::lemma_push_members(rest, l, x);
        if version_lt(l, e) {
            crate::store::select::lemma_push_members(s, e, x);
            if s.contains(x) && same_version(x, e) {
                let i = choose|i: int| 0 <= i < s.len() && s[i] == x;
                if i < s.len() - 1 {
                    assert(version_lt(s[i], s[s.len() - 1]));
                    lemma_version_lt_transitive(x, l, e);
                }
                lemma_version_lt_excludes(x, e);
            }
        } else if same_version(l, e) {
            crate::store::select::lemma_push_members(rest, e, x);
            if rest.contains(x) {
                let i = choose|i: int| 0 <= i < rest.len() && rest[i] == x;
                assert(version_lt(s[i], s[s.len() - 1]));
                lemma_version_lt_excludes(x, l);
            }
        } else {
            assert(versions_ascend(rest)) by {
                assert forall|i: int, j: int| 0 <= i < j < rest.len() implies version_lt(
                    #[trigger] rest[i],
                    #[trigger] rest[j],
                ) by {
                    assert(version_lt(s[i], s[j]));
                }
            }
            lemma_upserted_members(rest, e, x);
            crate::store::select::lemma_push_members(upserted(rest, e), l, x);
        }
    }
}

/// Where a version belongs in an ascending sequence.
proof fn lemma_upserted_at(s: Seq<EntryModel>, e: EntryModel, p: int)
    requires
        versions_ascend(s),
        0 <= p <= s.len(),
        forall|i: int| 0 <= i < p ==> version_lt(#[trigger] s[i], e),
        forall|i: int| p < i < s.len() ==> version_lt(e, #[trigger] s[i]),
        p < s.len() ==> same_version(s[p], e) || version_lt(e, s[p]),
    ensures
        p < s.len() && same_version(s[p], e) ==> upserted(s, e) == s.update(p, e),
        !(p < s.len() && same_version(s[p], e)) ==> upserted(s, e) == s.insert(p, e),
        versions_ascend(upserted(s, e)),
    decreases s.len(),
{
    let out = if p < s.len() && same_version(s[p], e) {
        s.update(p, e)
    } else {
        s.insert(p, e)
    };
    assert(versions_ascend(out)) by {
        assert forall|i: int, j: int| 0 <= i < j < out.len() implies version_lt(
            #[trigger] out[i],
            #[trigger] out[j],
        ) by {
            if p < s.len() && same_version(s[p], e) {
                assert(version_lt(s[i], s[j]));
            } else {
                let a = if i < p {
                    i
                } else {
                    i - 1
                };
                let b = if j < p {
                    j
                } else {
                    j - 1
                };
                if i != p {
                    assert(out[i] == s[a]);
                }
                if j != p {
                    assert(out[j] == s[b]);
                }
                if i != p && j != p {
                    assert(version_lt(s[a], s[b]));
                }
            }
        }
    }
    if s.len() == 0 {
        assert(out =~= seq![e]);
    } else {
        let l = s.last();
        if p == s.len() {
            assert(version_lt(s[s.len() - 1], e));
            assert(out =~= s.push(e));
        } else if p == s.len() - 1 && same_version(s[p], e) {
            assert(!version_lt(l, e)) by {
                lemma_key_lt_irreflexive(e.key);
            }
            assert(out =~= s.drop_last().push(e));
        } else {
            assert(version_lt(e, l));
            lemma_version_lt_excludes(e, l);
            let rest = s.drop_last();
            assert forall|i: int, j: int| 0 <= i < j < rest.len() implies version_lt(
                #[trigger] rest[i],
                #[trigger] rest[j],
            ) by {
                assert(version_lt(s[i], s[j]));
            }
            assert forall|i: int| 0 <= i < p implies version_lt(#[trigger] rest[i], e) by {
                assert(version_lt(s[i], e));
            }
            assert forall|i: int| p < i < rest.len() implies version_lt(e, #[trigger] rest[i]) by {
                assert(version_lt(e, s[i]));
            }
            lemma_upserted_at(rest, e, p);
            if p < rest.len() && same_version(rest[p], e) {
                assert(out =~= rest.update(p, e).push(l));
            } else {
                assert(out =~= rest.insert(p, e).push(l));
            }
        }
    }
}

/// Putting a version in keeps the order.
pub proof fn lemma_upserted_ascends(s: Seq<EntryModel>, e: EntryModel)
    requires
        versions_ascend(s),
    ensures
        versions_ascend(upserted(s, e)),
{
    let p = lemma_place(s, e, s.len() as int);
    lemma_upserted_at(s, e, p);
}

/// Every version has a place in an ascending sequence.
proof fn lemma_place(s: Seq<EntryModel>, e: EntryModel, n: int) -> (p: int)
    requires
        versions_ascend(s),
        0 <= n <= s.len(),
        forall|i: int| n <= i < s.len() ==> version_lt(e, #[trigger] s[i]),
    ensures
        0 <= p <= s.len(),
        forall|i: int| 0 <= i < p ==> version_lt(#[trigger] s[i], e),
        forall|i: int| p < i < s.len() ==> version_lt(e, #[trigger] s[i]),
        p < s.len() ==> same_version(s[p], e) || version_lt(e, s[p]),
    decreases n,
{
    if n == 0 {
        0
    } else {
        let l = s[n - 1];
        crate::bytes::lemma_lex_total(l.key.key, e.key.key);
        if version_lt(e, l) {
            lemma_place(s, e, n - 1)
        } else if same_version(l, e) {
            assert forall|i: int| 0 <= i < n - 1 implies version_lt(#[trigger] s[i], e) by {
                assert(version_lt(s[i], s[n - 1]));
            }
            n - 1
        } else {
            assert(version_lt(l, e));
            assert forall|i: int| 0 <= i < n implies version_lt(#[trigger] s[i], e) by {
                if i < n - 1 {
                    assert(version_lt(s[i], s[n - 1]));
                    lemma_version_lt_transitive(s[i], l, e);
                }
            }
            n
        }
    }
}

fn version_order(a: &Z1Entry, b: &Z1Entry) -> (r: KeyOrder)
    ensures
        match r {
            KeyOrder::Less => version_lt(a@, b@),
            KeyOrder::Equal => same_version(a@, b@),
            KeyOrder::Greater => version_lt(b@, a@),
        },
{
    if a.key.cf < b.key.cf {
        return KeyOrder::Less;
    }
    if a.key.cf > b.key.cf {
        return KeyOrder::Greater;
    }
    match compare_bytes(a.key.key.as_slice(), b.key.key.as_slice()) {
        KeyOrder::Less => KeyOrder::Less,
        KeyOrder::Greater => KeyOrder::Greater,
        KeyOrder::Equal => {
            assert(a.key@ == b.key@);
            if a.txn_id < b.txn_id {
                KeyOrder::Less
            } else if a.txn_id > b.txn_id {
                KeyOrder::Greater
            } else {
                KeyOrder::Equal
            }
        },
    }
}

/// An ordered map from (key, transaction) to versions.
#[derive(Debug)]
pub struct VersionMap {
    pub entries: Vec<Z1Entry>,
}

impl View for VersionMap {
    type V = Seq<EntryModel>;

    open spec fn view(&self) -> Seq<EntryModel> {
        entry_models(self.entries@)
    }
}

impl VersionMap {
    pub open spec fn wf(&self) -> bool {
        versions_ascend(self@)
    }

    pub fn new() -> (r: Self)
        ensures
            r.wf(),
            r@ == Seq::<EntryModel>::empty(),
    {
        let r = VersionMap { entries: Vec::new() };
        assert(r@ =~= Seq::<EntryModel>::empty());
        r
    }

    pub fn len(&self) -> (r: usize)
        ensures
            r == self@.len(),
    {
        self.entries.len()
    }

    /// Put a version in; the same version is replaced.
    pub fn insert(&mut self, entry: Z1Entry)
        requires
            old(self).wf(),
        ensures
            final(self).wf(),
            final(self)@ == upserted(old(self)@, entry@),
    {
        let ghost m = self@;
        let mut lo: usize = 0;
        let mut hi: usize = self.entries.len();
        while lo < hi
            invariant
                lo <= hi <= self.entries@.len(),
                m == self@,
                self.entries@ == old(self).entries@,
                versions_ascend(m),
                forall|i: int| 0 <= i < lo ==> version_lt(#[trigger] m[i], entry@),
                forall|i: int| hi <= i < m.len() ==> version_lt(entry@, #[trigger] m[i]),
            decreases hi - lo,
        {
            let mid: usize = lo + (hi - lo) / 2;
            assert(m[mid as int] == self.entries@[mid as int]@);
            match version_order(&self.entries[mid], &entry) {
                KeyOrder::Less => {
                    proof {
                        assert forall|i: int| 0 <= i < mid + 1 implies version_lt(
                            #[trigger] m[i],
                            entry@,
                        ) by {
                            if i < mid {
                                lemma_version_lt_transitive(m[i], m[mid as int], entry@);
                            }
                        }
                    }
                    lo = mid + 1;
                },
                KeyOrder::Greater => {
                    proof {
                        assert forall|i: int| mid <= i < m.len() implies version_lt(
                            entry@,
                            #[trigger] m[i],
                        ) by {
                            if i > mid {
                                lemma_version_lt_transitive(entry@, m[mid as int], m[i]);
                            }
                        }
                    }
                    hi = mid;
                },
                KeyOrder::Equal => {
                    proof {
                        assert forall|i: int| 0 <= i < mid implies version_lt(
                            #[trigger] m[i],
                            entry@,
                        ) by {
                            assert(version_lt(m[i], m[mid as int]));
                        }
                        assert forall|i: int| mid < i < m.len() implies version_lt(
                            entry@,
                            #[trigger] m[i],
                        ) by {
                            assert(version_lt(m[mid as int], m[i]));
                        }
                        lemma_upserted_at(m, entry@, mid as int);
                    }
                    self.entries.set(mid, entry);
                    assert(self@ =~= m.update(mid as int, entry@));
                    return ;
                },
            }
        }
        proof {
            if lo < m.len() {
                lemma_version_lt_excludes(entry@, m[lo as int]);
            }
            lemma_upserted_at(m, entry@, lo as int);
        }
        self.entries.insert(lo, entry);
        assert(self@ =~= m.insert(lo as int, entry@));
    }

    /// Put all of these versions in, one after the other.
    pub fn insert_all(&mut self, entries: &Vec<Z1Entry>)
        requires
            old(self).wf(),
        ensures
            final(self).wf(),
            final(self)@ == all_upserted(old(self)@, entry_models(entries@)),
    {
        let ghost all = entry_models(entries@);
        let mut i: usize = 0;
        assert(all.take(0) =~= Seq::<EntryModel>::empty());
        while i < entries.len()
            invariant
                i <= entries@.len(),
                all == entry_models(entries@),
                self.wf(),
                self@ == all_upserted(old(self)@, all.take(i as int)),
            decreases entries@.len() - i,
        {
            let c = entries[i].clone();
            self.insert(c);
            proof {
                assert(all.take(i + 1).drop_last() =~= all.take(i as int));
                assert(all.take(i + 1).last() == entries@[i as int]@);
            }
            i = i + 1;
        }
        assert(all.take(i as int) =~= all);
    }

    /// The versions, in order.
    pub fn to_vec(&self) -> (r: Vec<Z1Entry>)
        ensures
            entry_models(r@) == self@,
    {
        let mut out: Vec<Z1Entry> = Vec::new();
        let mut i: usize = 0;
        assert(self@.take(0) =~= entry_models(out@));
        while i < self.entries.len()
            invariant
                i <= self.entries@.len(),
                entry_models(out@) == self@.take(i as int),
            decreases self.entries@.len() - i,
        {
            let c = self.entries[i].clone();
            let ghost out0 = out@;
            out.push(c);
            proof {
                lemma_entry_models_push(out0, c);
                assert(self@.take(i + 1) =~= self@.take(i as int).push(c@));
            }
            i = i + 1;
        }
        assert(self@.take(i as int) =~= self@);
        out
    }
}

} // verus!
