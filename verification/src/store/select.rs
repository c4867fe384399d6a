//! Choosing versions: by key, by key range, by visibility, by recency.

use crate::bytes::{
    bytes_eq, bytes_lt, compare_bytes, copy_bytes, lemma_lex_asymmetric, lemma_lex_irreflexive,
    lemma_lex_transitive, lex_lt, KeyOrder,
};
use crate::mvcc::visibility::SnapshotModel;
use crate::store::types::{
    entry_models, lemma_entry_models_push, visible_at, EntryModel, Z1Entry,
};
use crate::TxnId;
use std::collections::{HashMap, HashSet};
use vstd::prelude::*;

verus! {

/// Which keys: one of them, or those from `start` on and before `end`.
pub enum Span {
    Key(Seq<u8>),
    Range(Seq<u8>, Option<Seq<u8>>),
}

pub open spec fn in_range(key: Seq<u8>, start: Seq<u8>, end: Option<Seq<u8>>) -> bool {
    &&& !lex_lt(key, start)
    &&& end matches Some(e) ==> lex_lt(key, e)
}

pub open spec fn in_span(span: Span, key: Seq<u8>) -> bool {
    match span {
        Span::Key(k) => key == k,
        Span::Range(start, end) => in_range(key, start, end),
    }
}

/// What a snapshot sees.
pub struct Sight {
    pub snapshot: TxnId,
    pub commits: Map<TxnId, u64>,
    pub active: Set<TxnId>,
}

pub open spec fn sight_of(s: SnapshotModel) -> Sight {
    Sight { snapshot: s.snapshot_id, commits: s.commits, active: s.active }
}

/// Which versions: those of a column family with keys in a span, and, with a
/// sight, only those it sees.
pub struct Pick {
    pub cf: u16,
    pub span: Span,
    pub sight: Option<Sight>,
}

impl Pick {
    pub open spec fn admits(self, e: EntryModel) -> bool {
        &&& e.key.cf == self.cf
        &&& in_span(self.span, e.key.key)
        &&& self.sight matches Some(s) ==> visible_at(e.txn_id, s.snapshot, s.commits, s.active)
    }
}

/// The versions that a pick admits, in order.
pub open spec fn kept(s: Seq<EntryModel>, p: Pick) -> Seq<EntryModel>
    decreases s.len(),
{
    if s.len() == 0 {
        Seq::empty()
    } else if p.admits(s.last()) {
        kept(s.drop_last(), p).push(s.last())
    } else {
        kept(s.drop_last(), p)
    }
}

/// The newest version; of several written by the same transaction the first.
pub open spec fn first_newest(s: Seq<EntryModel>) -> Option<EntryModel>
    decreases s.len(),
{
    if s.len() == 0 {
        None
    } else {
        match first_newest(s.drop_last()) {
            Some(b) => if s.last().txn_id > b.txn_id {
                Some(s.last())
            } else {
                Some(b)
            },
            None => Some(s.last()),
        }
    }
}

/// The newest version; of several written by the same transaction the last.
pub open spec fn last_newest(s: Seq<EntryModel>) -> Option<EntryModel>
    decreases s.len(),
{
    if s.len() == 0 {
        None
    } else {
        match last_newest(s.drop_last()) {
            Some(b) => if s.last().txn_id >= b.txn_id {
                Some(s.last())
            } else {
                Some(b)
            },
            None => Some(s.last()),
        }
    }
}

/// The versions of a key, in order.
pub open spec fn of_key(s: Seq<EntryModel>, key: Seq<u8>) -> Seq<EntryModel>
    decreases s.len(),
{
    if s.len() == 0 {
        Seq::empty()
    } else if s.last().key.key == key {
        of_key(s.drop_last(), key).push(s.last())
    } else {
        of_key(s.drop_last(), key)
    }
}

/// Some version in `s` has this key.
pub open spec fn has_key(s: Seq<EntryModel>, key: Seq<u8>) -> bool {
    exists|i: int| 0 <= i < s.len() && (#[trigger] s[i]).key.key == key
}

/// `list` holds, by ascending key, every key of `s` with its newest version,
/// the first of several written by the same transaction.
pub open spec fn newest_listed(s: Seq<EntryModel>, list: Seq<(Seq<u8>, EntryModel)>) -> bool {
    &&& forall|i: int, j: int|
        0 <= i < j < list.len() ==> lex_lt((#[trigger] list[i]).0, (#[trigger] list[j]).0)
    &&& forall|i: int|
        0 <= i < list.len() ==> has_key(s, (#[trigger] list[i]).0) && first_newest(
            of_key(s, list[i].0),
        ) == Some(list[i].1)
    &&& forall|k: Seq<u8>|
        #[trigger] has_key(s, k) ==> exists|i: int| 0 <= i < list.len() && (#[trigger] list[i]).0
            == k
}

pub proof fn lemma_kept_concat(a: Seq<EntryModel>, b: Seq<EntryModel>, p: Pick)
    ensures
        kept(a + b, p) == kept(a, p) + kept(b, p),
    decreases b.len(),
{
    if b.len() == 0 {
        assert(a + b =~= a);
        assert(kept(a, p) + kept(b, p) =~= kept(a, p));
    } else {
        assert((a + b).drop_last() =~= a + b.drop_last());
        lemma_kept_concat(a, b.drop_last(), p);
        assert(kept(a + b, p) =~= kept(a, p) + kept(b, p));
    }
}

pub proof fn lemma_kept_push(s: Seq<EntryModel>, e: EntryModel, p: Pick)
    ensures
        kept(s.push(e), p) == (if p.admits(e) {
            kept(s, p).push(e)
        } else {
            kept(s, p)
        }),
{
    assert(s.push(e).drop_last() =~= s);
}

/// A pick keeps exactly the versions it admits.
pub proof fn lemma_kept_members(s: Seq<EntryModel>, p: Pick, e: EntryModel)
    ensures
        kept(s, p).contains(e) <==> s.contains(e) && p.admits(e),
    decreases s.len(),
{
    if s.len() > 0 {
        let rest = s.drop_last();
        lemma_kept_members(rest, p, e);
        assert(s =~= rest.push(s.last()));
        lemma_push_members(rest, s.last(), e);
        if p.admits(s.last()) {
            lemma_push_members(kept(rest, p), s.last(), e);
        }
    }
}

pub proof fn lemma_push_members(s: Seq<EntryModel>, x: EntryModel, e: EntryModel)
    ensures
        s.push(x).contains(e) <==> s.contains(e) || e == x,
{
    if s.contains(e) {
        let i = choose|i: int| 0 <= i < s.len() && s[i] == e;
        assert(s.push(x)[i] == e);
    }
    if e == x {
        assert(s.push(x)[s.len() as int] == e);
    }
    if s.push(x).contains(e) {
        let i = choose|i: int| 0 <= i < s.push(x).len() && s.push(x)[i] == e;
        if i < s.len() {
            assert(s[i] == e);
        }
    }
}

/// The newest version is one of the versions, and none is newer.
pub proof fn lemma_first_newest(s: Seq<EntryModel>)
    ensures
        first_newest(s) is Some <==> s.len() > 0,
        first_newest(s) matches Some(b) ==> s.contains(b) && forall|i: int|
            0 <= i < s.len() ==> (#[trigger] s[i]).txn_id <= b.txn_id,
    decreases s.len(),
{
    if s.len() > 0 {
        let rest = s.drop_last();
        lemma_first_newest(rest);
        assert(s =~= rest.push(s.last()));
        let b = first_newest(s)->0;
        lemma_push_members(rest, s.last(), b);
        assert forall|i: int| 0 <= i < s.len() implies (#[trigger] s[i]).txn_id <= b.txn_id by {
            if i < rest.len() {
                assert(s[i] == rest[i]);
            }
        }
    }
}

/// The newest version is one of the versions, and none is newer.
pub proof fn lemma_last_newest(s: Seq<EntryModel>)
    ensures
        last_newest(s) is Some <==> s.len() > 0,
        last_newest(s) matches Some(b) ==> s.contains(b) && forall|i: int|
            0 <= i < s.len() ==> (#[trigger] s[i]).txn_id <= b.txn_id,
    decreases s.len(),
{
    if s.len() > 0 {
        let rest = s.drop_last();
        lemma_last_newest(rest);
        assert(s =~= rest.push(s.last()));
        let b = last_newest(s)->0;
        lemma_push_members(rest, s.last(), b);
        assert forall|i: int| 0 <= i < s.len() implies (#[trigger] s[i]).txn_id <= b.txn_id by {
            if i < rest.len() {
                assert(s[i] == rest[i]);
            }
        }
    }
}

pub open spec fn end_model(end: Option<&[u8]>) -> Option<Seq<u8>> {
    match end {
        Some(e) => Some(e@),
        None => None,
    }
}

/// Whether a key lies in `[start, end)`; no end means unbounded.
pub fn key_in_range(key: &[u8], start: &[u8], end: Option<&[u8]>) -> (r: bool)
    ensures
        r == in_range(key@, start@, end_model(end)),
        r <==> (key@ == start@ || lex_lt(start@, key@)) && (end matches Some(e) ==> lex_lt(
            key@,
            e@,
        )),
{
    proof {
        crate::store::laws::law_range_is_half_open(
            key@,
            start@,
            match end {
                Some(e) => e@,
                None => start@,
            },
        );
    }
    if bytes_lt(key, start) {
        return false;
    }
    match end {
        Some(e) => bytes_lt(key, e),
        None => true,
    }
}

/// Append the versions of one key that a snapshot sees.
pub fn collect_key(
    out: &mut Vec<Z1Entry>,
    from: &Vec<Z1Entry>,
    cf: u16,
    key: &[u8],
    snapshot_txn: TxnId,
    commit_ts_by_txn: &HashMap<TxnId, u64>,
    active_txns: &HashSet<TxnId>,
)
    ensures
        entry_models(final(out)@) == entry_models(old(out)@) + kept(
            entry_models(from@),
            Pick {
                cf,
                span: Span::Key(key@),
                sight: Some(
                    Sight {
                        snapshot: snapshot_txn,
                        commits: commit_ts_by_txn@,
                        active: active_txns@,
                    },
                ),
            },
        ),
{
    let ghost p = Pick {
        cf,
        span: Span::Key(key@),
        sight: Some(
            Sight { snapshot: snapshot_txn, commits: commit_ts_by_txn@, active: active_txns@ },
        ),
    };
    let ghost before = entry_models(out@);
    let ghost all = entry_models(from@);
    let mut i: usize = 0;
    assert(all.take(0) =~= Seq::<EntryModel>::empty());
    assert(before + kept(all.take(0), p) =~= before);
    while i < from.len()
        invariant
            i <= from@.len(),
            all == entry_models(from@),
            p == (Pick {
                cf,
                span: Span::Key(key@),
                sight: Some(
                    Sight {
                        snapshot: snapshot_txn,
                        commits: commit_ts_by_txn@,
                        active: active_txns@,
                    },
                ),
            }),
            entry_models(out@) == before + kept(all.take(i as int), p),
        decreases from@.len() - i,
    {
        let e = &from[i];
        let ghost out0 = out@;
        proof {
            assert(all.take(i + 1) =~= all.take(i as int).push(e@));
            lemma_kept_push(all.take(i as int), e@, p);
        }
        if e.key.cf == cf && bytes_eq(e.key.key.as_slice(), key) && e.is_visible_at_commit(
            snapshot_txn,
            commit_ts_by_txn,
            active_txns,
        ) {
            let c = e.clone();
            out.push(c);
            proof {
                lemma_entry_models_push(out0, c);
                assert(p.admits(e@));
                assert(entry_models(out@) =~= before + kept(all.take(i + 1), p));
            }
        } else {
            assert(!p.admits(e@));
        }
        i = i + 1;
    }
    assert(all.take(i as int) =~= all);
}

/// Append the versions of a key range that a snapshot sees.
pub fn collect_range(
    out: &mut Vec<Z1Entry>,
    from: &Vec<Z1Entry>,
    cf: u16,
    start: &[u8],
    end: Option<&[u8]>,
    snapshot_txn: TxnId,
    commit_ts_by_txn: &HashMap<TxnId, u64>,
    active_txns: &HashSet<TxnId>,
)
    ensures
        entry_models(final(out)@) == entry_models(old(out)@) + kept(
            entry_models(from@),
            Pick {
                cf,
                span: Span::Range(start@, end_model(end)),
                sight: Some(
                    Sight {
                        snapshot: snapshot_txn,
                        commits: commit_ts_by_txn@,
                        active: active_txns@,
                    },
                ),
            },
        ),
{
    let ghost p = Pick {
        cf,
        span: Span::Range(start@, end_model(end)),
        sight: Some(
            Sight { snapshot: snapshot_txn, commits: commit_ts_by_txn@, active: active_txns@ },
        ),
    };
    let ghost before = entry_models(out@);
    let ghost all = entry_models(from@);
    let mut i: usize = 0;
    assert(all.take(0) =~= Seq::<EntryModel>::empty());
    assert(before + kept(all.take(0), p) =~= before);
    while i < from.len()
        invariant
            i <= from@.len(),
            all == entry_models(from@),
            p == (Pick {
                cf,
                span: Span::Range(start@, end_model(end)),
                sight: Some(
                    Sight {
                        snapshot: snapshot_txn,
                        commits: commit_ts_by_txn@,
                        active: active_txns@,
                    },
                ),
            }),
            entry_models(out@) == before + kept(all.take(i as int), p),
        decreases from@.len() - i,
    {
        let e = &from[i];
        let ghost out0 = out@;
        proof {
            assert(all.take(i + 1) =~= all.take(i as int).push(e@));
            lemma_kept_push(all.take(i as int), e@, p);
        }
        if e.key.cf == cf && key_in_range(e.key.key.as_slice(), start, end)
            && e.is_visible_at_commit(snapshot_txn, commit_ts_by_txn, active_txns) {
            let c = e.clone();
            out.push(c);
            proof {
                lemma_entry_models_push(out0, c);
                assert(p.admits(e@));
                assert(entry_models(out@) =~= before + kept(all.take(i + 1), p));
            }
        } else {
            assert(!p.admits(e@));
        }
        i = i + 1;
    }
    assert(all.take(i as int) =~= all);
}

/// The index of the newest version; of several written by the same
/// transaction the first.
pub fn first_newest_index(s: &Vec<Z1Entry>) -> (r: Option<usize>)
    ensures
        match r {
            Some(i) => i < s@.len() && first_newest(entry_models(s@)) == Some(s@[i as int]@),
            None => s@.len() == 0,
        },
{
    if s.len() == 0 {
        return None;
    }
    let ghost all = entry_models(s@);
    let mut best: usize = 0;
    let mut i: usize = 1;
    assert(all.take(1).drop_last() =~= Seq::<EntryModel>::empty());
    assert(first_newest(all.take(1).drop_last()) is None);
    while i < s.len()
        invariant
            best < i <= s@.len(),
            all == entry_models(s@),
            first_newest(all.take(i as int)) == Some(s@[best as int]@),
        decreases s@.len() - i,
    {
        assert(all.take(i + 1).drop_last() =~= all.take(i as int));
        assert(all.take(i + 1).last() == s@[i as int]@);
        if s[i].txn_id > s[best].txn_id {
            best = i;
        }
        i = i + 1;
    }
    assert(all.take(i as int) =~= all);
    Some(best)
}

/// The index of the newest version; of several written by the same
/// transaction the last.
pub fn last_newest_index(s: &Vec<Z1Entry>) -> (r: Option<usize>)
    ensures
        match r {
            Some(i) => i < s@.len() && last_newest(entry_models(s@)) == Some(s@[i as int]@),
            None => s@.len() == 0,
        },
{
    if s.len() == 0 {
        return None;
    }
    let ghost all = entry_models(s@);
    let mut best: usize = 0;
    let mut i: usize = 1;
    assert(all.take(1).drop_last() =~= Seq::<EntryModel>::empty());
    assert(last_newest(all.take(1).drop_last()) is None);
    while i < s.len()
        invariant
            best < i <= s@.len(),
            all == entry_models(s@),
            last_newest(all.take(i as int)) == Some(s@[best as int]@),
        decreases s@.len() - i,
    {
        assert(all.take(i + 1).drop_last() =~= all.take(i as int));
        assert(all.take(i + 1).last() == s@[i as int]@);
        if s[i].txn_id >= s[best].txn_id {
            best = i;
        }
        i = i + 1;
    }
    assert(all.take(i as int) =~= all);
    Some(best)
}

/// A list of keys with their versions, as a mathematical value.
pub open spec fn list_model(list: Seq<(Vec<u8>, Z1Entry)>) -> Seq<(Seq<u8>, EntryModel)> {
    list.map_values(|p: (Vec<u8>, Z1Entry)| (p.0@, p.1@))
}

/// Where `key` stands in an ascending list, or would be inserted.
fn find_key(list: &Vec<(Vec<u8>, Z1Entry)>, key: &[u8]) -> (r: (bool, usize))
    requires
        forall|i: int, j: int|
            0 <= i < j < list@.len() ==> lex_lt(
                (#[trigger] list_model(list@)[i]).0,
                (#[trigger] list_model(list@)[j]).0,
            ),
    ensures
        r.1 <= list@.len(),
        forall|i: int| 0 <= i < r.1 ==> lex_lt((#[trigger] list_model(list@)[i]).0, key@),
        r.0 ==> r.1 < list@.len() && list_model(list@)[r.1 as int].0 == key@,
        !r.0 ==> forall|i: int|
            r.1 <= i < list@.len() ==> lex_lt(key@, (#[trigger] list_model(list@)[i]).0),
{
    let mut lo: usize = 0;
    let mut hi: usize = list.len();
    let ghost m = list_model(list@);
    while lo < hi
        invariant
            lo <= hi <= list@.len(),
            m == list_model(list@),
            m.len() == list@.len(),
            forall|i: int, j: int|
                0 <= i < j < m.len() ==> lex_lt((#[trigger] m[i]).0, (#[trigger] m[j]).0),
            forall|i: int| 0 <= i < lo ==> lex_lt((#[trigger] m[i]).0, key@),
            forall|i: int| hi <= i < m.len() ==> lex_lt(key@, (#[trigger] m[i]).0),
        decreases hi - lo,
    {
        let mid: usize = lo + (hi - lo) / 2;
        assert(m[mid as int].0 == list@[mid as int].0@);
        match compare_bytes(list[mid].0.as_slice(), key) {
            KeyOrder::Less => {
                proof {
                    assert forall|i: int| 0 <= i < mid + 1 implies lex_lt(
                        (#[trigger] m[i]).0,
                        key@,
                    ) by {
                        if i < mid {
                            lemma_lex_transitive(m[i].0, m[mid as int].0, key@);
                        }
                    }
                }
                lo = mid + 1;
            },
            KeyOrder::Greater => {
                proof {
                    assert forall|i: int| mid <= i < m.len() implies lex_lt(
                        key@,
                        (#[trigger] m[i]).0,
                    ) by {
                        if i > mid {
                            lemma_lex_transitive(key@, m[mid as int].0, m[i].0);
                        }
                    }
                }
                hi = mid;
            },
            KeyOrder::Equal => {
                return (true, mid);
            },
        }
    }
    (false, lo)
}

proof fn lemma_of_key_push(s: Seq<EntryModel>, e: EntryModel, k: Seq<u8>)
    ensures
        of_key(s.push(e), k) == (if e.key.key == k {
            of_key(s, k).push(e)
        } else {
            of_key(s, k)
        }),
        has_key(s.push(e), k) == (has_key(s, k) || e.key.key == k),
{
    assert(s.push(e).drop_last() =~= s);
    if has_key(s, k) {
        let i = choose|i: int| 0 <= i < s.len() && (#[trigger] s[i]).key.key == k;
        assert(s.push(e)[i].key.key == k);
    }
    if e.key.key == k {
        assert(s.push(e)[s.len() as int].key.key == k);
    }
    if has_key(s.push(e), k) && e.key.key != k {
        let i = choose|i: int| 0 <= i < s.push(e).len() && (#[trigger] s.push(e)[i]).key.key == k;
        assert(i < s.len());
        assert(s[i].key.key == k);
    }
}

/// Versions of a key exist exactly where the key occurs.
pub proof fn lemma_of_key_some(s: Seq<EntryModel>, k: Seq<u8>)
    ensures
        of_key(s, k).len() > 0 <==> has_key(s, k),
    decreases s.len(),
{
    if s.len() > 0 {
        let rest = s.drop_last();
        lemma_of_key_some(rest, k);
        assert(s =~= rest.push(s.last()));
        lemma_of_key_push(rest, s.last(), k);
    }
}

/// One more version: where its key is not listed yet.
proof fn lemma_listed_insert(
    s: Seq<EntryModel>,
    list: Seq<(Seq<u8>, EntryModel)>,
    e: EntryModel,
    p: int,
)
    requires
        newest_listed(s, list),
        0 <= p <= list.len(),
        forall|i: int| 0 <= i < p ==> lex_lt((#[trigger] list[i]).0, e.key.key),
        forall|i: int| p <= i < list.len() ==> lex_lt(e.key.key, (#[trigger] list[i]).0),
    ensures
        newest_listed(s.push(e), list.insert(p, (e.key.key, e))),
{
    let k = e.key.key;
    let out = list.insert(p, (k, e));
    let s2 = s.push(e);
    assert(!has_key(s, k)) by {
        if has_key(s, k) {
            let i = choose|i: int| 0 <= i < list.len() && (#[trigger] list[i]).0 == k;
            lemma_lex_irreflexive(k);
        }
    }
    lemma_of_key_some(s, k);
    assert(of_key(s, k) =~= Seq::<EntryModel>::empty());
    lemma_of_key_push(s, e, k);
    assert(of_key(s2, k).drop_last() =~= Seq::<EntryModel>::empty());
    assert(first_newest(of_key(s2, k).drop_last()) is None);
    assert forall|i: int| 0 <= i < out.len() implies has_key(s2, (#[trigger] out[i]).0)
        && first_newest(of_key(s2, out[i].0)) == Some(out[i].1) by {
        if i < p {
            assert(out[i] == list[i]);
            lemma_lex_asymmetric(list[i].0, k);
            lemma_of_key_push(s, e, list[i].0);
        } else if i > p {
            assert(out[i] == list[i - 1]);
            lemma_lex_asymmetric(k, list[i - 1].0);
            lemma_of_key_push(s, e, list[i - 1].0);
        }
    }
    assert forall|i: int, j: int| 0 <= i < j < out.len() implies lex_lt(
        (#[trigger] out[i]).0,
        (#[trigger] out[j]).0,
    ) by {
        let a = if i < p {
            list[i]
        } else {
            list[i - 1]
        };
        let b = if j < p {
            list[j]
        } else {
            list[j - 1]
        };
        if i != p {
            assert(out[i] == a);
        }
        if j != p {
            assert(out[j] == b);
        }
    }
    assert forall|q: Seq<u8>| #[trigger] has_key(s2, q) implies exists|i: int|
        0 <= i < out.len() && (#[trigger] out[i]).0 == q by {
        lemma_of_key_push(s, e, q);
        if q == k {
            assert(out[p].0 == q);
        } else {
            let i = choose|i: int| 0 <= i < list.len() && (#[trigger] list[i]).0 == q;
            if i < p {
                assert(out[i] == list[i]);
            } else {
                assert(out[i + 1] == list[i]);
            }
        }
    }
}

/// One more version: where its key is listed at `p`.
proof fn lemma_listed_update(
    s: Seq<EntryModel>,
    list: Seq<(Seq<u8>, EntryModel)>,
    e: EntryModel,
    p: int,
)
    requires
        newest_listed(s, list),
        0 <= p < list.len(),
        list[p].0 == e.key.key,
    ensures
        e.txn_id > list[p].1.txn_id ==> newest_listed(
            s.push(e),
            list.update(p, (e.key.key, e)),
        ),
        e.txn_id <= list[p].1.txn_id ==> newest_listed(s.push(e), list),
{
    let k = e.key.key;
    let s2 = s.push(e);
    let out = if e.txn_id > list[p].1.txn_id {
        list.update(p, (k, e))
    } else {
        list
    };
    lemma_of_key_push(s, e, k);
    assert(of_key(s2, k).drop_last() =~= of_key(s, k));
    assert(has_key(s, list[p].0));
    assert forall|i: int| 0 <= i < out.len() implies has_key(s2, (#[trigger] out[i]).0)
        && first_newest(of_key(s2, out[i].0)) == Some(out[i].1) by {
        assert(has_key(s, list[i].0));
        lemma_of_key_push(s, e, list[i].0);
        if i != p {
            assert(out[i] == list[i]);
            if i < p {
                lemma_lex_asymmetric(list[i].0, list[p].0);
            } else {
                lemma_lex_asymmetric(list[p].0, list[i].0);
            }
        }
    }
    assert forall|i: int, j: int| 0 <= i < j < out.len() implies lex_lt(
        (#[trigger] out[i]).0,
        (#[trigger] out[j]).0,
    ) by {
        assert(lex_lt(list[i].0, list[j].0));
    }
    assert forall|q: Seq<u8>| #[trigger] has_key(s2, q) implies exists|i: int|
        0 <= i < out.len() && (#[trigger] out[i]).0 == q by {
        lemma_of_key_push(s, e, q);
        if q == k {
            assert(out[p].0 == q);
        } else {
            let i = choose|i: int| 0 <= i < list.len() && (#[trigger] list[i]).0 == q;
            assert(out[i].0 == q);
        }
    }
    assert(newest_listed(s2, out));
}

/// The newest version of every key, by ascending key; of several versions of
/// one transaction the first counts.
pub fn newest_per_key(entries: &Vec<Z1Entry>) -> (r: Vec<(Vec<u8>, Z1Entry)>)
    ensures
        newest_listed(entry_models(entries@), list_model(r@)),
{
    let mut out: Vec<(Vec<u8>, Z1Entry)> = Vec::new();
    let ghost all = entry_models(entries@);
    let mut i: usize = 0;
    assert(all.take(0) =~= Seq::<EntryModel>::empty());
    assert(newest_listed(all.take(0), list_model(out@)));
    while i < entries.len()
        invariant
            i <= entries@.len(),
            all == entry_models(entries@),
            newest_listed(all.take(i as int), list_model(out@)),
        decreases entries@.len() - i,
    {
        let e = &entries[i];
        let ghost before = list_model(out@);
        let ghost seen = all.take(i as int);
        assert(before.len() == out@.len());
        proof {
            assert(all.take(i + 1) =~= seen.push(e@));
        }
        let (found, p) = find_key(&out, e.key.key.as_slice());
        if found {
            proof {
                lemma_listed_update(seen, before, e@, p as int);
            }
            if e.txn_id > out[p].1.txn_id {
                let c = e.clone();
                out.set(p, (copy_bytes(e.key.key.as_slice()), c));
                assert(list_model(out@) =~= before.update(p as int, (e@.key.key, e@)));
            }
        } else {
            proof {
                lemma_listed_insert(seen, before, e@, p as int);
            }
            let c = e.clone();
            out.insert(p, (copy_bytes(e.key.key.as_slice()), c));
            assert(list_model(out@) =~= before.insert(p as int, (e@.key.key, e@)));
        }
        i = i + 1;
    }
    assert(all.take(i as int) =~= all);
    out
}

} // verus!
