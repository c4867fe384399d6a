//! What holds of several runs of GC.

use crate::bytes::{lemma_lex_asymmetric, lemma_lex_irreflexive, lemma_lex_transitive, lex_lt};
use crate::sort::{stably_sorted, Ranked};
use crate::store::gc::{
    gc_keeps, gc_result, gc_select, lemma_gc_select_contains, lemma_same_members, same_entries,
};
use crate::store::types::{PatchEntry, PatchModel};
use crate::TxnId;
use vstd::prelude::*;

verus! {

/// No transaction has written a key twice.
pub open spec fn versions_distinct(s: Seq<PatchEntry>) -> bool {
    forall|i: int, j: int|
        0 <= i < s.len() && 0 <= j < s.len() && i != j ==> !((#[trigger] s[i]).key@ == (
        #[trigger] s[j]).key@ && s[i].txn_id == s[j].txn_id)
}

/// `a` stands before `b`: by key, then by transaction.
spec fn stands_before(a: PatchModel, b: PatchModel) -> bool {
    lex_lt(a.key, b.key) || (a.key == b.key && a.txn_id < b.txn_id)
}

spec fn strict(s: Seq<PatchEntry>) -> bool {
    forall|i: int, j: int|
        0 <= i < j < s.len() ==> stands_before((#[trigger] s[i])@, (#[trigger] s[j])@)
}

spec fn has(s: Seq<PatchEntry>, p: PatchModel) -> bool {
    exists|i: int| 0 <= i < s.len() && (#[trigger] s[i])@ == p
}

/// GC at the watermark keeps `p`.
spec fn survives(s: Seq<PatchEntry>, watermark: TxnId, p: PatchModel) -> bool {
    &&& has(s, p)
    &&& p.txn_id >= watermark || forall|q: PatchModel| #[trigger]
        has(s, q) && q.key == p.key && p.txn_id < q.txn_id ==> q.txn_id >= watermark
}

proof fn lemma_not_before(a: PatchModel, b: PatchModel)
    requires
        stands_before(a, b),
    ensures
        !stands_before(b, a),
        a != b,
{
    lemma_lex_irreflexive(a.key);
    if lex_lt(a.key, b.key) {
        lemma_lex_asymmetric(a.key, b.key);
    }
}

/// Sorting makes distinct versions stand in strict order.
proof fn lemma_sorted_is_strict(s: Seq<PatchEntry>, sorted: Seq<PatchEntry>)
    requires
        stably_sorted(s, sorted),
        versions_distinct(s),
    ensures
        strict(sorted),
        forall|p: PatchModel| has(sorted, p) == has(s, p),
{
    assert(s.no_duplicates());
    s.lemma_multiset_has_no_duplicates();
    sorted.lemma_multiset_has_no_duplicates_conv();
    assert forall|i: int, j: int| 0 <= i < j < sorted.len() implies stands_before(
        (#[trigger] sorted[i])@,
        (#[trigger] sorted[j])@,
    ) by {
        assert(sorted[i].ranks_le(sorted[j]));
        if !stands_before(sorted[i]@, sorted[j]@) {
            assert(sorted.contains(sorted[i]) && sorted.contains(sorted[j]));
            lemma_same_members(s, sorted, sorted[i]);
            lemma_same_members(s, sorted, sorted[j]);
            let a = choose|a: int| 0 <= a < s.len() && s[a] == sorted[i];
            let b = choose|b: int| 0 <= b < s.len() && s[b] == sorted[j];
            assert(sorted[i] != sorted[j]);
            assert(a != b);
            assert(false);
        }
    }
    assert forall|p: PatchModel| has(sorted, p) == has(s, p) by {
        if has(sorted, p) {
            let i = choose|i: int| 0 <= i < sorted.len() && (#[trigger] sorted[i])@ == p;
            assert(sorted.contains(sorted[i]));
            lemma_same_members(s, sorted, sorted[i]);
            let a = choose|a: int| 0 <= a < s.len() && s[a] == sorted[i];
            assert(s[a]@ == p);
        }
        if has(s, p) {
            let i = choose|i: int| 0 <= i < s.len() && (#[trigger] s[i])@ == p;
            assert(s.contains(s[i]));
            lemma_same_members(s, sorted, s[i]);
            let a = choose|a: int| 0 <= a < sorted.len() && sorted[a] == s[i];
            assert(sorted[a]@ == p);
        }
    }
}

/// `x` stands at one of the first `n` places, and GC keeps that place.
spec fn from_kept(s: Seq<PatchEntry>, watermark: TxnId, n: int, x: PatchEntry) -> bool {
    exists|j: int| 0 <= j < n && #[trigger] s[j] == x && gc_keeps(s, watermark, j)
}

/// What GC keeps comes from kept places, in strict order.
proof fn lemma_select_order(s: Seq<PatchEntry>, watermark: TxnId, n: int)
    requires
        strict(s),
        0 <= n <= s.len(),
    ensures
        strict(gc_select(s, watermark, n)),
        forall|k: int|
            0 <= k < gc_select(s, watermark, n).len() ==> from_kept(
                s,
                watermark,
                n,
                #[trigger] gc_select(s, watermark, n)[k],
            ),
    decreases n,
{
    if n > 0 {
        lemma_select_order(s, watermark, n - 1);
        let before = gc_select(s, watermark, n - 1);
        let now = gc_select(s, watermark, n);
        assert forall|k: int| 0 <= k < now.len() implies from_kept(
            s,
            watermark,
            n,
            #[trigger] now[k],
        ) by {
            if k < before.len() {
                assert(from_kept(s, watermark, n - 1, before[k]));
                let j = choose|j: int|
                    0 <= j < n - 1 && #[trigger] s[j] == before[k] && gc_keeps(s, watermark, j);
                assert(s[j] == now[k]);
            } else {
                assert(s[n - 1] == now[k]);
            }
        }
        assert forall|a: int, b: int| 0 <= a < b < now.len() implies stands_before(
            (#[trigger] now[a])@,
            (#[trigger] now[b])@,
        ) by {
            if b < before.len() {
                assert(before[a] == now[a] && before[b] == now[b]);
            } else {
                assert(from_kept(s, watermark, n - 1, before[a]));
                let j = choose|j: int|
                    0 <= j < n - 1 && #[trigger] s[j] == before[a] && gc_keeps(s, watermark, j);
                assert(now[a] == s[j] && now[b] == s[n - 1]);
            }
        }
    }
}

/// In strict order, a place is kept if and only if its version survives.
proof fn lemma_keeps_means_survives(s: Seq<PatchEntry>, watermark: TxnId, i: int)
    requires
        strict(s),
        0 <= i < s.len(),
    ensures
        gc_keeps(s, watermark, i) <==> survives(s, watermark, s[i]@),
{
    let p = s[i]@;
    assert(has(s, p));
    if gc_keeps(s, watermark, i) && p.txn_id < watermark {
        assert forall|q: PatchModel| #[trigger]
            has(s, q) && q.key == p.key && p.txn_id < q.txn_id implies q.txn_id >= watermark by {
            let j = choose|j: int| 0 <= j < s.len() && (#[trigger] s[j])@ == q;
            if j < i {
                assert(stands_before(s[j]@, s[i]@));
                lemma_lex_irreflexive(p.key);
            } else if j > i + 1 {
                assert(stands_before(s[i]@, s[i + 1]@));
                assert(stands_before(s[i + 1]@, s[j]@));
                lemma_lex_irreflexive(p.key);
                let k = s[i + 1]@.key;
                if lex_lt(p.key, k) {
                    if lex_lt(k, q.key) {
                        lemma_lex_transitive(p.key, k, q.key);
                    }
                } else if lex_lt(k, q.key) {
                }
            }
        }
    }
    if !gc_keeps(s, watermark, i) {
        assert(stands_before(s[i]@, s[i + 1]@));
        lemma_lex_irreflexive(p.key);
        assert(has(s, s[i + 1]@));
    }
}

/// What GC keeps of versions in strict order are those that survive.
proof fn lemma_select_has(s: Seq<PatchEntry>, watermark: TxnId, p: PatchModel)
    requires
        strict(s),
    ensures
        has(gc_select(s, watermark, s.len() as int), p) <==> survives(s, watermark, p),
{
    let n = s.len() as int;
    let out = gc_select(s, watermark, n);
    lemma_select_order(s, watermark, n);
    if has(out, p) {
        let k = choose|k: int| 0 <= k < out.len() && (#[trigger] out[k])@ == p;
        assert(from_kept(s, watermark, n, out[k]));
        let j = choose|j: int| 0 <= j < n && #[trigger] s[j] == out[k] && gc_keeps(s, watermark, j);
        lemma_keeps_means_survives(s, watermark, j);
    }
    if survives(s, watermark, p) {
        let i = choose|i: int| 0 <= i < s.len() && (#[trigger] s[i])@ == p;
        lemma_keeps_means_survives(s, watermark, i);
        lemma_gc_select_contains(s, watermark, i, n);
        let k = choose|k: int| 0 <= k < out.len() && out[k] == s[i];
        assert(out[k]@ == p);
    }
}

/// Two lists in strict order with the same versions are the same.
proof fn lemma_strict_unique(a: Seq<PatchEntry>, b: Seq<PatchEntry>)
    requires
        strict(a),
        strict(b),
        forall|p: PatchModel| has(a, p) == has(b, p),
    ensures
        same_entries(a, b),
    decreases a.len(),
{
    if a.len() == 0 {
        if b.len() > 0 {
            assert(has(b, b[0]@));
            assert(has(a, b[0]@));
        }
    } else {
        let x = a.last()@;
        assert(a[a.len() - 1]@ == x);
        assert(has(a, x));
        assert(has(b, x));
        let j = choose|j: int| 0 <= j < b.len() && (#[trigger] b[j])@ == x;
        let y = b.last()@;
        assert(b[b.len() - 1]@ == y);
        assert(has(b, y));
        assert(has(a, y));
        let i = choose|i: int| 0 <= i < a.len() && (#[trigger] a[i])@ == y;
        if j < b.len() - 1 && i < a.len() - 1 {
            assert(stands_before(a[i]@, a[a.len() - 1]@));
            assert(stands_before(b[j]@, b[b.len() - 1]@));
            lemma_not_before(y, x);
        }
        assert(x == y);
        let a1 = a.drop_last();
        let b1 = b.drop_last();
        assert forall|p: PatchModel| has(a1, p) == has(b1, p) by {
            lemma_without_last(a, p);
            lemma_without_last(b, p);
        }
        assert(strict(a1)) by {
            assert forall|m: int, n: int| 0 <= m < n < a1.len() implies stands_before(
                (#[trigger] a1[m])@,
                (#[trigger] a1[n])@,
            ) by {
                assert(a1[m] == a[m] && a1[n] == a[n]);
            }
        }
        assert(strict(b1)) by {
            assert forall|m: int, n: int| 0 <= m < n < b1.len() implies stands_before(
                (#[trigger] b1[m])@,
                (#[trigger] b1[n])@,
            ) by {
                assert(b1[m] == b[m] && b1[n] == b[n]);
            }
        }
        lemma_strict_unique(a1, b1);
        assert forall|k: int| 0 <= k < a.len() implies (#[trigger] a[k])@ == b[k]@ by {
            if k < a1.len() {
                assert(a1[k]@ == b1[k]@);
            }
        }
    }
}

proof fn lemma_without_last(a: Seq<PatchEntry>, p: PatchModel)
    requires
        strict(a),
        a.len() > 0,
    ensures
        has(a.drop_last(), p) <==> has(a, p) && p != a.last()@,
{
    let rest = a.drop_last();
    if has(rest, p) {
        let k = choose|k: int| 0 <= k < rest.len() && (#[trigger] rest[k])@ == p;
        assert(a[k]@ == p);
        assert(stands_before(a[k]@, a[a.len() - 1]@));
        lemma_not_before(a[k]@, a.last()@);
    }
    if has(a, p) && p != a.last()@ {
        let k = choose|k: int| 0 <= k < a.len() && (#[trigger] a[k])@ == p;
        assert(rest[k]@ == p);
    }
}

/// What a run of GC returns: the versions that survive, in strict order.
proof fn lemma_gc_result(
    entries: Seq<PatchEntry>,
    watermark: TxnId,
    sorted: Seq<PatchEntry>,
    retained: Seq<PatchEntry>,
)
    requires
        gc_result(entries, watermark, sorted, retained),
        versions_distinct(entries),
    ensures
        strict(retained),
        versions_distinct(retained),
        forall|p: PatchModel| has(retained, p) <==> survives(entries, watermark, p),
{
    let out = gc_select(sorted, watermark, sorted.len() as int);
    lemma_sorted_is_strict(entries, sorted);
    lemma_select_order(sorted, watermark, sorted.len() as int);
    assert(strict(retained)) by {
        assert forall|i: int, j: int| 0 <= i < j < retained.len() implies stands_before(
            (#[trigger] retained[i])@,
            (#[trigger] retained[j])@,
        ) by {
            assert(retained[i]@ == out[i]@ && retained[j]@ == out[j]@);
        }
    }
    assert forall|i: int, j: int| 0 <= i < retained.len() && 0 <= j < retained.len() && i
        != j implies !((#[trigger] retained[i]).key@ == (#[trigger] retained[j]).key@
        && retained[i].txn_id == retained[j].txn_id) by {
        lemma_lex_irreflexive(retained[i].key@);
        if i < j {
            assert(stands_before(retained[i]@, retained[j]@));
        } else {
            assert(stands_before(retained[j]@, retained[i]@));
        }
    }
    assert forall|p: PatchModel| has(retained, p) <==> survives(entries, watermark, p) by {
        lemma_select_has(sorted, watermark, p);
        if has(retained, p) {
            let i = choose|i: int| 0 <= i < retained.len() && (#[trigger] retained[i])@ == p;
            assert(out[i]@ == p);
        }
        if has(out, p) {
            let i = choose|i: int| 0 <= i < out.len() && (#[trigger] out[i])@ == p;
            assert(retained[i]@ == p);
        }
        assert(survives(sorted, watermark, p) == survives(entries, watermark, p)) by {
            assert forall|q: PatchModel| has(sorted, q) == has(entries, q) by {}
        }
    }
}

/// GC composes: a run at `w1` and then one at `w2` keep what a single run at
/// the larger of the two keeps. So a second run at the same watermark, or at a
/// smaller one, reclaims nothing.
pub proof fn law_gc_composes(
    entries: Seq<PatchEntry>,
    w1: TxnId,
    sorted1: Seq<PatchEntry>,
    between: Seq<PatchEntry>,
    w2: TxnId,
    sorted2: Seq<PatchEntry>,
    twice: Seq<PatchEntry>,
    sorted: Seq<PatchEntry>,
    once: Seq<PatchEntry>,
)
    requires
        versions_distinct(entries),
        gc_result(entries, w1, sorted1, between),
        gc_result(between, w2, sorted2, twice),
        gc_result(
            entries,
            if w1 >= w2 {
                w1
            } else {
                w2
            },
            sorted,
            once,
        ),
    ensures
        same_entries(twice, once),
        w2 <= w1 ==> same_entries(twice, between),
{
    let w = if w1 >= w2 {
        w1
    } else {
        w2
    };
    lemma_gc_result(entries, w1, sorted1, between);
    lemma_gc_result(between, w2, sorted2, twice);
    lemma_gc_result(entries, w, sorted, once);
    assert forall|p: PatchModel| has(twice, p) == has(once, p) by {
        if survives(between, w2, p) {
            assert(survives(entries, w1, p));
            assert forall|q: PatchModel| #[trigger]
                has(entries, q) && q.key == p.key && p.txn_id < q.txn_id && p.txn_id < w implies
                q.txn_id >= w by {
                if q.txn_id < w {
                    if q.txn_id >= w1 {
                        assert(survives(entries, w1, q));
                        assert(has(between, q));
                    }
                }
            }
        }
        if survives(entries, w, p) {
            assert(survives(entries, w1, p));
            assert(has(between, p));
            assert forall|q: PatchModel| #[trigger]
                has(between, q) && q.key == p.key && p.txn_id < q.txn_id && p.txn_id < w2 implies
                q.txn_id >= w2 by {
                assert(survives(entries, w1, q));
            }
        }
    }
    lemma_strict_unique(twice, once);
    if w2 <= w1 {
        assert forall|p: PatchModel| has(twice, p) == has(between, p) by {}
        lemma_strict_unique(twice, between);
    }
}

/// What GC keeps does not depend on the order in which it gets the versions.
pub proof fn law_gc_ignores_order(
    a: Seq<PatchEntry>,
    b: Seq<PatchEntry>,
    watermark: TxnId,
    sorted_a: Seq<PatchEntry>,
    sorted_b: Seq<PatchEntry>,
    kept_a: Seq<PatchEntry>,
    kept_b: Seq<PatchEntry>,
)
    requires
        versions_distinct(a),
        a.to_multiset() == b.to_multiset(),
        gc_result(a, watermark, sorted_a, kept_a),
        gc_result(b, watermark, sorted_b, kept_b),
    ensures
        same_entries(kept_a, kept_b),
{
    a.to_multiset_ensures();
    b.to_multiset_ensures();
    assert(a.no_duplicates());
    a.lemma_multiset_has_no_duplicates();
    b.lemma_multiset_has_no_duplicates_conv();
    assert forall|e: PatchEntry| a.contains(e) == b.contains(e) by {
        assert(a.contains(e) == (a.to_multiset().count(e) > 0));
        assert(b.contains(e) == (b.to_multiset().count(e) > 0));
    }
    assert forall|i: int, j: int| 0 <= i < b.len() && 0 <= j < b.len() && i != j implies !((
    #[trigger] b[i]).key@ == (#[trigger] b[j]).key@ && b[i].txn_id == b[j].txn_id) by {
        assert(b.contains(b[i]) && b.contains(b[j]));
        let m = choose|m: int| 0 <= m < a.len() && a[m] == b[i];
        let n = choose|n: int| 0 <= n < a.len() && a[n] == b[j];
        assert(b[i] != b[j]);
        assert(m != n);
    }
    assert forall|p: PatchModel| has(a, p) == has(b, p) by {
        if has(a, p) {
            let i = choose|i: int| 0 <= i < a.len() && (#[trigger] a[i])@ == p;
            assert(a.contains(a[i]));
            let j = choose|j: int| 0 <= j < b.len() && b[j] == a[i];
            assert(b[j]@ == p);
        }
        if has(b, p) {
            let i = choose|i: int| 0 <= i < b.len() && (#[trigger] b[i])@ == p;
            assert(b.contains(b[i]));
            let j = choose|j: int| 0 <= j < a.len() && a[j] == b[i];
            assert(a[j]@ == p);
        }
    }
    lemma_gc_result(a, watermark, sorted_a, kept_a);
    lemma_gc_result(b, watermark, sorted_b, kept_b);
    assert forall|p: PatchModel| has(kept_a, p) == has(kept_b, p) by {
        assert(survives(a, watermark, p) == survives(b, watermark, p)) by {
            assert forall|q: PatchModel| has(a, q) == has(b, q) by {}
        }
    }
    lemma_strict_unique(kept_a, kept_b);
}

/// What GC retains of committed versions, exactly: of each key all versions
/// from the watermark on, and of those below it the newest one alone.
pub proof fn law_gc_entries_is_exact(
    entries: Seq<PatchEntry>,
    watermark: TxnId,
    sorted: Seq<PatchEntry>,
    retained: Seq<PatchEntry>,
    e: PatchEntry,
)
    requires
        versions_distinct(entries),
        gc_result(entries, watermark, sorted, retained),
        entries.contains(e),
    ensures
        (exists|k: int| 0 <= k < retained.len() && (#[trigger] retained[k])@ == e@) <==> e.txn_id
            >= watermark || forall|x: PatchEntry| #[trigger]
            entries.contains(x) && x.key@ == e.key@ && x.txn_id < watermark ==> x.txn_id
                <= e.txn_id,
{
    lemma_gc_result(entries, watermark, sorted, retained);
    let i = choose|i: int| 0 <= i < entries.len() && entries[i] == e;
    assert(has(entries, e@));
    assert(has(retained, e@) <==> survives(entries, watermark, e@));
    if e.txn_id < watermark {
        if survives(entries, watermark, e@) {
            assert forall|x: PatchEntry| #[trigger]
                entries.contains(x) && x.key@ == e.key@ && x.txn_id < watermark implies x.txn_id
                <= e.txn_id by {
                let j = choose|j: int| 0 <= j < entries.len() && entries[j] == x;
                assert(has(entries, x@));
            }
        }
        if forall|x: PatchEntry| #[trigger]
            entries.contains(x) && x.key@ == e.key@ && x.txn_id < watermark ==> x.txn_id
                <= e.txn_id {
            assert forall|q: PatchModel| #[trigger]
                has(entries, q) && q.key == e@.key && e@.txn_id < q.txn_id implies q.txn_id
                >= watermark by {
                let j = choose|j: int| 0 <= j < entries.len() && (#[trigger] entries[j])@ == q;
                assert(entries.contains(entries[j]));
            }
        }
    }
}

} // verus!
