//! What a run of GC keeps, and what it reclaims.

use crate::bytes::{lemma_lex_asymmetric, lemma_lex_irreflexive, lex_lt};
use crate::sort::{ascending, Ranked};
use crate::store::flush::{merges, same_as};
use crate::store::gc::{
    covered, gc_keeps, gc_merged, gc_result, gc_select, gc_spared, lemma_same_members,
};
use crate::store::gc_laws::versions_distinct;
use crate::store::types::{patch_models, EntryModel, PatchEntry, PatchModel};
use crate::TxnId;
use vstd::prelude::*;

verus! {

/// Between two entries of a key stand only entries of the key.
proof fn lemma_same_key_between(s: Seq<PatchEntry>, i: int, m: int, j: int)
    requires
        ascending(s),
        0 <= i <= m <= j < s.len(),
        s[i].key@ == s[j].key@,
    ensures
        s[m].key@ == s[i].key@,
        s[i].txn_id <= s[m].txn_id <= s[j].txn_id,
{
    assert(s[i].ranks_le(s[m]));
    assert(s[m].ranks_le(s[j]));
    lemma_lex_irreflexive(s[i].key@);
    if lex_lt(s[i].key@, s[m].key@) {
        lemma_lex_asymmetric(s[i].key@, s[m].key@);
    }
}

/// A committed version below the watermark covers all before it.
proof fn lemma_covers_all_before(
    s: Seq<PatchEntry>,
    watermark: TxnId,
    known: Set<TxnId>,
    i: int,
    j: int,
)
    requires
        ascending(s),
        0 <= i < j < s.len(),
        s[i].key@ == s[j].key@,
        s[j].txn_id < watermark,
        known.contains(s[j].txn_id),
    ensures
        covered(s, watermark, known, i),
    decreases j - i,
{
    lemma_same_key_between(s, i, i + 1, j);
    if i + 1 < j {
        lemma_covers_all_before(s, watermark, known, i + 1, j);
    }
}

/// What is spared stood somewhere, and was spared there.
proof fn lemma_spared_place(
    s: Seq<PatchEntry>,
    watermark: TxnId,
    known: Set<TxnId>,
    n: int,
    k: int,
) -> (j: int)
    requires
        0 <= n <= s.len(),
        0 <= k < gc_spared(s, watermark, known, n).len(),
    ensures
        k <= j < n,
        s[j] == gc_spared(s, watermark, known, n)[k],
        s[j].txn_id >= watermark || !covered(s, watermark, known, j),
    decreases n,
{
    let before = gc_spared(s, watermark, known, n - 1);
    if k < before.len() {
        lemma_spared_place(s, watermark, known, n - 1, k)
    } else {
        lemma_spared_at_most(s, watermark, known, n - 1);
        n - 1
    }
}

proof fn lemma_spared_at_most(s: Seq<PatchEntry>, watermark: TxnId, known: Set<TxnId>, n: int)
    requires
        0 <= n <= s.len(),
    ensures
        gc_spared(s, watermark, known, n).len() <= n,
    decreases n,
{
    if n > 0 {
        lemma_spared_at_most(s, watermark, known, n - 1);
    }
}

/// Two that are spared stood in the same order.
proof fn lemma_spared_places(
    s: Seq<PatchEntry>,
    watermark: TxnId,
    known: Set<TxnId>,
    n: int,
    a: int,
    b: int,
) -> (r: (int, int))
    requires
        0 <= n <= s.len(),
        0 <= a < b < gc_spared(s, watermark, known, n).len(),
    ensures
        0 <= r.0 < r.1 < n,
        s[r.0] == gc_spared(s, watermark, known, n)[a],
        s[r.1] == gc_spared(s, watermark, known, n)[b],
        s[r.0].txn_id >= watermark || !covered(s, watermark, known, r.0),
        s[r.1].txn_id >= watermark || !covered(s, watermark, known, r.1),
    decreases n,
{
    let before = gc_spared(s, watermark, known, n - 1);
    if b < before.len() {
        lemma_spared_places(s, watermark, known, n - 1, a, b)
    } else {
        let i = lemma_spared_place(s, watermark, known, n - 1, a);
        (i, n - 1)
    }
}

/// Reclamation: nothing that a newer committed version below the watermark
/// hides is retained, be that a value or a tombstone. Only versions from the
/// watermark on are exempt.
pub proof fn law_gc_reclaims_what_is_hidden(
    entries: Seq<PatchEntry>,
    watermark: TxnId,
    known: Set<TxnId>,
    sorted: Seq<PatchEntry>,
    retained: Seq<PatchEntry>,
    k: int,
    x: PatchEntry,
)
    requires
        gc_merged(entries, watermark, known, sorted, retained),
        0 <= k < retained.len(),
        entries.contains(x),
        x.key@ == retained[k].key@,
        x.txn_id < watermark,
        known.contains(x.txn_id),
    ensures
        retained[k].txn_id >= watermark || x.txn_id <= retained[k].txn_id,
{
    let n = sorted.len() as int;
    assert(retained[k]@ == gc_spared(sorted, watermark, known, n)[k]@);
    let i = lemma_spared_place(sorted, watermark, known, n, k);
    lemma_same_members(entries, sorted, x);
    let j = choose|j: int| 0 <= j < sorted.len() && sorted[j] == x;
    if i < j {
        if sorted[i].txn_id < watermark {
            lemma_covers_all_before(sorted, watermark, known, i, j);
        }
    } else {
        lemma_same_key_between(sorted, j, j, i);
    }
}

/// Of each key at most one committed version below the watermark is retained.
pub proof fn law_gc_keeps_one_baseline(
    entries: Seq<PatchEntry>,
    watermark: TxnId,
    known: Set<TxnId>,
    sorted: Seq<PatchEntry>,
    retained: Seq<PatchEntry>,
    a: int,
    b: int,
)
    requires
        gc_merged(entries, watermark, known, sorted, retained),
        0 <= a < b < retained.len(),
        retained[a].key@ == retained[b].key@,
        known.contains(retained[a].txn_id),
        known.contains(retained[b].txn_id),
    ensures
        retained[a].txn_id >= watermark || retained[b].txn_id >= watermark,
{
    let n = sorted.len() as int;
    assert(retained[a]@ == gc_spared(sorted, watermark, known, n)[a]@);
    assert(retained[b]@ == gc_spared(sorted, watermark, known, n)[b]@);
    let (i, j) = lemma_spared_places(sorted, watermark, known, n, a, b);
    if sorted[i].txn_id < watermark && sorted[j].txn_id < watermark {
        lemma_covers_all_before(sorted, watermark, known, i, j);
    }
}

/// GC invents nothing: what it retains it was given, and it stands by key and
/// then by transaction.
pub proof fn law_gc_invents_nothing(
    entries: Seq<PatchEntry>,
    watermark: TxnId,
    known: Set<TxnId>,
    sorted: Seq<PatchEntry>,
    retained: Seq<PatchEntry>,
    a: int,
    b: int,
)
    requires
        gc_merged(entries, watermark, known, sorted, retained),
        0 <= a < b < retained.len() || 0 <= a == b < retained.len(),
    ensures
        retained.len() <= entries.len(),
        exists|i: int|
            0 <= i < entries.len() && (#[trigger] entries[i]).key@ == retained[a].key@
                && entries[i].txn_id == retained[a].txn_id && entries[i]@.value
                == retained[a]@.value,
        lex_lt(retained[a].key@, retained[b].key@) || (retained[a].key@ == retained[b].key@
            && retained[a].txn_id <= retained[b].txn_id),
{
    let n = sorted.len() as int;
    let out = gc_spared(sorted, watermark, known, n);
    lemma_spared_at_most(sorted, watermark, known, n);
    entries.to_multiset_ensures();
    sorted.to_multiset_ensures();
    assert(entries.len() == entries.to_multiset().len());
    assert(sorted.len() == sorted.to_multiset().len());
    assert(retained[a]@ == out[a]@ && retained[b]@ == out[b]@);
    let i = lemma_spared_place(sorted, watermark, known, n, a);
    assert(sorted.contains(sorted[i]));
    lemma_same_members(entries, sorted, sorted[i]);
    let m = choose|m: int| 0 <= m < entries.len() && entries[m] == sorted[i];
    assert(entries[m]@ == retained[a]@);
    assert(entries[m].key@ == retained[a].key@);
    if a < b {
        let (p, q) = lemma_spared_places(sorted, watermark, known, n, a, b);
        assert(sorted[p].ranks_le(sorted[q]));
    }
}

proof fn lemma_spared_has(
    s: Seq<PatchEntry>,
    watermark: TxnId,
    known: Set<TxnId>,
    i: int,
    n: int,
) -> (k: int)
    requires
        0 <= i < n <= s.len(),
        s[i].txn_id >= watermark || !covered(s, watermark, known, i),
    ensures
        0 <= k < gc_spared(s, watermark, known, n).len(),
        gc_spared(s, watermark, known, n)[k] == s[i],
    decreases n,
{
    if i == n - 1 {
        gc_spared(s, watermark, known, n).len() - 1
    } else {
        lemma_spared_has(s, watermark, known, i, n - 1)
    }
}

proof fn lemma_what_covers(
    s: Seq<PatchEntry>,
    watermark: TxnId,
    known: Set<TxnId>,
    i: int,
) -> (j: int)
    requires
        0 <= i < s.len(),
        covered(s, watermark, known, i),
    ensures
        i < j < s.len(),
        s[j].key@ == s[i].key@,
        s[j].txn_id < watermark,
        known.contains(s[j].txn_id),
    decreases s.len() - i,
{
    if s[i + 1].txn_id < watermark && known.contains(s[i + 1].txn_id) {
        i + 1
    } else {
        lemma_what_covers(s, watermark, known, i + 1)
    }
}

/// What GC retains, exactly: a version, with its value, is retained if and only
/// if it is from the watermark on, or no committed version of its key below the
/// watermark is newer. Where transactions write a key once, that decides every
/// version.
pub proof fn law_gc_is_exact(
    entries: Seq<PatchEntry>,
    watermark: TxnId,
    known: Set<TxnId>,
    sorted: Seq<PatchEntry>,
    retained: Seq<PatchEntry>,
    e: PatchEntry,
)
    requires
        gc_merged(entries, watermark, known, sorted, retained),
        versions_distinct(entries),
        entries.contains(e),
    ensures
        (exists|k: int| 0 <= k < retained.len() && (#[trigger] retained[k])@ == e@) <==> e.txn_id
            >= watermark || forall|x: PatchEntry| #[trigger]
            entries.contains(x) && x.key@ == e.key@ && x.txn_id < watermark && known.contains(
                x.txn_id,
            ) ==> x.txn_id <= e.txn_id,
{
    let n = sorted.len() as int;
    let out = gc_spared(sorted, watermark, known, n);
    lemma_same_members(entries, sorted, e);
    let i = choose|i: int| 0 <= i < n && sorted[i] == e;
    if exists|k: int| 0 <= k < retained.len() && (#[trigger] retained[k])@ == e@ {
        let k = choose|k: int| 0 <= k < retained.len() && (#[trigger] retained[k])@ == e@;
        if e.txn_id < watermark {
            assert forall|x: PatchEntry| #[trigger]
                entries.contains(x) && x.key@ == e.key@ && x.txn_id < watermark && known.contains(
                    x.txn_id,
                ) implies x.txn_id <= e.txn_id by {
                law_gc_reclaims_what_is_hidden(
                    entries,
                    watermark,
                    known,
                    sorted,
                    retained,
                    k,
                    x,
                );
            }
        }
    } else if e.txn_id >= watermark || forall|x: PatchEntry| #[trigger]
        entries.contains(x) && x.key@ == e.key@ && x.txn_id < watermark && known.contains(x.txn_id)
            ==> x.txn_id <= e.txn_id {
        if e.txn_id < watermark && covered(sorted, watermark, known, i) {
            let j = lemma_what_covers(sorted, watermark, known, i);
            lemma_same_key_between(sorted, i, i, j);
            assert(sorted.contains(sorted[j]));
            lemma_same_members(entries, sorted, sorted[j]);
            assert(sorted[j].txn_id == e.txn_id);
            let a = choose|a: int| 0 <= a < entries.len() && entries[a] == e;
            let b = choose|b: int| 0 <= b < entries.len() && entries[b] == sorted[j];
            entries.to_multiset_ensures();
            sorted.to_multiset_ensures();
            assert(entries.no_duplicates());
            entries.lemma_multiset_has_no_duplicates();
            sorted.lemma_multiset_has_no_duplicates_conv();
            assert(sorted[i] != sorted[j]);
            assert(a != b);
            assert(false);
        }
        let k = lemma_spared_has(sorted, watermark, known, i, n);
        assert(out[k] == e);
        assert(retained[k]@ == e@);
        assert(false);
    }
}

proof fn lemma_selected_place(s: Seq<PatchEntry>, watermark: TxnId, n: int, k: int) -> (j: int)
    requires
        0 <= n <= s.len(),
        0 <= k < gc_select(s, watermark, n).len(),
    ensures
        0 <= j < n,
        s[j] == gc_select(s, watermark, n)[k],
        gc_keeps(s, watermark, j),
    decreases n,
{
    if k < gc_select(s, watermark, n - 1).len() {
        lemma_selected_place(s, watermark, n - 1, k)
    } else {
        n - 1
    }
}

proof fn lemma_selected_places(
    s: Seq<PatchEntry>,
    watermark: TxnId,
    n: int,
    a: int,
    b: int,
) -> (r: (int, int))
    requires
        0 <= n <= s.len(),
        0 <= a < b < gc_select(s, watermark, n).len(),
    ensures
        0 <= r.0 < r.1 < n,
        s[r.0] == gc_select(s, watermark, n)[a],
        s[r.1] == gc_select(s, watermark, n)[b],
        gc_keeps(s, watermark, r.0),
        gc_keeps(s, watermark, r.1),
    decreases n,
{
    if b < gc_select(s, watermark, n - 1).len() {
        lemma_selected_places(s, watermark, n - 1, a, b)
    } else {
        let i = lemma_selected_place(s, watermark, n - 1, a);
        (i, n - 1)
    }
}

/// The same of versions that are all committed: none that a newer one below the
/// watermark hides is retained, and of each key at most one below the watermark
/// is.
pub proof fn law_gc_entries_reclaims(
    entries: Seq<PatchEntry>,
    watermark: TxnId,
    sorted: Seq<PatchEntry>,
    retained: Seq<PatchEntry>,
    a: int,
    b: int,
    x: PatchEntry,
)
    requires
        gc_result(entries, watermark, sorted, retained),
    ensures
        0 <= a < retained.len() && entries.contains(x) && x.key@ == retained[a].key@ && x.txn_id
            < watermark ==> retained[a].txn_id >= watermark || x.txn_id <= retained[a].txn_id,
        0 <= a < b < retained.len() && retained[a].key@ == retained[b].key@ ==> retained[a].txn_id
            >= watermark || retained[b].txn_id >= watermark,
        0 <= a < b < retained.len() ==> lex_lt(retained[a].key@, retained[b].key@) || (
        retained[a].key@ == retained[b].key@ && retained[a].txn_id <= retained[b].txn_id),
        0 <= a < retained.len() ==> exists|i: int|
            0 <= i < entries.len() && (#[trigger] entries[i])@ == retained[a]@,
{
    let n = sorted.len() as int;
    let out = gc_select(sorted, watermark, n);
    if 0 <= a < retained.len() {
        assert(retained[a]@ == out[a]@);
        let i = lemma_selected_place(sorted, watermark, n, a);
        assert(sorted.contains(sorted[i]));
        lemma_same_members(entries, sorted, sorted[i]);
        let m = choose|m: int| 0 <= m < entries.len() && entries[m] == sorted[i];
        assert(entries[m]@ == retained[a]@);
        if entries.contains(x) && x.key@ == retained[a].key@ && x.txn_id < watermark {
            lemma_same_members(entries, sorted, x);
            let j = choose|j: int| 0 <= j < sorted.len() && sorted[j] == x;
            if i < j {
                lemma_same_key_between(sorted, i, i + 1, j);
            } else {
                lemma_same_key_between(sorted, j, j, i);
            }
        }
        if a < b < retained.len() {
            assert(retained[b]@ == out[b]@);
            let (p, q) = lemma_selected_places(sorted, watermark, n, a, b);
            assert(sorted[p].ranks_le(sorted[q]));
            if retained[a].key@ == retained[b].key@ {
                lemma_same_key_between(sorted, p, p + 1, q);
            }
        }
    }
}

/// A compaction reclaims what is hidden: of the versions it is given, none that
/// a newer committed version below the watermark hides is retained, and of each
/// key at most one committed version below the watermark is.
pub proof fn law_compaction_reclaims_what_is_hidden(
    versions: Seq<EntryModel>,
    watermark: TxnId,
    known: Set<TxnId>,
    retained: Seq<PatchEntry>,
    a: int,
    b: int,
    i: int,
)
    requires
        merges(versions, watermark, known, retained),
    ensures
        0 <= a < retained.len() && 0 <= i < versions.len() && versions[i].key.key
            == retained[a].key@ && versions[i].txn_id < watermark && known.contains(
            versions[i].txn_id,
        ) ==> retained[a].txn_id >= watermark || versions[i].txn_id <= retained[a].txn_id,
        0 <= a < b < retained.len() && retained[a].key@ == retained[b].key@ && known.contains(
            retained[a].txn_id,
        ) && known.contains(retained[b].txn_id) ==> retained[a].txn_id >= watermark
            || retained[b].txn_id >= watermark,
        retained.len() <= versions.len(),
{
    let (entries, sorted) = choose|entries: Seq<PatchEntry>, sorted: Seq<PatchEntry>|
        same_as(entries, versions) && #[trigger] gc_merged(
            entries,
            watermark,
            known,
            sorted,
            retained,
        );
    assert(patch_models(entries).len() == versions.len());
    if retained.len() > 0 {
        law_gc_invents_nothing(entries, watermark, known, sorted, retained, 0, 0);
    }
    if 0 <= a < retained.len() && 0 <= i < versions.len() && versions[i].key.key
        == retained[a].key@ && versions[i].txn_id < watermark && known.contains(
        versions[i].txn_id,
    ) {
        assert(patch_models(entries)[i] == crate::store::flush::as_patch(versions[i]));
        assert(patch_models(entries)[i] == entries[i]@);
        assert(entries.contains(entries[i]));
        law_gc_reclaims_what_is_hidden(
            entries,
            watermark,
            known,
            sorted,
            retained,
            a,
            entries[i],
        );
    }
    if 0 <= a < b < retained.len() && retained[a].key@ == retained[b].key@ && known.contains(
        retained[a].txn_id,
    ) && known.contains(retained[b].txn_id) {
        law_gc_keeps_one_baseline(entries, watermark, known, sorted, retained, a, b);
    }
}

/// A compaction keeps what is not hidden: a version that it is given is among
/// the retained ones, with its value, where it is from the watermark on or no
/// committed version of its key below the watermark is newer, as long as no
/// transaction has written a key twice.
pub proof fn law_compaction_keeps_what_is_not_hidden(
    versions: Seq<EntryModel>,
    watermark: TxnId,
    known: Set<TxnId>,
    retained: Seq<PatchEntry>,
    i: int,
)
    requires
        merges(versions, watermark, known, retained),
        forall|a: int, b: int|
            0 <= a < b < versions.len() ==> !((#[trigger] versions[a]).key.key == (
            #[trigger] versions[b]).key.key && versions[a].txn_id == versions[b].txn_id),
        0 <= i < versions.len(),
        versions[i].txn_id >= watermark || forall|j: int|
            0 <= j < versions.len() && (#[trigger] versions[j]).key.key == versions[i].key.key
                && versions[j].txn_id < watermark && known.contains(versions[j].txn_id)
                ==> versions[j].txn_id <= versions[i].txn_id,
    ensures
        exists|k: int|
            0 <= k < retained.len() && (#[trigger] retained[k])@ == (PatchModel {
                key: versions[i].key.key,
                value: versions[i].value,
                txn_id: versions[i].txn_id,
            }),
{
    let (entries, sorted) = choose|entries: Seq<PatchEntry>, sorted: Seq<PatchEntry>|
        same_as(entries, versions) && #[trigger] gc_merged(
            entries,
            watermark,
            known,
            sorted,
            retained,
        );
    assert(patch_models(entries).len() == versions.len());
    assert forall|j: int| 0 <= j < versions.len() implies (#[trigger] entries[j])@
        == crate::store::flush::as_patch(versions[j]) by {
        assert(patch_models(entries)[j] == crate::store::flush::as_patch(versions[j]));
        assert(patch_models(entries)[j] == entries[j]@);
    }
    let e = entries[i];
    assert(entries.contains(e));
    assert forall|a: int, b: int|
        0 <= a < entries.len() && 0 <= b < entries.len() && a != b implies !((
    #[trigger] entries[a]).key@ == (#[trigger] entries[b]).key@ && entries[a].txn_id
        == entries[b].txn_id) by {
        assert(entries[a]@ == crate::store::flush::as_patch(versions[a]));
        assert(entries[b]@ == crate::store::flush::as_patch(versions[b]));
        if a < b {
            assert(!(versions[a].key.key == versions[b].key.key && versions[a].txn_id
                == versions[b].txn_id));
        } else {
            assert(!(versions[b].key.key == versions[a].key.key && versions[b].txn_id
                == versions[a].txn_id));
        }
    }
    assert forall|x: PatchEntry| #[trigger]
        entries.contains(x) && x.key@ == e.key@ && x.txn_id < watermark && known.contains(x.txn_id)
            && e.txn_id < watermark implies x.txn_id <= e.txn_id by {
        let j = choose|j: int| 0 <= j < entries.len() && entries[j] == x;
        assert(entries[j]@ == crate::store::flush::as_patch(versions[j]));
        assert(versions[j].key.key == versions[i].key.key);
    }
    law_gc_is_exact(entries, watermark, known, sorted, retained, e);
}

} // verus!
