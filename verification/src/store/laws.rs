//! What holds of ranges, of choosing versions, and of the patches that a read
//! depends on.

use crate::bytes::{
    lemma_lex_asymmetric, lemma_lex_irreflexive, lemma_lex_total, lemma_lex_transitive, lex_lt,
};
use crate::codec::disk_format::framed;
use crate::codec::payload::encoded_rows;
use crate::store::config::SyncLevel;
use crate::store::disk::{
    as_entries, as_entry, covers, everything, filled, high_key, loaded, low_key, missing,
    patch_bytes, patch_file, patch_number, patch_numbers, patches_in, placed, ref_models, ref_of, sound_list,
    sound_ref, stem_number, top_txn, unlisted, versions_in, versions_of, CfPatches, DiskLayer,
    RefModel,
};
use crate::store::flush::{is_first_free_patch, law_fresh_patch_name, of_cf};
use crate::store::mem::{estimated, log_mode, put_record, LogMode};
use crate::store::recent_flush_cache::flagged;
use crate::store::select::{
    first_newest, has_key, in_range, in_span, kept, last_newest, lemma_first_newest,
    lemma_kept_members, lemma_last_newest, lemma_push_members, newest_listed, of_key, Pick, Span,
};
use crate::store::types::{patch_le, patch_rows, EntryModel, PatchModel};
use crate::store::version_map::{
    all_upserted, lemma_upserted_ascends, lemma_upserted_members, upserted, versions_ascend,
};
use crate::wal::record::RecordModel;
use vstd::prelude::*;

verus! {

/// A range holds the keys from its start on, the start with them, and before
/// its end, the end not with them, in lexicographic order.
pub proof fn law_range_is_half_open(key: Seq<u8>, start: Seq<u8>, end: Seq<u8>)
    ensures
        in_range(key, start, None) <==> key == start || lex_lt(start, key),
        in_range(key, start, Some(end)) <==> (key == start || lex_lt(start, key)) && lex_lt(
            key,
            end,
        ),
        in_range(start, start, Some(end)) <==> lex_lt(start, end),
        !in_range(end, start, Some(end)),
{
    lemma_lex_total(key, start);
    lemma_lex_irreflexive(start);
    lemma_lex_irreflexive(end);
    if lex_lt(start, key) {
        lemma_lex_asymmetric(start, key);
    }
}

/// A range has no gaps: a key that lies between two keys of the range is in it.
pub proof fn law_range_has_no_gaps(
    a: Seq<u8>,
    key: Seq<u8>,
    b: Seq<u8>,
    start: Seq<u8>,
    end: Option<Seq<u8>>,
)
    requires
        in_range(a, start, end),
        in_range(b, start, end),
        a == key || lex_lt(a, key),
        key == b || lex_lt(key, b),
    ensures
        in_range(key, start, end),
{
    if lex_lt(key, start) && lex_lt(a, key) {
        lemma_lex_transitive(a, key, start);
    }
    if let Some(e) = end {
        if lex_lt(key, b) {
            lemma_lex_transitive(key, b, e);
        }
    }
}

/// A span of one key holds that key alone, and a span of a range the keys of
/// the range.
pub proof fn law_span_members(key: Seq<u8>, k: Seq<u8>, end: Seq<u8>)
    ensures
        in_span(Span::Key(k), key) <==> key == k,
        in_span(Span::Range(k, None), key) <==> key == k || lex_lt(k, key),
        in_span(Span::Range(k, Some(end)), key) <==> (key == k || lex_lt(k, key)) && lex_lt(
            key,
            end,
        ),
{
    law_range_is_half_open(key, k, end);
}

/// A pick keeps a version if and only if it is of the column family, its key
/// lies in the span, and its transaction is seen: it lies at or below the
/// snapshot, was not active, and has committed at or below the snapshot.
pub proof fn law_pick_is_exact(s: Seq<EntryModel>, p: Pick, e: EntryModel)
    ensures
        kept(s, p).contains(e) <==> {
            &&& s.contains(e)
            &&& e.key.cf == p.cf
            &&& in_span(p.span, e.key.key)
            &&& p.sight matches Some(sight) ==> {
                &&& e.txn_id <= sight.snapshot
                &&& !sight.active.contains(e.txn_id)
                &&& sight.commits.contains_key(e.txn_id)
                &&& sight.commits[e.txn_id] <= sight.snapshot
            }
        },
{
    lemma_kept_members(s, p, e);
}

/// A pick keeps the order of the versions.
pub proof fn law_pick_keeps_order(s: Seq<EntryModel>, p: Pick, a: int, b: int)
    requires
        0 <= a < b < kept(s, p).len(),
    ensures
        exists|i: int, j: int|
            0 <= i < j < s.len() && #[trigger] s[i] == kept(s, p)[a] && #[trigger] s[j] == kept(
                s,
                p,
            )[b],
    decreases s.len(),
{
    let rest = s.drop_last();
    if s.len() > 0 {
        lemma_kept_members(rest, p, kept(s, p)[a]);
        if b < kept(rest, p).len() {
            law_pick_keeps_order(rest, p, a, b);
            let (i, j) = choose|i: int, j: int|
                0 <= i < j < rest.len() && #[trigger] rest[i] == kept(rest, p)[a]
                    && #[trigger] rest[j] == kept(rest, p)[b];
            assert(s[i] == kept(s, p)[a] && s[j] == kept(s, p)[b]);
        } else {
            assert(kept(s, p)[a] == kept(rest, p)[a]);
            assert(rest.contains(kept(s, p)[a]));
            let i = choose|i: int| 0 <= i < rest.len() && rest[i] == kept(s, p)[a];
            assert(s[i] == kept(s, p)[a] && s[s.len() - 1] == kept(s, p)[b]);
        }
    }
}

/// Of versions written by one transaction, a point read takes the last in the
/// order in which the layers are asked.
pub proof fn law_last_newest(s: Seq<EntryModel>)
    requires
        s.len() > 0,
    ensures
        exists|i: int|
            0 <= i < s.len() && last_newest(s) == Some(#[trigger] s[i]) && (forall|j: int|
                0 <= j < s.len() ==> (#[trigger] s[j]).txn_id <= s[i].txn_id) && (forall|j: int|
                i < j < s.len() ==> (#[trigger] s[j]).txn_id < s[i].txn_id),
    decreases s.len(),
{
    let rest = s.drop_last();
    let n = s.len() - 1;
    lemma_last_newest(s);
    if rest.len() == 0 {
        assert(last_newest(s) == Some(s[n]));
    } else {
        law_last_newest(rest);
        let i = choose|i: int|
            0 <= i < rest.len() && last_newest(rest) == Some(#[trigger] rest[i]) && (forall|j: int|
                0 <= j < rest.len() ==> (#[trigger] rest[j]).txn_id <= rest[i].txn_id) && (forall|
                j: int,
            | i < j < rest.len() ==> (#[trigger] rest[j]).txn_id < rest[i].txn_id);
        assert forall|j: int| 0 <= j < rest.len() implies #[trigger] rest[j] == s[j] by {}
        if s[n].txn_id >= rest[i].txn_id {
            assert(last_newest(s) == Some(s[n]));
        } else {
            assert(last_newest(s) == Some(s[i]));
            assert forall|j: int| i < j < s.len() implies (#[trigger] s[j]).txn_id
                < s[i].txn_id by {
                if j < rest.len() {
                    assert(rest[j].txn_id < rest[i].txn_id);
                }
            }
        }
    }
}

/// Of versions written by one transaction, a scan takes the first.
pub proof fn law_first_newest(s: Seq<EntryModel>)
    requires
        s.len() > 0,
    ensures
        exists|i: int|
            0 <= i < s.len() && first_newest(s) == Some(#[trigger] s[i]) && (forall|j: int|
                0 <= j < s.len() ==> (#[trigger] s[j]).txn_id <= s[i].txn_id) && (forall|j: int|
                0 <= j < i ==> (#[trigger] s[j]).txn_id < s[i].txn_id),
    decreases s.len(),
{
    let rest = s.drop_last();
    let n = s.len() - 1;
    lemma_first_newest(s);
    if rest.len() == 0 {
        assert(first_newest(s) == Some(s[n]));
    } else {
        law_first_newest(rest);
        let i = choose|i: int|
            0 <= i < rest.len() && first_newest(rest) == Some(#[trigger] rest[i]) && (forall|
                j: int,
            | 0 <= j < rest.len() ==> (#[trigger] rest[j]).txn_id <= rest[i].txn_id) && (forall|
                j: int,
            | 0 <= j < i ==> (#[trigger] rest[j]).txn_id < rest[i].txn_id);
        assert forall|j: int| 0 <= j < rest.len() implies #[trigger] rest[j] == s[j] by {}
        if s[n].txn_id > rest[i].txn_id {
            assert(first_newest(s) == Some(s[n]));
            assert forall|j: int| 0 <= j < n implies (#[trigger] s[j]).txn_id < s[n].txn_id by {
                assert(rest[j].txn_id <= rest[i].txn_id);
            }
        } else {
            assert(first_newest(s) == Some(s[i]));
            assert forall|j: int| 0 <= j < i implies (#[trigger] s[j]).txn_id < s[i].txn_id by {
                assert(rest[j].txn_id < rest[i].txn_id);
            }
        }
    }
}

/// Writing a version into a buffer that is in order leaves it in order, holds
/// the version, holds every other version that it held before, and replaces
/// only what the same transaction had written to the same key.
pub proof fn law_write_replaces_only_itself(s: Seq<EntryModel>, e: EntryModel, x: EntryModel)
    requires
        versions_ascend(s),
    ensures
        upserted(s, e).contains(x) <==> x == e || (s.contains(x) && !(x.key == e.key && x.txn_id
            == e.txn_id)),
        forall|i: int, j: int|
            0 <= i < j < upserted(s, e).len() ==> {
                let a = #[trigger] upserted(s, e)[i];
                let b = #[trigger] upserted(s, e)[j];
                ||| a.key.cf < b.key.cf
                ||| a.key.cf == b.key.cf && lex_lt(a.key.key, b.key.key)
                ||| a.key == b.key && a.txn_id < b.txn_id
            },
{
    lemma_upserted_members(s, e, x);
    lemma_upserted_ascends(s, e);
}

/// A read depends on every patch whose key range can hold a key of the span:
/// for a key, the patches with the key between their smallest and largest; for
/// a range, those whose largest key is not before the start and whose smallest
/// is before the end.
pub proof fn law_patch_covers_exactly(r: RefModel, key: Seq<u8>, end: Seq<u8>)
    ensures
        covers(r, Span::Key(key)) <==> (r.min_key == key || lex_lt(r.min_key, key)) && (key
            == r.max_key || lex_lt(key, r.max_key)),
        covers(r, Span::Range(key, None)) <==> key == r.max_key || lex_lt(key, r.max_key),
        covers(r, Span::Range(key, Some(end))) <==> (key == r.max_key || lex_lt(key, r.max_key))
            && lex_lt(r.min_key, end),
{
    lemma_lex_total(key, r.min_key);
    lemma_lex_total(key, r.max_key);
    lemma_lex_irreflexive(key);
    if lex_lt(r.min_key, key) {
        lemma_lex_asymmetric(r.min_key, key);
    }
    if lex_lt(key, r.max_key) {
        lemma_lex_asymmetric(key, r.max_key);
    }
}

/// A read of a layer is complete if and only if every patch that it depends on
/// is in memory; until then it asks for the first one that is not.
pub proof fn law_read_waits_for_every_patch(list: Seq<RefModel>, span: Span)
    ensures
        missing(list, span) is None <==> forall|i: int|
            0 <= i < list.len() && covers(#[trigger] list[i], span) ==> list[i].content is Some,
        missing(list, span) is Some ==> exists|i: int|
            0 <= i < list.len() && missing(list, span) == Some((#[trigger] list[i]).name) && covers(
                list[i],
                span,
            ) && list[i].content is None && (forall|j: int|
                0 <= j < i && covers(#[trigger] list[j], span) ==> list[j].content is Some),
    decreases list.len(),
{
    if list.len() > 0 {
        let rest = list.drop_last();
        let n = list.len() - 1;
        law_read_waits_for_every_patch(rest, span);
        assert(list[n] == list.last());
        assert forall|j: int| 0 <= j < rest.len() implies #[trigger] rest[j] == list[j] by {}
        if missing(rest, span) is Some {
            let i = choose|i: int|
                0 <= i < rest.len() && missing(rest, span) == Some((#[trigger] rest[i]).name)
                    && covers(rest[i], span) && rest[i].content is None && (forall|j: int|
                    0 <= j < i && covers(#[trigger] rest[j], span) ==> rest[j].content is Some);
            assert(missing(list, span) == Some(list[i].name));
            assert(covers(list[i], span) && list[i].content is None);
            assert forall|j: int| 0 <= j < i && covers(#[trigger] list[j], span) implies
                list[j].content is Some by {
                assert(covers(rest[j], span));
            }
        } else {
            assert forall|j: int| 0 <= j < n && covers(#[trigger] list[j], span) implies
                list[j].content is Some by {
                assert(covers(rest[j], span));
            }
            if missing(list, span) is Some {
                assert(missing(list, span) == Some(list[n].name));
            }
        }
    }
}

/// A patch gives a read exactly its entries in the span.
pub proof fn lemma_served(cf: u16, r: RefModel, span: Span, e: EntryModel)
    requires
        sound_ref(r),
    ensures
        versions_of(cf, r, span).contains(e) <==> {
            &&& in_span(span, e.key.key)
            &&& e.key.cf == cf
            &&& e.ts == 0
            &&& r.content matches Some(c) && c.contains(
                PatchModel { key: e.key.key, value: e.value, txn_id: e.txn_id },
            )
        },
{
    let p = PatchModel { key: e.key.key, value: e.value, txn_id: e.txn_id };
    if let Some(c) = r.content {
        let all = as_entries(cf, c);
        let k = e.key.key;
        lemma_kept_members(all, Pick { cf, span, sight: None }, e);
        if all.contains(e) {
            let i = choose|i: int| 0 <= i < all.len() && all[i] == e;
            assert(all[i] == as_entry(cf, c[i]));
            assert(c[i] == p);
            assert(c.contains(p));
        }
        if c.contains(p) {
            let i = choose|i: int| 0 <= i < c.len() && c[i] == p;
            assert(!lex_lt(c[i].key, r.min_key) && !lex_lt(r.max_key, c[i].key));
            if e.key.cf == cf && e.ts == 0 {
                assert(all[i] == e);
                assert(all.contains(e));
            }
            lemma_lex_total(k, r.min_key);
            lemma_lex_total(k, r.max_key);
            if in_span(span, k) {
                if let Span::Range(start, end) = span {
                    if lex_lt(r.max_key, start) && lex_lt(k, r.max_key) {
                        lemma_lex_transitive(k, r.max_key, start);
                    }
                    if let Some(x) = end {
                        if lex_lt(r.min_key, k) {
                            lemma_lex_transitive(r.min_key, k, x);
                        }
                    }
                }
                assert(covers(r, span));
            }
        }
    }
}

/// What the patches of a layer give a read: every entry in the span of every
/// patch that is in memory, under the column family and nothing else.
pub proof fn law_layer_serves_exactly(cf: u16, list: Seq<RefModel>, span: Span, e: EntryModel)
    requires
        sound_list(list),
    ensures
        versions_in(cf, list, span).contains(e) <==> {
            &&& in_span(span, e.key.key)
            &&& e.key.cf == cf
            &&& e.ts == 0
            &&& exists|i: int|
                0 <= i < list.len() && ((#[trigger] list[i]).content matches Some(c) && c.contains(
                    PatchModel { key: e.key.key, value: e.value, txn_id: e.txn_id },
                ))
        },
    decreases list.len(),
{
    let p = PatchModel { key: e.key.key, value: e.value, txn_id: e.txn_id };
    if list.len() > 0 {
        let rest = list.drop_last();
        let n = list.len() - 1;
        assert forall|i: int| 0 <= i < rest.len() implies #[trigger] rest[i] == list[i] && sound_ref(
            rest[i],
        ) by {
            assert(sound_ref(list[i]));
        }
        assert(sound_ref(list[n]));
        assert(list[n] == list.last());
        law_layer_serves_exactly(cf, rest, span, e);
        lemma_served(cf, list.last(), span, e);
        crate::txn::laws::lemma_concat_members(
            versions_in(cf, rest, span),
            versions_of(cf, list.last(), span),
            e,
        );
        if exists|i: int|
            0 <= i < rest.len() && ((#[trigger] rest[i]).content matches Some(c) && c.contains(p)) {
            let i = choose|i: int|
                0 <= i < rest.len() && ((#[trigger] rest[i]).content matches Some(c) && c.contains(
                    p,
                ));
            assert(list[i].content matches Some(c) && c.contains(p));
        }
        if exists|i: int|
            0 <= i < list.len() && ((#[trigger] list[i]).content matches Some(c) && c.contains(p)) {
            let i = choose|i: int|
                0 <= i < list.len() && ((#[trigger] list[i]).content matches Some(c) && c.contains(
                    p,
                ));
            if i < n {
                assert(rest[i].content matches Some(c) && c.contains(p));
            }
        }
    } else {
        assert(!versions_in(cf, list, span).contains(e));
    }
}

/// The span of everything leaves no key out, and every patch can hold one of
/// its keys.
pub proof fn law_everything_is_everything(key: Seq<u8>, r: RefModel)
    ensures
        in_span(everything(), key),
        covers(r, everything()),
{
    reveal_with_fuel(lex_lt, 1);
}

/// Entering a patch in the index takes no other out of it.
pub proof fn law_index_gains_one(s: Seq<RefModel>, r: RefModel)
    ensures
        placed(s, r).len() == s.len() + 1,
        placed(s, r).to_multiset() == s.to_multiset().insert(r),
        forall|x: RefModel| #[trigger] placed(s, r).contains(x) <==> s.contains(x) || x == r,
    decreases s.len(),
{
    broadcast use vstd::seq_lib::group_to_multiset_ensures;

    s.to_multiset_ensures();
    placed(s, r).to_multiset_ensures();
    if s.len() == 0 {
        assert(s =~= Seq::<RefModel>::empty());
        assert(seq![r] =~= s.push(r));
    } else if lex_lt(r.min_key, s.last().min_key) {
        let rest = s.drop_last();
        law_index_gains_one(rest, r);
        assert(s =~= rest.push(s.last()));
        rest.to_multiset_ensures();
        placed(rest, r).to_multiset_ensures();
        assert(placed(s, r).to_multiset() =~= s.to_multiset().insert(r));
    }
    let out = placed(s, r);
    assert forall|x: RefModel| #[trigger] out.contains(x) <==> s.contains(x) || x == r by {
        assert(out.contains(x) <==> out.to_multiset().count(x) > 0);
        assert(s.contains(x) <==> s.to_multiset().count(x) > 0);
    }
}

/// The index stays sorted by smallest key.
pub proof fn law_index_stays_sorted(s: Seq<RefModel>, r: RefModel)
    requires
        forall|i: int, j: int|
            0 <= i < j < s.len() ==> !lex_lt((#[trigger] s[j]).min_key, (#[trigger] s[i]).min_key),
    ensures
        forall|i: int, j: int|
            0 <= i < j < placed(s, r).len() ==> !lex_lt(
                (#[trigger] placed(s, r)[j]).min_key,
                (#[trigger] placed(s, r)[i]).min_key,
            ),
    decreases s.len(),
{
    if s.len() > 0 {
        let rest = s.drop_last();
        let out = placed(s, r);
        if lex_lt(r.min_key, s.last().min_key) {
            assert forall|i: int, j: int| 0 <= i < j < rest.len() implies !lex_lt(
                (#[trigger] rest[j]).min_key,
                (#[trigger] rest[i]).min_key,
            ) by {
                assert(!lex_lt(s[j].min_key, s[i].min_key));
            }
            law_index_stays_sorted(rest, r);
            law_index_gains_one(rest, r);
            let before = placed(rest, r);
            assert forall|i: int, j: int| 0 <= i < j < out.len() implies !lex_lt(
                (#[trigger] out[j]).min_key,
                (#[trigger] out[i]).min_key,
            ) by {
                if j < before.len() {
                    assert(out[i] == before[i] && out[j] == before[j]);
                } else {
                    assert(out[j] == s.last());
                    assert(before.contains(before[i]));
                    if before[i] == r {
                        lemma_lex_asymmetric(r.min_key, s.last().min_key);
                    } else {
                        assert(rest.contains(before[i]));
                        let k = choose|k: int| 0 <= k < rest.len() && rest[k] == before[i];
                        assert(!lex_lt(s[s.len() - 1].min_key, s[k].min_key));
                    }
                }
            }
        } else {
            let n = s.len() as int;
            assert forall|i: int, j: int| 0 <= i < j < out.len() implies !lex_lt(
                (#[trigger] out[j]).min_key,
                (#[trigger] out[i]).min_key,
            ) by {
                if j < n {
                    assert(!lex_lt(s[j].min_key, s[i].min_key));
                } else if lex_lt(r.min_key, s[i].min_key) {
                    if i < n - 1 {
                        assert(!lex_lt(s[n - 1].min_key, s[i].min_key));
                        lemma_lex_total(s[n - 1].min_key, s[i].min_key);
                        if lex_lt(s[i].min_key, s[n - 1].min_key) {
                            lemma_lex_transitive(r.min_key, s[i].min_key, s[n - 1].min_key);
                        }
                    }
                    assert(false);
                }
            }
        }
    }
}

/// The index entry of a patch file: its range holds every key of the file, its
/// bounds are the first and the last key, and no transaction in the file is
/// above its largest. Nothing of the file is in memory yet.
pub proof fn law_index_entry_of_a_file(name: Seq<char>, c: Seq<PatchModel>, p: PatchModel)
    requires
        c.contains(p),
        forall|a: int, b: int| 0 <= a <= b < c.len() ==> patch_le(#[trigger] c[a], #[trigger] c[b]),
    ensures
        ref_of(name, c).name == name,
        ref_of(name, c).content is None,
        !lex_lt(p.key, ref_of(name, c).min_key),
        !lex_lt(ref_of(name, c).max_key, p.key),
        ref_of(name, c).min_key == c[0].key,
        ref_of(name, c).max_key == c[c.len() - 1].key,
        p.txn_id <= ref_of(name, c).max_txn,
        exists|i: int| 0 <= i < c.len() && (#[trigger] c[i]).txn_id == ref_of(name, c).max_txn,
        covers(ref_of(name, c), Span::Key(p.key)),
{
    let i = choose|i: int| 0 <= i < c.len() && c[i] == p;
    assert(patch_le(c[0], c[i]));
    assert(patch_le(c[i], c[c.len() - 1]));
    lemma_lex_irreflexive(p.key);
    if lex_lt(c[0].key, p.key) {
        lemma_lex_asymmetric(c[0].key, p.key);
    }
    if lex_lt(p.key, c[c.len() - 1].key) {
        lemma_lex_asymmetric(p.key, c[c.len() - 1].key);
    }
    lemma_top_txn_is_max(c);
}

proof fn lemma_top_txn_is_max(c: Seq<PatchModel>)
    ensures
        forall|i: int| 0 <= i < c.len() ==> (#[trigger] c[i]).txn_id <= top_txn(c),
        c.len() > 0 ==> exists|i: int| 0 <= i < c.len() && (#[trigger] c[i]).txn_id == top_txn(c),
    decreases c.len(),
{
    if c.len() > 0 {
        let rest = c.drop_last();
        let n = c.len() - 1;
        lemma_top_txn_is_max(rest);
        assert forall|i: int| 0 <= i < c.len() implies (#[trigger] c[i]).txn_id <= top_txn(c) by {
            if i < n {
                assert(rest[i] == c[i]);
            }
        }
        if c[n].txn_id > top_txn(rest) || rest.len() == 0 {
            assert(c[n].txn_id == top_txn(c));
        } else {
            let i = choose|i: int|
                0 <= i < rest.len() && (#[trigger] rest[i]).txn_id == top_txn(rest);
            assert(c[i].txn_id == top_txn(c));
        }
    }
}

proof fn lemma_bounds_grow(k: Seq<u8>, c: Seq<PatchModel>)
    ensures
        !lex_lt(k, low_key(k, c)),
        !lex_lt(high_key(k, c), k),
        forall|i: int| 0 <= i < c.len() ==> !lex_lt((#[trigger] c[i]).key, low_key(k, c)),
        forall|i: int| 0 <= i < c.len() ==> !lex_lt(high_key(k, c), (#[trigger] c[i]).key),
        low_key(k, c) == k || exists|i: int|
            0 <= i < c.len() && (#[trigger] c[i]).key == low_key(k, c),
        high_key(k, c) == k || exists|i: int|
            0 <= i < c.len() && (#[trigger] c[i]).key == high_key(k, c),
    decreases c.len(),
{
    lemma_lex_irreflexive(k);
    if c.len() > 0 {
        let rest = c.drop_last();
        let n = c.len() - 1;
        lemma_bounds_grow(k, rest);
        let lo = low_key(k, rest);
        let hi = high_key(k, rest);
        let x = c[n].key;
        lemma_lex_irreflexive(x);
        assert forall|i: int| 0 <= i < c.len() implies !lex_lt((#[trigger] c[i]).key, low_key(k, c)) by {
            if i < n {
                assert(rest[i] == c[i]);
                if lex_lt(x, lo) && lex_lt(c[i].key, x) {
                    lemma_lex_transitive(c[i].key, x, lo);
                }
            }
        }
        if lex_lt(x, lo) && lex_lt(k, x) {
            lemma_lex_transitive(k, x, lo);
        }
        assert forall|i: int| 0 <= i < c.len() implies !lex_lt(high_key(k, c), (#[trigger] c[i]).key) by {
            if i < n {
                assert(rest[i] == c[i]);
                if lex_lt(hi, x) && lex_lt(x, c[i].key) {
                    lemma_lex_transitive(hi, x, c[i].key);
                }
            }
        }
        if lex_lt(hi, x) && lex_lt(x, k) {
            lemma_lex_transitive(hi, x, k);
        }
        if lex_lt(x, lo) {
            assert(c[n].key == low_key(k, c));
        } else if lo != k {
            let i = choose|i: int| 0 <= i < rest.len() && (#[trigger] rest[i]).key == lo;
            assert(c[i].key == low_key(k, c));
        }
        if lex_lt(hi, x) {
            assert(c[n].key == high_key(k, c));
        } else if hi != k {
            let i = choose|i: int| 0 <= i < rest.len() && (#[trigger] rest[i]).key == hi;
            assert(c[i].key == high_key(k, c));
        }
    }
}

/// Reading a patch file gives the index entry of its name the content of the
/// file, and a range that holds the old one and all keys of the file, and no
/// more than that. The others stay as they are.
pub proof fn law_loading_a_patch(
    s: Seq<RefModel>,
    name: Seq<char>,
    c: Seq<PatchModel>,
    i: int,
    p: PatchModel,
)
    requires
        0 <= i < s.len(),
    ensures
        loaded(s, name, c).len() == s.len(),
        s[i].name != name ==> loaded(s, name, c)[i] == s[i],
        s[i].name == name ==> {
            let r = loaded(s, name, c)[i];
            &&& r.content == Some(c)
            &&& r.name == name
            &&& r.max_txn == s[i].max_txn
            &&& !lex_lt(s[i].min_key, r.min_key)
            &&& !lex_lt(r.max_key, s[i].max_key)
            &&& c.contains(p) ==> !lex_lt(p.key, r.min_key) && !lex_lt(r.max_key, p.key)
            &&& r.min_key == s[i].min_key || exists|j: int|
                0 <= j < c.len() && (#[trigger] c[j]).key == r.min_key
            &&& r.max_key == s[i].max_key || exists|j: int|
                0 <= j < c.len() && (#[trigger] c[j]).key == r.max_key
        },
{
    if s[i].name == name {
        lemma_bounds_grow(s[i].min_key, c);
        lemma_bounds_grow(s[i].max_key, c);
        assert(loaded(s, name, c)[i] == filled(s[i], c));
        if c.contains(p) {
            let j = choose|j: int| 0 <= j < c.len() && c[j] == p;
            assert(!lex_lt(c[j].key, low_key(s[i].min_key, c)));
            assert(!lex_lt(high_key(s[i].max_key, c), c[j].key));
        }
    }
}

/// A patch file that has vanished leaves the index; every other one stays.
pub proof fn law_vanished_patch_leaves(s: Seq<RefModel>, name: Seq<char>, r: RefModel)
    ensures
        unlisted(s, name).contains(r) <==> s.contains(r) && r.name != name,
    decreases s.len(),
{
    if s.len() > 0 {
        let rest = s.drop_last();
        let before = unlisted(rest, name);
        law_vanished_patch_leaves(rest, name, r);
        assert(s[s.len() - 1] == s.last());
        if rest.contains(r) {
            let i = choose|i: int| 0 <= i < rest.len() && rest[i] == r;
            assert(s[i] == r);
        }
        if s.contains(r) && s.last() != r {
            let i = choose|i: int| 0 <= i < s.len() && s[i] == r;
            assert(rest[i] == r);
        }
        let now = unlisted(s, name);
        if before.contains(r) {
            let i = choose|i: int| 0 <= i < before.len() && before[i] == r;
            assert(now[i] == r);
        }
        if s.last().name != name {
            assert(now[now.len() - 1] == s.last());
            if now.contains(r) && r != s.last() {
                let i = choose|i: int| 0 <= i < now.len() && now[i] == r;
                assert(before[i] == r);
            }
        }
    }
}

/// What a flush writes of a column family: every version of it with its key,
/// value and transaction, tombstones among them, and nothing else; as many
/// entries as there are versions.
pub proof fn law_group_holds_its_versions(s: Seq<EntryModel>, cf: u16, p: PatchModel, i: int)
    ensures
        0 <= i < s.len() && s[i].key.cf == cf ==> of_cf(s, cf).contains(
            PatchModel { key: s[i].key.key, value: s[i].value, txn_id: s[i].txn_id },
        ),
        of_cf(s, cf).contains(p) ==> exists|j: int|
            0 <= j < s.len() && (#[trigger] s[j]).key.cf == cf && s[j].key.key == p.key
                && s[j].value == p.value && s[j].txn_id == p.txn_id,
        of_cf(s, cf).len() == s.filter(|e: EntryModel| e.key.cf == cf).len(),
    decreases s.len(),
{
    reveal(Seq::filter);
    if s.len() > 0 {
        let rest = s.drop_last();
        let n = s.len() - 1;
        let before = of_cf(rest, cf);
        let now = of_cf(s, cf);
        law_group_holds_its_versions(rest, cf, p, i);
        assert(s[n] == s.last());
        if 0 <= i < n && s[i].key.cf == cf {
            let q = PatchModel { key: s[i].key.key, value: s[i].value, txn_id: s[i].txn_id };
            assert(rest[i] == s[i]);
            let k = choose|k: int| 0 <= k < before.len() && before[k] == q;
            assert(now[k] == q);
        }
        if s[n].key.cf == cf {
            let q = PatchModel { key: s[n].key.key, value: s[n].value, txn_id: s[n].txn_id };
            assert(now[now.len() - 1] == q);
        }
        if now.contains(p) {
            let k = choose|k: int| 0 <= k < now.len() && now[k] == p;
            if k < before.len() {
                assert(before[k] == p);
                assert(before.contains(p));
                let j = choose|j: int|
                    0 <= j < rest.len() && (#[trigger] rest[j]).key.cf == cf && rest[j].key.key
                        == p.key && rest[j].value == p.value && rest[j].txn_id == p.txn_id;
                assert(s[j].key.cf == cf);
            } else {
                assert(s[n].key.cf == cf);
            }
        }
    }
}

/// Writing several versions one after the other leaves, of every key and
/// transaction, the last one written, or what was there before where none was.
pub proof fn law_writes_replace_only_themselves(
    s: Seq<EntryModel>,
    es: Seq<EntryModel>,
    x: EntryModel,
)
    requires
        versions_ascend(s),
    ensures
        versions_ascend(all_upserted(s, es)),
        all_upserted(s, es).contains(x) <==> (exists|i: int|
            0 <= i < es.len() && #[trigger] es[i] == x && (forall|j: int|
                i < j < es.len() ==> !((#[trigger] es[j]).key == x.key && es[j].txn_id
                    == x.txn_id))) || (s.contains(x) && (forall|j: int|
            0 <= j < es.len() ==> !((#[trigger] es[j]).key == x.key && es[j].txn_id == x.txn_id))),
    decreases es.len(),
{
    if es.len() > 0 {
        let rest = es.drop_last();
        let n = es.len() - 1;
        let e = es.last();
        law_writes_replace_only_themselves(s, rest, x);
        let before = all_upserted(s, rest);
        law_write_replaces_only_itself(before, e, x);
        lemma_upserted_ascends(before, e);
        assert(es[n] == e);
        assert forall|j: int| 0 <= j < n implies #[trigger] rest[j] == es[j] by {}
        let same = e.key == x.key && e.txn_id == x.txn_id;
        if before.contains(x) && !same {
            if exists|i: int|
                0 <= i < rest.len() && #[trigger] rest[i] == x && (forall|j: int|
                    i < j < rest.len() ==> !((#[trigger] rest[j]).key == x.key && rest[j].txn_id
                        == x.txn_id)) {
                let i = choose|i: int|
                    0 <= i < rest.len() && #[trigger] rest[i] == x && (forall|j: int|
                        i < j < rest.len() ==> !((#[trigger] rest[j]).key == x.key && rest[j].txn_id
                            == x.txn_id));
                assert(es[i] == x);
                assert forall|j: int| i < j < es.len() implies !((#[trigger] es[j]).key == x.key
                    && es[j].txn_id == x.txn_id) by {
                    if j < n {
                        assert(rest[j] == es[j]);
                    }
                }
            } else {
                assert forall|j: int| 0 <= j < es.len() implies !((#[trigger] es[j]).key == x.key
                    && es[j].txn_id == x.txn_id) by {
                    if j < n {
                        assert(rest[j] == es[j]);
                    }
                }
            }
        }
        if x == e {
            assert(es[n] == x);
        }
        if x != e && exists|i: int|
            0 <= i < es.len() && #[trigger] es[i] == x && (forall|j: int|
                i < j < es.len() ==> !((#[trigger] es[j]).key == x.key && es[j].txn_id
                    == x.txn_id)) {
            let i = choose|i: int|
                0 <= i < es.len() && #[trigger] es[i] == x && (forall|j: int|
                    i < j < es.len() ==> !((#[trigger] es[j]).key == x.key && es[j].txn_id
                        == x.txn_id));
            assert(i < n);
            assert(rest[i] == x);
            assert(!(es[n].key == x.key && es[n].txn_id == x.txn_id));
            assert forall|j: int| i < j < rest.len() implies !((#[trigger] rest[j]).key == x.key
                && rest[j].txn_id == x.txn_id) by {
                assert(rest[j] == es[j]);
            }
        }
        if s.contains(x) && (forall|j: int|
            0 <= j < es.len() ==> !((#[trigger] es[j]).key == x.key && es[j].txn_id == x.txn_id)) {
            assert(!(es[n].key == x.key && es[n].txn_id == x.txn_id));
            assert forall|j: int| 0 <= j < rest.len() implies !((#[trigger] rest[j]).key == x.key
                && rest[j].txn_id == x.txn_id) by {
                assert(rest[j] == es[j]);
            }
        }
    }
}

/// The estimated size of a version: its key, its value and 34 bytes besides, or
/// the largest number where that does not fit.
pub proof fn law_estimated_size(e: EntryModel)
    ensures
        e.value is None && e.key.key.len() + 34 <= u64::MAX ==> estimated(e) == e.key.key.len()
            + 34,
        e.value is Some && e.key.key.len() + (e.value->0).len() + 34 <= u64::MAX ==> estimated(e)
            == e.key.key.len() + (e.value->0).len() + 34,
        e.key.key.len() + 34 > u64::MAX ==> estimated(e) == u64::MAX,
        e.value is Some && e.key.key.len() + (e.value->0).len() + 34 > u64::MAX ==> estimated(e)
            == u64::MAX,
{
}

/// How a write is logged: with a sync of its own where that is asked for,
/// waiting for the batch where there is one, and as it comes otherwise. What is
/// logged is the write itself.
pub proof fn law_logging_of_a_write(ms: u64, max_pending: usize, e: EntryModel)
    ensures
        log_mode(SyncLevel::Immediate) == LogMode::Durable,
        log_mode(SyncLevel::Batch { ms, max_pending }) == LogMode::Lazy,
        log_mode(SyncLevel::Async) == LogMode::BestEffort,
        put_record(e) == (RecordModel::Put { cf: e.key.cf, key: e.key.key, value: e.value }),
{
}

/// The index lists the patches of a column family under its number, and knows
/// none of a column family that it does not list.
pub proof fn law_index_lookup(s: Seq<CfPatches>, i: int, cf: u16)
    requires
        forall|a: int, b: int|
            0 <= a < b < s.len() ==> (#[trigger] s[a]).cf < (#[trigger] s[b]).cf,
    ensures
        0 <= i < s.len() ==> patches_in(s, s[i].cf) == Some(ref_models(s[i].patches@)),
        patches_in(s, cf) is Some <==> exists|a: int| 0 <= a < s.len() && (#[trigger] s[a]).cf == cf,
    decreases s.len(),
{
    if s.len() > 0 {
        let rest = s.drop_last();
        let n = s.len() - 1;
        assert(s[n] == s.last());
        assert forall|a: int, b: int| 0 <= a < b < rest.len() implies (#[trigger] rest[a]).cf < (
        #[trigger] rest[b]).cf by {
            assert(s[a].cf < s[b].cf);
        }
        law_index_lookup(rest, i, cf);
        if 0 <= i < n {
            assert(s[i].cf < s[n].cf);
            assert(rest[i] == s[i]);
        }
        if exists|a: int| 0 <= a < rest.len() && (#[trigger] rest[a]).cf == cf {
            let a = choose|a: int| 0 <= a < rest.len() && (#[trigger] rest[a]).cf == cf;
            assert(s[a].cf == cf);
        }
        if exists|a: int| 0 <= a < s.len() && (#[trigger] s[a]).cf == cf {
            let a = choose|a: int| 0 <= a < s.len() && (#[trigger] s[a]).cf == cf;
            if a < n {
                assert(rest[a].cf == cf);
            }
        }
    }
}

/// A list of newest versions: its keys ascend, every key that has a version is
/// on it, and each stands there with one of its versions that no other is newer
/// than.
pub proof fn law_listed_versions_are_newest(
    s: Seq<EntryModel>,
    list: Seq<(Seq<u8>, EntryModel)>,
    i: int,
    j: int,
)
    requires
        newest_listed(s, list),
    ensures
        0 <= i < j < list.len() ==> lex_lt(list[i].0, list[j].0),
        0 <= i < list.len() ==> s.contains(list[i].1) && list[i].1.key.key == list[i].0,
        0 <= i < list.len() && 0 <= j < s.len() && s[j].key.key == list[i].0 ==> s[j].txn_id
            <= list[i].1.txn_id,
        0 <= j < s.len() ==> exists|m: int|
            0 <= m < list.len() && (#[trigger] list[m]).0 == s[j].key.key,
{
    if 0 <= i < list.len() {
        let k = list[i].0;
        let mine = of_key(s, k);
        assert(first_newest(mine) == Some(list[i].1));
        lemma_first_newest(mine);
        lemma_of_key_contains(s, k, list[i].1);
        if 0 <= j < s.len() && s[j].key.key == k {
            assert(s.contains(s[j]));
            lemma_of_key_contains(s, k, s[j]);
            let m = choose|m: int| 0 <= m < mine.len() && mine[m] == s[j];
            assert(mine[m].txn_id <= list[i].1.txn_id);
        }
    }
    if 0 <= j < s.len() {
        assert(has_key(s, s[j].key.key));
    }
}

proof fn lemma_of_key_contains(s: Seq<EntryModel>, key: Seq<u8>, e: EntryModel)
    ensures
        of_key(s, key).contains(e) <==> s.contains(e) && e.key.key == key,
    decreases s.len(),
{
    if s.len() > 0 {
        let rest = s.drop_last();
        lemma_of_key_contains(rest, key, e);
        assert(s =~= rest.push(s.last()));
        lemma_push_members(rest, s.last(), e);
        if s.last().key.key == key {
            lemma_push_members(of_key(rest, key), s.last(), e);
        }
    }
}

/// A filter keeps the versions that it accepts, and no others.
pub proof fn law_filter_is_exact(s: Seq<EntryModel>, flags: Seq<bool>, e: EntryModel)
    requires
        flags.len() == s.len(),
    ensures
        flagged(s, flags).contains(e) <==> exists|i: int|
            0 <= i < s.len() && #[trigger] s[i] == e && flags[i],
    decreases s.len(),
{
    lemma_flagged(s, flags, e);
}

proof fn lemma_flagged(s: Seq<EntryModel>, flags: Seq<bool>, e: EntryModel)
    requires
        flags.len() >= s.len(),
    ensures
        flagged(s, flags).contains(e) <==> exists|i: int|
            0 <= i < s.len() && #[trigger] s[i] == e && flags[i],
    decreases s.len(),
{
    if s.len() > 0 {
        let rest = s.drop_last();
        let n = s.len() - 1;
        lemma_flagged(rest, flags, e);
        assert(s[n] == s.last());
        if exists|i: int| 0 <= i < rest.len() && #[trigger] rest[i] == e && flags[i] {
            let i = choose|i: int| 0 <= i < rest.len() && #[trigger] rest[i] == e && flags[i];
            assert(s[i] == e && flags[i]);
        }
        if exists|i: int| 0 <= i < s.len() && #[trigger] s[i] == e && flags[i] {
            let i = choose|i: int| 0 <= i < s.len() && #[trigger] s[i] == e && flags[i];
            if i < n {
                assert(rest[i] == e && flags[i]);
            }
        }
        if flags[n] {
            lemma_push_members(flagged(rest, flags), s.last(), e);
        }
    }
}

/// A new patch takes no name that is in use on either layer, and its number
/// follows the largest one.
pub proof fn law_new_patch_replaces_none(
    l2: DiskLayer,
    l3: DiskLayer,
    id: u64,
    i: int,
    j: int,
)
    requires
        is_first_free_patch(l2, l3, id),
    ensures
        0 <= i < l2.cfs@.len() && 0 <= j < l2.cfs@[i].patches@.len() ==> l2.cfs@[i].patches@[j].name@
            != patch_file(id),
        0 <= i < l3.cfs@.len() && 0 <= j < l3.cfs@[i].patches@.len() ==> l3.cfs@[i].patches@[j].name@
            != patch_file(id),
        id == 1 || (exists|a: int, b: int|
            0 <= a < l2.cfs@.len() && 0 <= b < l2.cfs@[a].patches@.len() && stem_number(
                (#[trigger] l2.cfs@[a].patches@[b]).name@,
            ) == Some((id - 1) as nat)) || (exists|a: int, b: int|
            0 <= a < l3.cfs@.len() && 0 <= b < l3.cfs@[a].patches@.len() && stem_number(
                (#[trigger] l3.cfs@[a].patches@[b]).name@,
            ) == Some((id - 1) as nat)),
{
    if 0 <= i < l2.cfs@.len() && 0 <= j < l2.cfs@[i].patches@.len() {
        law_fresh_patch_name(l2.cfs@[i].patches@[j].name@, id);
    }
    if 0 <= i < l3.cfs@.len() && 0 <= j < l3.cfs@[i].patches@.len() {
        law_fresh_patch_name(l3.cfs@[i].patches@[j].name@, id);
    }
}

/// The patch files of a directory: their numbers are those that its names
/// carry.
pub proof fn law_patch_files_are_found(names: Seq<Seq<char>>, n: u64)
    ensures
        patch_numbers(names).contains(n) <==> exists|i: int|
            0 <= i < names.len() && patch_number(#[trigger] names[i]) == Some(n as nat),
    decreases names.len(),
{
    if names.len() > 0 {
        let rest = names.drop_last();
        let k = names.len() - 1;
        law_patch_files_are_found(rest, n);
        assert(names[k] == names.last());
        let before = patch_numbers(rest);
        let now = patch_numbers(names);
        if before.contains(n) {
            let i = choose|i: int| 0 <= i < before.len() && before[i] == n;
            assert(now[i] == n);
            let j = choose|j: int|
                0 <= j < rest.len() && patch_number(#[trigger] rest[j]) == Some(n as nat);
            assert(patch_number(names[j]) == Some(n as nat));
        }
        if patch_number(names[k]) == Some(n as nat) {
            assert(now[now.len() - 1] == n);
        }
        if now.contains(n) && !before.contains(n) {
            let i = choose|i: int| 0 <= i < now.len() && now[i] == n;
            if i < before.len() {
                assert(before[i] == n);
            }
            assert(patch_number(names[k]) == Some(n as nat));
        }
        if exists|i: int|
            0 <= i < names.len() && patch_number(#[trigger] names[i]) == Some(n as nat) {
            let i = choose|i: int|
                0 <= i < names.len() && patch_number(#[trigger] names[i]) == Some(n as nat);
            if i < k {
                assert(patch_number(rest[i]) == Some(n as nat));
            }
        }
    }
}

/// A patch file: magic, version 4, and its entries as rows of key, value and
/// transaction, in order.
pub proof fn law_patch_file_layout(c: Seq<PatchModel>, i: int)
    ensures
        patch_bytes(c) == framed(
            seq![68u8, 76u8, 84u8, 48u8, 48u8, 52u8],
            4,
            encoded_rows(0, patch_rows(c)),
        ),
        patch_rows(c).len() == c.len(),
        0 <= i < c.len() ==> patch_rows(c)[i] == (c[i].key, c[i].value, c[i].txn_id),
{
}

} // verus!
