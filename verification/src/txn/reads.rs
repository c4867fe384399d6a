//! What a read depends on, and what it gives.

use crate::bytes::{lemma_lex_total, lex_lt};
use crate::codec::payload::vec_model;
use crate::mvcc::visibility::SnapshotModel;
use crate::store::disk::{covers, patch_list, ref_of, versions_in, RefModel};
use crate::store::flush::FlushEngine;
use crate::store::laws::{
    law_last_newest, law_layer_serves_exactly, law_patch_covers_exactly, law_pick_is_exact,
    law_range_is_half_open, law_read_waits_for_every_patch,
};
use crate::store::mem::l1_versions;
use crate::store::select::{
    first_newest, has_key, in_span, kept, last_newest, lemma_first_newest, lemma_last_newest,
    lemma_push_members, newest_listed, of_key, sight_of, Pick, Span,
};
use crate::store::types::{patch_le, EntryModel, KeyModel, PatchModel};
use crate::txn::engine::{
    candidates, live, needed, pairs_model, read_value, reads_key, reads_range, Read,
};
use crate::txn::laws::{holds_version, lemma_candidates, lemma_concat_members};
use crate::TxnId;
use vstd::prelude::*;

verus! {

/// A buffer holds what transaction `t` wrote to a key.
pub open spec fn in_buffer(
    s: Seq<EntryModel>,
    cf: u16,
    key: Seq<u8>,
    t: TxnId,
    value: Option<Seq<u8>>,
) -> bool {
    exists|i: int|
        0 <= i < s.len() && (#[trigger] s[i]).key.cf == cf && s[i].key.key == key && s[i].txn_id
            == t && s[i].value == value
}

/// A patch that is in memory holds what transaction `t` wrote to a key.
pub open spec fn in_patches(
    list: Seq<RefModel>,
    key: Seq<u8>,
    t: TxnId,
    value: Option<Seq<u8>>,
) -> bool {
    exists|i: int|
        0 <= i < list.len() && ((#[trigger] list[i]).content matches Some(c) && c.contains(
            PatchModel { key, value, txn_id: t },
        ))
}

/// A store holds what transaction `t` wrote to a key, on whatever layer.
pub open spec fn stored(
    st: FlushEngine,
    cf: u16,
    key: Seq<u8>,
    t: TxnId,
    value: Option<Seq<u8>>,
) -> bool {
    ||| in_buffer(st.l1.hot@, cf, key, t, value)
    ||| in_buffer(st.l1.cold@, cf, key, t, value)
    ||| in_buffer(st.l1.snapshot@, cf, key, t, value)
    ||| in_buffer(st.recent_flush.cache@, cf, key, t, value)
    ||| in_patches(patch_list(st.l2, cf), key, t, value)
    ||| in_patches(patch_list(st.l3, cf), key, t, value)
}

/// A snapshot sees transaction `t`: it lies at or below the snapshot, was not
/// active, and is known to have committed at or below the snapshot.
pub open spec fn seen(snap: SnapshotModel, t: TxnId) -> bool {
    &&& t <= snap.snapshot_id
    &&& !snap.active.contains(t)
    &&& snap.commits.contains_key(t)
    &&& snap.commits[t] <= snap.snapshot_id
}

/// Of all that a store holds of a key, `t` has written the newest that a
/// snapshot sees.
pub open spec fn wrote_newest(
    st: FlushEngine,
    snap: SnapshotModel,
    cf: u16,
    key: Seq<u8>,
    t: TxnId,
) -> bool {
    forall|u: TxnId, value: Option<Seq<u8>>| #[trigger]
        stored(st, cf, key, u, value) && seen(snap, u) ==> u <= t
}

proof fn lemma_in_buffer(s: Seq<EntryModel>, e: EntryModel)
    requires
        s.contains(e),
    ensures
        in_buffer(s, e.key.cf, e.key.key, e.txn_id, e.value),
{
    let i = choose|i: int| 0 <= i < s.len() && s[i] == e;
    assert(s[i].key.cf == e.key.cf);
}

/// What a read considers is stored and seen, and lies in its span.
proof fn lemma_considered_is_stored(
    st: FlushEngine,
    snap: SnapshotModel,
    cf: u16,
    span: Span,
    e: EntryModel,
)
    requires
        st.wf(),
        candidates(st, snap, cf, span).contains(e),
    ensures
        stored(st, cf, e.key.key, e.txn_id, e.value),
        seen(snap, e.txn_id),
        e.key.cf == cf,
        in_span(span, e.key.key),
{
    lemma_candidates(st, snap, cf, span, e);
    let l1 = l1_versions(st.l1);
    if l1.contains(e) {
        lemma_concat_members(st.l1.hot@ + st.l1.cold@, st.l1.snapshot@, e);
        lemma_concat_members(st.l1.hot@, st.l1.cold@, e);
        if st.l1.hot@.contains(e) {
            lemma_in_buffer(st.l1.hot@, e);
        } else if st.l1.cold@.contains(e) {
            lemma_in_buffer(st.l1.cold@, e);
        } else {
            lemma_in_buffer(st.l1.snapshot@, e);
        }
    } else if st.recent_flush.cache@.contains(e) {
        lemma_in_buffer(st.recent_flush.cache@, e);
    } else {
        law_layer_serves_exactly(cf, patch_list(st.l2, cf), span, e);
        law_layer_serves_exactly(cf, patch_list(st.l3, cf), span, e);
    }
}

/// A read considers everything in its span that is stored and seen.
proof fn lemma_stored_is_considered(
    st: FlushEngine,
    snap: SnapshotModel,
    cf: u16,
    span: Span,
    key: Seq<u8>,
    t: TxnId,
    value: Option<Seq<u8>>,
) -> (e: EntryModel)
    requires
        st.wf(),
        stored(st, cf, key, t, value),
        seen(snap, t),
        in_span(span, key),
    ensures
        candidates(st, snap, cf, span).contains(e),
        e.key.cf == cf,
        e.key.key == key,
        e.txn_id == t,
        e.value == value,
{
    let hot = st.l1.hot@;
    let cold = st.l1.cold@;
    let drained = st.l1.snapshot@;
    let cache = st.recent_flush.cache@;
    let e = if in_buffer(hot, cf, key, t, value) {
        let i = choose|i: int|
            0 <= i < hot.len() && (#[trigger] hot[i]).key.cf == cf && hot[i].key.key == key
                && hot[i].txn_id == t && hot[i].value == value;
        hot[i]
    } else if in_buffer(cold, cf, key, t, value) {
        let i = choose|i: int|
            0 <= i < cold.len() && (#[trigger] cold[i]).key.cf == cf && cold[i].key.key == key
                && cold[i].txn_id == t && cold[i].value == value;
        cold[i]
    } else if in_buffer(drained, cf, key, t, value) {
        let i = choose|i: int|
            0 <= i < drained.len() && (#[trigger] drained[i]).key.cf == cf && drained[i].key.key
                == key && drained[i].txn_id == t && drained[i].value == value;
        drained[i]
    } else if in_buffer(cache, cf, key, t, value) {
        let i = choose|i: int|
            0 <= i < cache.len() && (#[trigger] cache[i]).key.cf == cf && cache[i].key.key == key
                && cache[i].txn_id == t && cache[i].value == value;
        cache[i]
    } else {
        EntryModel { key: KeyModel { cf, key }, txn_id: t, value, ts: 0 }
    };
    lemma_concat_members(hot, cold, e);
    lemma_concat_members(hot + cold, drained, e);
    law_layer_serves_exactly(cf, patch_list(st.l2, cf), span, e);
    law_layer_serves_exactly(cf, patch_list(st.l3, cf), span, e);
    assert(holds_version(st, cf, span, e));
    lemma_candidates(st, snap, cf, span, e);
    e
}

/// A read that is done has every patch it depends on in memory, on both disk
/// layers; one that is not done asks for a patch that it depends on and that is
/// not in memory.
pub proof fn law_read_asks_until_complete(st: FlushEngine, cf: u16, span: Span)
    ensures
        needed(st, cf, span) is None <==> (forall|i: int|
            0 <= i < patch_list(st.l2, cf).len() && covers(#[trigger] patch_list(st.l2, cf)[i], span)
                ==> patch_list(st.l2, cf)[i].content is Some) && (forall|i: int|
            0 <= i < patch_list(st.l3, cf).len() && covers(#[trigger] patch_list(st.l3, cf)[i], span)
                ==> patch_list(st.l3, cf)[i].content is Some),
        needed(st, cf, span) is Some && (needed(st, cf, span)->0).0 is L2 ==> exists|i: int|
            0 <= i < patch_list(st.l2, cf).len() && (#[trigger] patch_list(st.l2, cf)[i]).name == (
            needed(st, cf, span)->0).1 && covers(patch_list(st.l2, cf)[i], span) && patch_list(
                st.l2,
                cf,
            )[i].content is None,
        needed(st, cf, span) is Some && (needed(st, cf, span)->0).0 is L3 ==> exists|i: int|
            0 <= i < patch_list(st.l3, cf).len() && (#[trigger] patch_list(st.l3, cf)[i]).name == (
            needed(st, cf, span)->0).1 && covers(patch_list(st.l3, cf)[i], span) && patch_list(
                st.l3,
                cf,
            )[i].content is None,
{
    law_read_waits_for_every_patch(patch_list(st.l2, cf), span);
    law_read_waits_for_every_patch(patch_list(st.l3, cf), span);
}

/// The range of a patch file that the index lists as it was written holds every
/// key of the file.
proof fn lemma_range_holds_its_keys(
    r: RefModel,
    name: Seq<char>,
    c: Seq<PatchModel>,
    p: PatchModel,
)
    requires
        r == ref_of(name, c),
        forall|a: int, b: int| 0 <= a <= b < c.len() ==> patch_le(#[trigger] c[a], #[trigger] c[b]),
        c.contains(p),
    ensures
        covers(r, Span::Key(p.key)),
{
    let i = choose|i: int| 0 <= i < c.len() && c[i] == p;
    assert(patch_le(c[0], c[i]));
    assert(patch_le(c[i], c[c.len() - 1]));
    law_patch_covers_exactly(r, p.key, p.key);
}

/// A point read that is done gives the newest version that the snapshot sees,
/// of all that the store holds of the key on any layer, loaded or not: a value
/// is that of the newest version; nothing means that no version is seen, or
/// that the newest is a tombstone.
pub proof fn law_read_is_complete(
    st: FlushEngine,
    snap: SnapshotModel,
    cf: u16,
    key: Seq<u8>,
    r: Read<Option<Vec<u8>>>,
)
    requires
        st.wf(),
        reads_key(st, snap, cf, key, r),
        r is Done,
    ensures
        vec_model(r->Done_0) is Some ==> exists|t: TxnId| #[trigger]
            stored(st, cf, key, t, vec_model(r->Done_0)) && seen(snap, t) && wrote_newest(
                st,
                snap,
                cf,
                key,
                t,
            ),
        vec_model(r->Done_0) is None ==> (forall|t: TxnId, value: Option<Seq<u8>>| #[trigger]
            stored(st, cf, key, t, value) ==> !seen(snap, t)) || exists|t: TxnId| #[trigger]
            stored(st, cf, key, t, None) && seen(snap, t) && wrote_newest(st, snap, cf, key, t),
        // what it has not loaded holds nothing of the key
        forall|i: int|
            0 <= i < patch_list(st.l2, cf).len() && (#[trigger] patch_list(st.l2, cf)[i]).content
                is None ==> lex_lt(key, patch_list(st.l2, cf)[i].min_key) || lex_lt(
                patch_list(st.l2, cf)[i].max_key,
                key,
            ),
        forall|i: int|
            0 <= i < patch_list(st.l3, cf).len() && (#[trigger] patch_list(st.l3, cf)[i]).content
                is None ==> lex_lt(key, patch_list(st.l3, cf)[i].min_key) || lex_lt(
                patch_list(st.l3, cf)[i].max_key,
                key,
            ),
{
    let span = Span::Key(key);
    let all = candidates(st, snap, cf, span);
    lemma_last_newest(all);
    if let Some(e) = last_newest(all) {
        lemma_considered_is_stored(st, snap, cf, span, e);
        assert(e.key.key == key);
        assert forall|u: TxnId, value: Option<Seq<u8>>| #[trigger]
            stored(st, cf, key, u, value) && seen(snap, u) implies u <= e.txn_id by {
            let x = lemma_stored_is_considered(st, snap, cf, span, key, u, value);
            let i = choose|i: int| 0 <= i < all.len() && all[i] == x;
            assert(all[i].txn_id <= e.txn_id);
        }
        assert(stored(st, cf, key, e.txn_id, e.value));
        assert(wrote_newest(st, snap, cf, key, e.txn_id));
    } else {
        assert forall|t: TxnId, value: Option<Seq<u8>>| #[trigger]
            stored(st, cf, key, t, value) implies !seen(snap, t) by {
            if seen(snap, t) {
                let x = lemma_stored_is_considered(st, snap, cf, span, key, t, value);
            }
        }
    }
    law_read_asks_until_complete(st, cf, span);
    assert forall|i: int|
        0 <= i < patch_list(st.l2, cf).len() && (#[trigger] patch_list(st.l2, cf)[i]).content
            is None implies lex_lt(key, patch_list(st.l2, cf)[i].min_key) || lex_lt(
        patch_list(st.l2, cf)[i].max_key,
        key,
    ) by {
        let p = patch_list(st.l2, cf)[i];
        law_patch_covers_exactly(p, key, key);
        lemma_lex_total(key, p.min_key);
        lemma_lex_total(key, p.max_key);
    }
    assert forall|i: int|
        0 <= i < patch_list(st.l3, cf).len() && (#[trigger] patch_list(st.l3, cf)[i]).content
            is None implies lex_lt(key, patch_list(st.l3, cf)[i].min_key) || lex_lt(
        patch_list(st.l3, cf)[i].max_key,
        key,
    ) by {
        let p = patch_list(st.l3, cf)[i];
        law_patch_covers_exactly(p, key, key);
        lemma_lex_total(key, p.min_key);
        lemma_lex_total(key, p.max_key);
    }
}

/// A patch file that holds an entry of the key, and that the index lists as it
/// was written, is in memory when a point read of the key is done.
pub proof fn law_done_read_has_loaded_its_patches(
    st: FlushEngine,
    snap: SnapshotModel,
    cf: u16,
    key: Seq<u8>,
    r: Read<Option<Vec<u8>>>,
    name: Seq<char>,
    c: Seq<PatchModel>,
    p: PatchModel,
    i: int,
)
    requires
        reads_key(st, snap, cf, key, r),
        forall|a: int, b: int| 0 <= a <= b < c.len() ==> patch_le(#[trigger] c[a], #[trigger] c[b]),
        c.contains(p),
        p.key == key,
    ensures
        0 <= i < patch_list(st.l2, cf).len() && patch_list(st.l2, cf)[i] == ref_of(name, c)
            ==> r is Need,
        0 <= i < patch_list(st.l3, cf).len() && patch_list(st.l3, cf)[i] == ref_of(name, c)
            ==> r is Need,
{
    law_read_asks_until_complete(st, cf, Span::Key(key));
    if 0 <= i < patch_list(st.l2, cf).len() && patch_list(st.l2, cf)[i] == ref_of(name, c) {
        lemma_range_holds_its_keys(patch_list(st.l2, cf)[i], name, c, p);
    }
    if 0 <= i < patch_list(st.l3, cf).len() && patch_list(st.l3, cf)[i] == ref_of(name, c) {
        lemma_range_holds_its_keys(patch_list(st.l3, cf)[i], name, c, p);
    }
}

/// Where several layers hold what the newest transaction wrote, a point read
/// takes it from the deepest of them: what L3 holds counts before L2, that
/// before the recent-flush cache, and that before L1.
pub proof fn law_deepest_layer_decides(
    st: FlushEngine,
    snap: SnapshotModel,
    cf: u16,
    key: Seq<u8>,
    t: TxnId,
    value: Option<Seq<u8>>,
)
    requires
        st.wf(),
        seen(snap, t),
        wrote_newest(st, snap, cf, key, t),
        ({
            let in_l3 = exists|v: Option<Seq<u8>>| #[trigger]
                in_patches(patch_list(st.l3, cf), key, t, v);
            let in_l2 = exists|v: Option<Seq<u8>>| #[trigger]
                in_patches(patch_list(st.l2, cf), key, t, v);
            if in_l3 {
                forall|v: Option<Seq<u8>>| #[trigger]
                    in_patches(patch_list(st.l3, cf), key, t, v) ==> v == value
            } else if in_l2 {
                forall|v: Option<Seq<u8>>| #[trigger]
                    in_patches(patch_list(st.l2, cf), key, t, v) ==> v == value
            } else {
                &&& in_buffer(st.recent_flush.cache@, cf, key, t, value)
                &&& forall|v: Option<Seq<u8>>| #[trigger]
                    in_buffer(st.recent_flush.cache@, cf, key, t, v) ==> v == value
            }
        }),
    ensures
        read_value(candidates(st, snap, cf, Span::Key(key))) == value,
{
    let span = Span::Key(key);
    let p = Pick { cf, span, sight: Some(sight_of(snap)) };
    let all = candidates(st, snap, cf, span);
    let a = kept(l1_versions(st.l1), p);
    let b = kept(st.recent_flush.cache@, p);
    let l2 = versions_in(cf, patch_list(st.l2, cf), span);
    let l3 = versions_in(cf, patch_list(st.l3, cf), span);
    let c = kept(l2, p);
    let d = kept(l3, p);
    let nb = a.len() as int;
    let nc = nb + b.len();
    let nd = nc + c.len();
    assert(all =~= a + b + c + d);
    let in_l3 = exists|v: Option<Seq<u8>>| #[trigger]
        in_patches(patch_list(st.l3, cf), key, t, v);
    let in_l2 = exists|v: Option<Seq<u8>>| #[trigger]
        in_patches(patch_list(st.l2, cf), key, t, v);
    // some candidate of the deepest layer that has one
    let q = if in_l3 {
        let v = choose|v: Option<Seq<u8>>| #[trigger]
            in_patches(patch_list(st.l3, cf), key, t, v);
        let e = EntryModel { key: KeyModel { cf, key }, txn_id: t, value: v, ts: 0 };
        law_layer_serves_exactly(cf, patch_list(st.l3, cf), span, e);
        law_pick_is_exact(l3, p, e);
        let k = choose|k: int| 0 <= k < d.len() && d[k] == e;
        assert(all[nd + k] == e);
        nd + k
    } else if in_l2 {
        let v = choose|v: Option<Seq<u8>>| #[trigger]
            in_patches(patch_list(st.l2, cf), key, t, v);
        let e = EntryModel { key: KeyModel { cf, key }, txn_id: t, value: v, ts: 0 };
        law_layer_serves_exactly(cf, patch_list(st.l2, cf), span, e);
        law_pick_is_exact(l2, p, e);
        let k = choose|k: int| 0 <= k < c.len() && c[k] == e;
        assert(all[nc + k] == e);
        nc + k
    } else {
        let cache = st.recent_flush.cache@;
        let i = choose|i: int|
            0 <= i < cache.len() && (#[trigger] cache[i]).key.cf == cf && cache[i].key.key == key
                && cache[i].txn_id == t && cache[i].value == value;
        let e = cache[i];
        assert(cache.contains(e));
        law_pick_is_exact(cache, p, e);
        let k = choose|k: int| 0 <= k < b.len() && b[k] == e;
        assert(all[nb + k] == e);
        nb + k
    };
    assert(0 <= q < all.len() && all[q].txn_id == t);
    law_last_newest(all);
    let i = choose|i: int|
        0 <= i < all.len() && last_newest(all) == Some(#[trigger] all[i]) && (forall|j: int|
            0 <= j < all.len() ==> (#[trigger] all[j]).txn_id <= all[i].txn_id) && (forall|j: int|
            i < j < all.len() ==> (#[trigger] all[j]).txn_id < all[i].txn_id);
    let e = all[i];
    assert(all.contains(e));
    lemma_considered_is_stored(st, snap, cf, span, e);
    assert(e.key.key == key);
    assert(stored(st, cf, key, e.txn_id, e.value));
    assert(e.txn_id <= t);
    assert(all[q].txn_id <= e.txn_id);
    assert(i >= q);
    if i >= nd {
        assert(e == d[i - nd]);
        assert(d.contains(e));
        law_pick_is_exact(l3, p, e);
        law_layer_serves_exactly(cf, patch_list(st.l3, cf), span, e);
        assert(in_patches(patch_list(st.l3, cf), key, t, e.value));
    } else if i >= nc {
        assert(e == c[i - nc]);
        assert(c.contains(e));
        law_pick_is_exact(l2, p, e);
        law_layer_serves_exactly(cf, patch_list(st.l2, cf), span, e);
        assert(in_patches(patch_list(st.l2, cf), key, t, e.value));
    } else {
        assert(e == b[i - nb]);
        assert(b.contains(e));
        law_pick_is_exact(st.recent_flush.cache@, p, e);
        lemma_in_buffer(st.recent_flush.cache@, e);
    }
}

proof fn lemma_of_key_has(s: Seq<EntryModel>, key: Seq<u8>, e: EntryModel)
    ensures
        of_key(s, key).contains(e) <==> s.contains(e) && e.key.key == key,
    decreases s.len(),
{
    if s.len() > 0 {
        let rest = s.drop_last();
        lemma_of_key_has(rest, key, e);
        assert(s =~= rest.push(s.last()));
        lemma_push_members(rest, s.last(), e);
        if s.last().key.key == key {
            lemma_push_members(of_key(rest, key), s.last(), e);
        }
    }
}

proof fn lemma_live_has(list: Seq<(Seq<u8>, EntryModel)>, k: Seq<u8>, v: Seq<u8>)
    ensures
        live(list).contains((k, v)) <==> exists|i: int|
            0 <= i < list.len() && (#[trigger] list[i]).0 == k && list[i].1.value == Some(v),
    decreases list.len(),
{
    let now = live(list);
    if list.len() > 0 {
        let rest = list.drop_last();
        let before = live(rest);
        let last = list.last();
        lemma_live_has(rest, k, v);
        assert(list[list.len() - 1] == last);
        if before.contains((k, v)) {
            let j = choose|j: int| 0 <= j < before.len() && before[j] == (k, v);
            assert(now[j] == (k, v));
            let i = choose|i: int|
                0 <= i < rest.len() && (#[trigger] rest[i]).0 == k && rest[i].1.value == Some(v);
            assert(list[i].0 == k && list[i].1.value == Some(v));
        }
        if last.0 == k && last.1.value == Some(v) {
            assert(now[now.len() - 1] == (k, v));
        }
        if now.contains((k, v)) && !before.contains((k, v)) {
            let j = choose|j: int| 0 <= j < now.len() && now[j] == (k, v);
            if j < before.len() {
                assert(before[j] == (k, v));
            }
        }
        if exists|i: int|
            0 <= i < list.len() && (#[trigger] list[i]).0 == k && list[i].1.value == Some(v) {
            let i = choose|i: int|
                0 <= i < list.len() && (#[trigger] list[i]).0 == k && list[i].1.value == Some(v);
            if i < rest.len() {
                assert(rest[i].0 == k);
            }
        }
    }
}

proof fn lemma_live_ascends(list: Seq<(Seq<u8>, EntryModel)>, a: int, b: int)
    requires
        forall|i: int, j: int|
            0 <= i < j < list.len() ==> lex_lt((#[trigger] list[i]).0, (#[trigger] list[j]).0),
        0 <= a < b < live(list).len(),
    ensures
        lex_lt(live(list)[a].0, live(list)[b].0),
    decreases list.len(),
{
    let rest = list.drop_last();
    let before = live(rest);
    assert forall|i: int, j: int| 0 <= i < j < rest.len() implies lex_lt(
        (#[trigger] rest[i]).0,
        (#[trigger] rest[j]).0,
    ) by {
        assert(lex_lt(list[i].0, list[j].0));
    }
    if b < before.len() {
        lemma_live_ascends(rest, a, b);
    } else {
        let (k, v) = before[a];
        assert(before.contains((k, v)));
        lemma_live_has(rest, k, v);
        let i = choose|i: int|
            0 <= i < rest.len() && (#[trigger] rest[i]).0 == k && rest[i].1.value == Some(v);
        assert(lex_lt(list[i].0, list[list.len() - 1].0));
    }
}

/// A scan that is done lists, ascending and each once, the keys from the start
/// on and before the end whose newest version that the snapshot sees is a
/// value, of all that the store holds on any layer; and it lists them with that
/// value. Every such key is listed, where the layers agree on what the newest
/// transaction wrote to it.
pub proof fn law_scan_is_complete(
    st: FlushEngine,
    snap: SnapshotModel,
    cf: u16,
    start: Seq<u8>,
    end: Option<Seq<u8>>,
    r: Read<Vec<(Vec<u8>, Vec<u8>)>>,
    key: Seq<u8>,
    value: Seq<u8>,
)
    requires
        st.wf(),
        reads_range(st, snap, cf, start, end, r),
        r is Done,
    ensures
        forall|a: int, b: int|
            0 <= a < b < pairs_model(r->Done_0@).len() ==> lex_lt(
                (#[trigger] pairs_model(r->Done_0@)[a]).0,
                (#[trigger] pairs_model(r->Done_0@)[b]).0,
            ),
        pairs_model(r->Done_0@).contains((key, value)) ==> {
            &&& key == start || lex_lt(start, key)
            &&& end is Some ==> lex_lt(key, end->0)
            &&& exists|t: TxnId| #[trigger]
                stored(st, cf, key, t, Some(value)) && seen(snap, t) && wrote_newest(
                    st,
                    snap,
                    cf,
                    key,
                    t,
                )
        },
        (key == start || lex_lt(start, key)) && (end is Some ==> lex_lt(key, end->0)) && (exists|
            t: TxnId,
        | #[trigger]
            stored(st, cf, key, t, Some(value)) && seen(snap, t) && wrote_newest(
                st,
                snap,
                cf,
                key,
                t,
            ) && forall|v: Option<Seq<u8>>| #[trigger]
                stored(st, cf, key, t, v) ==> v == Some(value))
            ==> pairs_model(r->Done_0@).contains((key, value)),
{
    let span = Span::Range(start, end);
    let all = candidates(st, snap, cf, span);
    let pairs = pairs_model(r->Done_0@);
    let list = choose|list: Seq<(Seq<u8>, EntryModel)>| #[trigger]
        newest_listed(all, list) && pairs == live(list);
    if let Some(x) = end {
        law_range_is_half_open(key, start, x);
    } else {
        law_range_is_half_open(key, start, start);
    }
    lemma_live_has(list, key, value);
    assert forall|a: int, b: int| 0 <= a < b < pairs.len() implies lex_lt(
        (#[trigger] pairs[a]).0,
        (#[trigger] pairs[b]).0,
    ) by {
        lemma_live_ascends(list, a, b);
    }
    let mine = of_key(all, key);
    if pairs.contains((key, value)) {
        let i = choose|i: int|
            0 <= i < list.len() && (#[trigger] list[i]).0 == key && list[i].1.value == Some(value);
        let e = list[i].1;
        assert(first_newest(of_key(all, list[i].0)) == Some(e));
        lemma_first_newest(mine);
        lemma_of_key_has(all, key, e);
        lemma_considered_is_stored(st, snap, cf, span, e);
        assert forall|u: TxnId, v: Option<Seq<u8>>| #[trigger]
            stored(st, cf, key, u, v) && seen(snap, u) implies u <= e.txn_id by {
            let x = lemma_stored_is_considered(st, snap, cf, span, key, u, v);
            lemma_of_key_has(all, key, x);
            let j = choose|j: int| 0 <= j < mine.len() && mine[j] == x;
            assert(mine[j].txn_id <= e.txn_id);
        }
        assert(stored(st, cf, key, e.txn_id, Some(value)));
    }
    if (key == start || lex_lt(start, key)) && (end is Some ==> lex_lt(key, end->0)) && (exists|
        t: TxnId,
    | #[trigger]
        stored(st, cf, key, t, Some(value)) && seen(snap, t) && wrote_newest(st, snap, cf, key, t)
            && forall|v: Option<Seq<u8>>| #[trigger]
            stored(st, cf, key, t, v) ==> v == Some(value)) {
        let t = choose|t: TxnId| #[trigger]
            stored(st, cf, key, t, Some(value)) && seen(snap, t) && wrote_newest(
                st,
                snap,
                cf,
                key,
                t,
            ) && forall|v: Option<Seq<u8>>| #[trigger]
                stored(st, cf, key, t, v) ==> v == Some(value);
        let x = lemma_stored_is_considered(st, snap, cf, span, key, t, Some(value));
        lemma_of_key_has(all, key, x);
        let n = choose|n: int| 0 <= n < all.len() && all[n] == x;
        assert(all[n].key.key == key);
        assert(has_key(all, key));
        let i = choose|i: int| 0 <= i < list.len() && (#[trigger] list[i]).0 == key;
        let e = list[i].1;
        assert(first_newest(of_key(all, list[i].0)) == Some(e));
        lemma_first_newest(mine);
        lemma_of_key_has(all, key, e);
        lemma_considered_is_stored(st, snap, cf, span, e);
        assert(stored(st, cf, key, e.txn_id, e.value));
        assert(e.txn_id <= t);
        let j = choose|j: int| 0 <= j < mine.len() && mine[j] == x;
        assert(mine[j].txn_id <= e.txn_id);
        assert(e.value == Some(value));
    }
}

/// A read is done if and only if nothing that it depends on is missing. One
/// that is not done asks for a patch of the column family that the index of the
/// layer lists, that the read depends on, and that is not in memory.
pub proof fn law_unfinished_read_names_what_it_needs(
    st: FlushEngine,
    snap: SnapshotModel,
    cf: u16,
    key: Seq<u8>,
    r: Read<Option<Vec<u8>>>,
    end: Option<Seq<u8>>,
    scan: Read<Vec<(Vec<u8>, Vec<u8>)>>,
)
    requires
        reads_key(st, snap, cf, key, r),
        reads_range(st, snap, cf, key, end, scan),
    ensures
        r is Done <==> needed(st, cf, Span::Key(key)) is None,
        scan is Done <==> needed(st, cf, Span::Range(key, end)) is None,
        r is Need ==> r->Need_cf == cf,
        scan is Need ==> scan->Need_cf == cf,
        r is Need && r->Need_layer is L2 ==> exists|i: int|
            0 <= i < patch_list(st.l2, cf).len() && (#[trigger] patch_list(st.l2, cf)[i]).name
                == r->Need_name@ && covers(patch_list(st.l2, cf)[i], Span::Key(key)) && patch_list(
                st.l2,
                cf,
            )[i].content is None,
        r is Need && r->Need_layer is L3 ==> exists|i: int|
            0 <= i < patch_list(st.l3, cf).len() && (#[trigger] patch_list(st.l3, cf)[i]).name
                == r->Need_name@ && covers(patch_list(st.l3, cf)[i], Span::Key(key)) && patch_list(
                st.l3,
                cf,
            )[i].content is None,
        scan is Need && scan->Need_layer is L2 ==> exists|i: int|
            0 <= i < patch_list(st.l2, cf).len() && (#[trigger] patch_list(st.l2, cf)[i]).name
                == scan->Need_name@ && covers(patch_list(st.l2, cf)[i], Span::Range(key, end))
                && patch_list(st.l2, cf)[i].content is None,
        scan is Need && scan->Need_layer is L3 ==> exists|i: int|
            0 <= i < patch_list(st.l3, cf).len() && (#[trigger] patch_list(st.l3, cf)[i]).name
                == scan->Need_name@ && covers(patch_list(st.l3, cf)[i], Span::Range(key, end))
                && patch_list(st.l3, cf)[i].content is None,
{
    law_read_asks_until_complete(st, cf, Span::Key(key));
    law_read_asks_until_complete(st, cf, Span::Range(key, end));
}

} // verus!
