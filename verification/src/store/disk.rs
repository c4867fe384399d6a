//! The disk patch layers, L2 and L3.
//!
//! Patches lie in files `{root}/{cf:04x}/{patch_id:016}.zpatch`. In memory a
//! layer keeps an index of them: for every column family its patch files,
//! sorted by their smallest key, each with its key range. A read looks only
//! at patches whose range can hold a key it asks for.
//!
//! Patches never change, so a patch that was read once stays in memory. A
//! read that needs a patch not yet in memory says so, and the caller hands
//! the file's bytes in with [`DiskLayer::install`] and reads again.

use crate::bytes::{
    bytes_lt, copy_bytes, lemma_lex_irreflexive, lemma_lex_total, lemma_lex_transitive, lex_le,
    lex_lt,
};
use crate::codec::disk_format::{
    frame_fault, frame_message, frame_payload, framed, is_oversize, lemma_frame_is_sound,
    DiskFormat,
};
use crate::error::{IoError, Result, Z1Error};
use crate::sort::{stably_sorted, Ranked};
use crate::store::select::{
    end_model, in_span, kept, key_in_range, lemma_kept_push, list_model, newest_listed,
    newest_per_key, Pick, Span,
};
use crate::store::types::{
    entry_models, is_max_txn, is_min_txn, lemma_entry_models_push, patch_models, share_value,
    EntryModel, KeyModel, PatchEntry, PatchModel, PatchZoneMap, Z1Entry, Z1Key, Z1Patch,
    Z1PatchFormatV4,
};
use crate::text::{
    before_suffix, copy_str, hex_fixed, lemma_hex_fixed_round_trip, lemma_zero_padded_round_trip,
    parse_hex_u16, parse_number, parse_u64, push_hex_fixed, push_zero_padded, str_eq, strip_suffix,
    zero_padded,
};
use crate::wal::names::name_models;
use crate::TxnId;
use vstd::prelude::*;
use vstd::string::StrSliceExecFns;

verus! {

/// A patch file in the index.
#[derive(Debug)]
pub struct PatchRef {
    pub min_key: Vec<u8>,
    pub max_key: Vec<u8>,
    /// The largest transaction in the patch; 0 for an empty one.
    pub max_txn: TxnId,
    pub name: String,
    /// The entries, once the file was read.
    pub content: Option<Vec<PatchEntry>>,
}

/// A patch file in the index, as a mathematical value.
#[verifier::ext_equal]
pub struct RefModel {
    pub min_key: Seq<u8>,
    pub max_key: Seq<u8>,
    pub max_txn: TxnId,
    pub name: Seq<char>,
    pub content: Option<Seq<PatchModel>>,
}

impl View for PatchRef {
    type V = RefModel;

    open spec fn view(&self) -> RefModel {
        RefModel {
            min_key: self.min_key@,
            max_key: self.max_key@,
            max_txn: self.max_txn,
            name: self.name@,
            content: match self.content {
                Some(c) => Some(patch_models(c@)),
                None => None,
            },
        }
    }
}

pub open spec fn ref_models(s: Seq<PatchRef>) -> Seq<RefModel> {
    s.map_values(|r: PatchRef| r@)
}

/// The patch files of a column family.
#[derive(Debug)]
pub struct CfPatches {
    pub cf: u16,
    pub patches: Vec<PatchRef>,
}

/// A disk patch layer.
#[derive(Debug)]
pub struct DiskLayer {
    pub root_dir: String,
    /// By ascending column family.
    pub cfs: Vec<CfPatches>,
}

/// The patch files of a column family; nothing where it is not in the layer.
pub open spec fn patches_in(s: Seq<CfPatches>, cf: u16) -> Option<Seq<RefModel>>
    decreases s.len(),
{
    if s.len() == 0 {
        None
    } else if s.last().cf == cf {
        Some(ref_models(s.last().patches@))
    } else {
        patches_in(s.drop_last(), cf)
    }
}

pub open spec fn cfs_ascend(s: Seq<CfPatches>) -> bool {
    forall|i: int, j: int| 0 <= i < j < s.len() ==> (#[trigger] s[i]).cf < (#[trigger] s[j]).cf
}

/// By smallest key.
pub open spec fn refs_sorted(s: Seq<RefModel>) -> bool {
    forall|i: int, j: int|
        0 <= i < j < s.len() ==> lex_le((#[trigger] s[i]).min_key, (#[trigger] s[j]).min_key)
}

/// `s` with `r` in its place, after those with the same smallest key.
pub open spec fn placed(s: Seq<RefModel>, r: RefModel) -> Seq<RefModel>
    decreases s.len(),
{
    if s.len() == 0 {
        seq![r]
    } else if lex_lt(r.min_key, s.last().min_key) {
        placed(s.drop_last(), r).push(s.last())
    } else {
        s.push(r)
    }
}

/// The range of a patch can hold a key of the span.
pub open spec fn covers(r: RefModel, span: Span) -> bool {
    match span {
        Span::Key(k) => !lex_lt(k, r.min_key) && !lex_lt(r.max_key, k),
        Span::Range(start, end) => !lex_lt(r.max_key, start) && (end matches Some(e) ==> lex_lt(
            r.min_key,
            e,
        )),
    }
}

/// Every key of a column family.
pub open spec fn everything() -> Span {
    Span::Range(Seq::empty(), None)
}

/// A patch entry as a version. Patches hold no wall-clock time.
pub open spec fn as_entry(cf: u16, p: PatchModel) -> EntryModel {
    EntryModel { key: KeyModel { cf, key: p.key }, txn_id: p.txn_id, value: p.value, ts: 0 }
}

pub open spec fn as_entries(cf: u16, s: Seq<PatchModel>) -> Seq<EntryModel> {
    s.map_values(|p: PatchModel| as_entry(cf, p))
}

/// The first patch that a read needs and that is not in memory.
pub open spec fn missing(s: Seq<RefModel>, span: Span) -> Option<Seq<char>>
    decreases s.len(),
{
    if s.len() == 0 {
        None
    } else {
        match missing(s.drop_last(), span) {
            Some(name) => Some(name),
            None => if covers(s.last(), span) && s.last().content is None {
                Some(s.last().name)
            } else {
                None
            },
        }
    }
}

/// The versions that a patch contributes to a read.
pub open spec fn versions_of(cf: u16, r: RefModel, span: Span) -> Seq<EntryModel> {
    match r.content {
        Some(c) => if covers(r, span) {
            kept(as_entries(cf, c), Pick { cf, span, sight: None })
        } else {
            Seq::empty()
        },
        None => Seq::empty(),
    }
}

/// The versions that patches contribute to a read, in the order of the index.
pub open spec fn versions_in(cf: u16, s: Seq<RefModel>, span: Span) -> Seq<EntryModel>
    decreases s.len(),
{
    if s.len() == 0 {
        Seq::empty()
    } else {
        versions_in(cf, s.drop_last(), span) + versions_of(cf, s.last(), span)
    }
}

/// The patch files of a column family, none where it is not in the layer.
pub open spec fn patch_list(l: DiskLayer, cf: u16) -> Seq<RefModel> {
    match patches_in(l.cfs@, cf) {
        Some(s) => s,
        None => Seq::empty(),
    }
}

/// The result of a read of a layer.
#[derive(Debug)]
pub enum LayerRead<T> {
    Done(T),
    /// The patch file of this name is needed first.
    Need(String),
}

/// The keys that a read asks for.
pub enum KeySpan<'a> {
    Key(&'a [u8]),
    Range(&'a [u8], Option<&'a [u8]>),
}

impl<'a> View for KeySpan<'a> {
    type V = Span;

    open spec fn view(&self) -> Span {
        match *self {
            KeySpan::Key(k) => Span::Key(k@),
            KeySpan::Range(start, end) => Span::Range(start@, end_model(end)),
        }
    }
}

/// What reading a patch file has come to.
#[derive(Debug)]
pub enum FileRead {
    Bytes(Vec<u8>),
    NotFound,
    Failed(IoError),
}

/// A patch ready to be written.
#[derive(Debug)]
pub struct PatchWrite {
    pub cf: u16,
    pub name: String,
    pub bytes: Vec<u8>,
    pub patch: Z1Patch,
}

/// The name of a patch file.
pub open spec fn patch_file(id: u64) -> Seq<char> {
    zero_padded(id as nat, 16) + ".zpatch"@
}

/// The number of the patch file of this name.
pub open spec fn patch_number(name: Seq<char>) -> Option<nat> {
    match before_suffix(name, ".zpatch"@) {
        Some(stem) => parse_number(stem, 10, u64::MAX as nat),
        None => None,
    }
}

/// The name without its extension: what stands before the last dot, unless
/// there is none or the name starts with its only one.
pub open spec fn file_stem(name: Seq<char>) -> Seq<char> {
    let at = last_dot(name, name.len());
    if at > 0 {
        name.take(at)
    } else {
        name
    }
}

/// Where the last dot before `n` stands; -1 where there is none.
pub open spec fn last_dot(name: Seq<char>, n: nat) -> int
    decreases n,
{
    if n == 0 {
        -1
    } else if name[n - 1] == '.' {
        n - 1
    } else {
        last_dot(name, (n - 1) as nat)
    }
}

/// The number that a file name carries before its extension.
pub open spec fn stem_number(name: Seq<char>) -> Option<nat> {
    parse_number(file_stem(name), 10, u64::MAX as nat)
}

/// The column family that a directory name stands for: four hexadecimal
/// digits.
pub open spec fn cf_of_dir(name: Seq<char>) -> Option<nat> {
    if name.len() == 4 {
        parse_number(name, 16, u16::MAX as nat)
    } else {
        None
    }
}

/// The name of a patch file.
pub fn patch_name(id: u64) -> (r: String)
    ensures
        r@ == patch_file(id),
{
    let mut s = String::new();
    push_zero_padded(&mut s, id, 16);
    s.append(".zpatch");
    assert(s@ =~= patch_file(id));
    s
}

/// The name of the directory of a column family.
pub fn cf_dir_name(cf: u16) -> (r: String)
    ensures
        r@ == hex_fixed(cf as nat, 4),
{
    let mut s = String::new();
    push_hex_fixed(&mut s, cf as u32, 4);
    assert(s@ =~= hex_fixed(cf as nat, 4));
    s
}

/// The column family that a directory name stands for.
pub fn parse_cf_dir(name: &str) -> (r: Option<u16>)
    ensures
        match (r, cf_of_dir(name@)) {
            (Some(v), Some(w)) => v == w,
            (None, None) => true,
            _ => false,
        },
{
    if name.unicode_len() != 4 {
        return None;
    }
    parse_hex_u16(name)
}

/// The number that a file name carries before its extension.
fn parse_stem(name: &str) -> (r: Option<u64>)
    ensures
        match (r, stem_number(name@)) {
            (Some(v), Some(w)) => v == w,
            (None, None) => true,
            _ => false,
        },
{
    let n: usize = name.unicode_len();
    let mut i: usize = n;
    while i > 0 && name.get_char(i - 1) != '.'
        invariant
            i <= n,
            n == name@.len(),
            last_dot(name@, n as nat) == last_dot(name@, i as nat),
        decreases i,
    {
        i = i - 1;
    }
    if i > 1 {
        let stem = name.substring_char(0, i - 1);
        assert(stem@ =~= name@.take(i - 1));
        parse_u64(stem)
    } else {
        parse_u64(name)
    }
}

/// The numbers of the patch files among the names of a directory.
pub open spec fn patch_numbers(names: Seq<Seq<char>>) -> Seq<u64>
    decreases names.len(),
{
    if names.len() == 0 {
        Seq::empty()
    } else {
        match patch_number(names.last()) {
            Some(n) => patch_numbers(names.drop_last()).push(n as u64),
            None => patch_numbers(names.drop_last()),
        }
    }
}

/// The numbers of the patch files among the names of a directory.
pub fn patch_ids(names: &Vec<String>) -> (r: Vec<u64>)
    ensures
        r@ == patch_numbers(name_models(names@)),
{
    let mut out: Vec<u64> = Vec::new();
    let ghost all = name_models(names@);
    let mut i: usize = 0;
    assert(all.take(0) =~= Seq::<Seq<char>>::empty());
    while i < names.len()
        invariant
            i <= names@.len(),
            all == name_models(names@),
            out@ == patch_numbers(all.take(i as int)),
        decreases names@.len() - i,
    {
        proof {
            assert(all.take(i + 1).drop_last() =~= all.take(i as int));
            assert(all.take(i + 1).last() == names@[i as int]@);
        }
        if let Some(stem) = strip_suffix(names[i].as_str(), ".zpatch") {
            if let Some(id) = parse_u64(stem) {
                out.push(id);
            }
        }
        i = i + 1;
    }
    assert(all.take(i as int) =~= all);
    out
}

fn span_covers(r: &PatchRef, span: &KeySpan<'_>) -> (b: bool)
    ensures
        b == covers(r@, span@),
{
    match span {
        KeySpan::Key(k) => !bytes_lt(*k, r.min_key.as_slice()) && !bytes_lt(
            r.max_key.as_slice(),
            *k,
        ),
        KeySpan::Range(start, end) => {
            if bytes_lt(r.max_key.as_slice(), *start) {
                return false;
            }
            match end {
                Some(e) => bytes_lt(r.min_key.as_slice(), *e),
                None => true,
            }
        },
    }
}

fn span_holds(key: &[u8], span: &KeySpan<'_>) -> (b: bool)
    ensures
        b == in_span(span@, key@),
{
    match span {
        KeySpan::Key(k) => crate::bytes::bytes_eq(key, *k),
        KeySpan::Range(start, end) => key_in_range(key, *start, *end),
    }
}

/// Append the versions of a patch that lie in a span.
fn collect_patch(out: &mut Vec<Z1Entry>, cf: u16, content: &Vec<PatchEntry>, span: &KeySpan<'_>)
    ensures
        entry_models(final(out)@) == entry_models(old(out)@) + kept(
            as_entries(cf, patch_models(content@)),
            Pick { cf, span: span@, sight: None },
        ),
{
    let ghost p = Pick { cf, span: span@, sight: None };
    let ghost before = entry_models(out@);
    let ghost all = as_entries(cf, patch_models(content@));
    let mut i: usize = 0;
    assert(all.take(0) =~= Seq::<EntryModel>::empty());
    assert(before + kept(all.take(0), p) =~= before);
    while i < content.len()
        invariant
            i <= content@.len(),
            all == as_entries(cf, patch_models(content@)),
            p == (Pick { cf, span: span@, sight: None }),
            entry_models(out@) == before + kept(all.take(i as int), p),
        decreases content@.len() - i,
    {
        let pe = &content[i];
        let ghost e = as_entry(cf, pe@);
        let ghost out0 = out@;
        proof {
            assert(all.take(i + 1) =~= all.take(i as int).push(e));
            lemma_kept_push(all.take(i as int), e, p);
        }
        if span_holds(pe.key.as_slice(), span) {
            let c = Z1Entry {
                key: Z1Key::new(cf, copy_bytes(pe.key.as_slice())),
                txn_id: pe.txn_id,
                value: share_value(&pe.value),
                ts: 0,
            };
            out.push(c);
            proof {
                lemma_entry_models_push(out0, c);
                assert(c@ == e);
                assert(p.admits(e));
                assert(entry_models(out@) =~= before + kept(all.take(i + 1), p));
            }
        } else {
            assert(!p.admits(e));
        }
        i = i + 1;
    }
    assert(all.take(i as int) =~= all);
}

proof fn lemma_patches_at(s: Seq<CfPatches>, i: int)
    requires
        cfs_ascend(s),
        0 <= i < s.len(),
    ensures
        patches_in(s, s[i].cf) == Some(ref_models(s[i].patches@)),
    decreases s.len(),
{
    if i < s.len() - 1 {
        let rest = s.drop_last();
        assert(s[i].cf < s[s.len() - 1].cf);
        assert(rest[i] == s[i]);
        lemma_ascend_drop(s);
        lemma_patches_at(rest, i);
    }
}

proof fn lemma_ascend_drop(s: Seq<CfPatches>)
    requires
        cfs_ascend(s),
        s.len() > 0,
    ensures
        cfs_ascend(s.drop_last()),
{
    let rest = s.drop_last();
    assert forall|i: int, j: int| 0 <= i < j < rest.len() implies (#[trigger] rest[i]).cf < (
    #[trigger] rest[j]).cf by {
        assert(s[i].cf < s[j].cf);
    }
}

proof fn lemma_patches_none(s: Seq<CfPatches>, cf: u16)
    ensures
        patches_in(s, cf) is None <==> forall|i: int| 0 <= i < s.len() ==> (#[trigger] s[i]).cf != cf,
    decreases s.len(),
{
    if s.len() > 0 {
        let rest = s.drop_last();
        lemma_patches_none(rest, cf);
        if patches_in(s, cf) is None {
            assert forall|i: int| 0 <= i < s.len() implies (#[trigger] s[i]).cf != cf by {
                if i < rest.len() {
                    assert(rest[i].cf != cf);
                }
            }
        } else if s.last().cf == cf {
            assert(s[s.len() - 1].cf == cf);
        } else {
            let i = choose|i: int| 0 <= i < rest.len() && (#[trigger] rest[i]).cf == cf;
            assert(s[i].cf == cf);
        }
    }
}

/// Changing the patches of one column family leaves the others alone.
proof fn lemma_patches_update(s: Seq<CfPatches>, i: int, c: CfPatches)
    requires
        cfs_ascend(s),
        0 <= i < s.len(),
        c.cf == s[i].cf,
    ensures
        cfs_ascend(s.update(i, c)),
        patches_in(s.update(i, c), c.cf) == Some(ref_models(c.patches@)),
        forall|d: u16| d != c.cf ==> #[trigger] patches_in(s.update(i, c), d) == patches_in(s, d),
{
    let t = s.update(i, c);
    assert(cfs_ascend(t)) by {
        assert forall|a: int, b: int| 0 <= a < b < t.len() implies (#[trigger] t[a]).cf < (
        #[trigger] t[b]).cf by {
            assert(s[a].cf < s[b].cf);
        }
    }
    lemma_patches_at(t, i);
    assert forall|d: u16| d != c.cf implies #[trigger] patches_in(t, d) == patches_in(s, d) by {
        lemma_patches_update_other(s, i, c, d);
    }
}

proof fn lemma_patches_update_other(s: Seq<CfPatches>, i: int, c: CfPatches, d: u16)
    requires
        0 <= i < s.len(),
        c.cf == s[i].cf,
        d != c.cf,
    ensures
        patches_in(s.update(i, c), d) == patches_in(s, d),
    decreases s.len(),
{
    let t = s.update(i, c);
    if i == s.len() - 1 {
        assert(t.drop_last() =~= s.drop_last());
    } else {
        assert(t.drop_last() =~= s.drop_last().update(i, c));
        assert(t.last() == s.last());
        lemma_patches_update_other(s.drop_last(), i, c, d);
    }
}

/// A new column family.
proof fn lemma_patches_insert(s: Seq<CfPatches>, p: int, c: CfPatches)
    requires
        cfs_ascend(s),
        0 <= p <= s.len(),
        forall|i: int| 0 <= i < p ==> (#[trigger] s[i]).cf < c.cf,
        forall|i: int| p <= i < s.len() ==> c.cf < (#[trigger] s[i]).cf,
    ensures
        cfs_ascend(s.insert(p, c)),
        patches_in(s.insert(p, c), c.cf) == Some(ref_models(c.patches@)),
        forall|d: u16| d != c.cf ==> #[trigger] patches_in(s.insert(p, c), d) == patches_in(s, d),
{
    let t = s.insert(p, c);
    assert(cfs_ascend(t)) by {
        assert forall|a: int, b: int| 0 <= a < b < t.len() implies (#[trigger] t[a]).cf < (
        #[trigger] t[b]).cf by {
            let x = if a < p {
                a
            } else {
                a - 1
            };
            let y = if b < p {
                b
            } else {
                b - 1
            };
            if a != p {
                assert(t[a] == s[x]);
            }
            if b != p {
                assert(t[b] == s[y]);
            }
            if a != p && b != p {
                assert(s[x].cf < s[y].cf);
            }
        }
    }
    assert(t[p] == c);
    lemma_patches_at(t, p);
    assert forall|d: u16| d != c.cf implies #[trigger] patches_in(t, d) == patches_in(s, d) by {
        lemma_patches_insert_other(s, p, c, d);
    }
}

proof fn lemma_patches_insert_other(s: Seq<CfPatches>, p: int, c: CfPatches, d: u16)
    requires
        0 <= p <= s.len(),
        d != c.cf,
    ensures
        patches_in(s.insert(p, c), d) == patches_in(s, d),
    decreases s.len(),
{
    let t = s.insert(p, c);
    if p == s.len() {
        assert(t.drop_last() =~= s);
    } else {
        assert(t.drop_last() =~= s.drop_last().insert(p, c));
        assert(t.last() == s.last());
        lemma_patches_insert_other(s.drop_last(), p, c, d);
    }
}

/// Taking a column family out.
proof fn lemma_patches_remove(s: Seq<CfPatches>, p: int)
    requires
        cfs_ascend(s),
        0 <= p < s.len(),
    ensures
        cfs_ascend(s.remove(p)),
        patches_in(s.remove(p), s[p].cf) is None,
        forall|d: u16| d != s[p].cf ==> #[trigger] patches_in(s.remove(p), d) == patches_in(s, d),
{
    let t = s.remove(p);
    assert(cfs_ascend(t)) by {
        assert forall|a: int, b: int| 0 <= a < b < t.len() implies (#[trigger] t[a]).cf < (
        #[trigger] t[b]).cf by {
            let x = if a < p {
                a
            } else {
                a + 1
            };
            let y = if b < p {
                b
            } else {
                b + 1
            };
            assert(t[a] == s[x] && t[b] == s[y]);
            assert(s[x].cf < s[y].cf);
        }
    }
    assert forall|i: int| 0 <= i < t.len() implies (#[trigger] t[i]).cf != s[p].cf by {
        if i < p {
            assert(t[i] == s[i]);
            assert(s[i].cf < s[p].cf);
        } else {
            assert(t[i] == s[i + 1]);
            assert(s[p].cf < s[i + 1].cf);
        }
    }
    lemma_patches_none(t, s[p].cf);
    assert forall|d: u16| d != s[p].cf implies #[trigger] patches_in(t, d) == patches_in(s, d) by {
        lemma_patches_remove_other(s, p, d);
    }
}

proof fn lemma_patches_remove_other(s: Seq<CfPatches>, p: int, d: u16)
    requires
        0 <= p < s.len(),
        d != s[p].cf,
    ensures
        patches_in(s.remove(p), d) == patches_in(s, d),
    decreases s.len(),
{
    let t = s.remove(p);
    if p == s.len() - 1 {
        assert(t =~= s.drop_last());
    } else {
        assert(t.drop_last() =~= s.drop_last().remove(p));
        assert(t.last() == s.last());
        lemma_patches_remove_other(s.drop_last(), p, d);
    }
}

/// Where a patch belongs in the index.
proof fn lemma_placed_at(s: Seq<RefModel>, r: RefModel, p: int)
    requires
        0 <= p <= s.len(),
        p > 0 ==> !lex_lt(r.min_key, s[p - 1].min_key),
        forall|i: int| p <= i < s.len() ==> lex_lt(r.min_key, (#[trigger] s[i]).min_key),
    ensures
        placed(s, r) == s.insert(p, r),
    decreases s.len(),
{
    if s.len() == 0 {
        assert(s.insert(p, r) =~= seq![r]);
    } else if p == s.len() {
        assert(s.insert(p, r) =~= s.push(r));
    } else {
        let rest = s.drop_last();
        assert(lex_lt(r.min_key, s[s.len() - 1].min_key));
        assert forall|i: int| p <= i < rest.len() implies lex_lt(
            r.min_key,
            (#[trigger] rest[i]).min_key,
        ) by {
            assert(lex_lt(r.min_key, s[i].min_key));
        }
        lemma_placed_at(rest, r, p);
        assert(s.insert(p, r) =~= rest.insert(p, r).push(s.last()));
    }
}

/// The index stays sorted.
pub proof fn lemma_placed_sorted(s: Seq<RefModel>, r: RefModel)
    requires
        refs_sorted(s),
    ensures
        refs_sorted(placed(s, r)),
        placed(s, r).len() == s.len() + 1,
        forall|x: RefModel| #[trigger] placed(s, r).contains(x) <==> s.contains(x) || x == r,
    decreases s.len(),
{
    let out = placed(s, r);
    if s.len() == 0 {
        assert forall|x: RefModel| #[trigger] out.contains(x) <==> s.contains(x) || x == r by {
            assert(out[0] == r);
        }
    } else if lex_lt(r.min_key, s.last().min_key) {
        let rest = s.drop_last();
        assert(refs_sorted(rest)) by {
            assert forall|i: int, j: int| 0 <= i < j < rest.len() implies lex_le(
                (#[trigger] rest[i]).min_key,
                (#[trigger] rest[j]).min_key,
            ) by {
                assert(lex_le(s[i].min_key, s[j].min_key));
            }
        }
        lemma_placed_sorted(rest, r);
        let mid = placed(rest, r);
        assert forall|i: int, j: int| 0 <= i < j < out.len() implies lex_le(
            (#[trigger] out[i]).min_key,
            (#[trigger] out[j]).min_key,
        ) by {
            if j < mid.len() {
                assert(out[i] == mid[i] && out[j] == mid[j]);
            } else {
                assert(out[i] == mid[i]);
                assert(mid.contains(mid[i]));
                if mid[i] != r {
                    let k = choose|k: int| 0 <= k < rest.len() && rest[k] == mid[i];
                    assert(lex_le(s[k].min_key, s[s.len() - 1].min_key));
                }
            }
        }
        assert forall|x: RefModel| #[trigger] out.contains(x) <==> s.contains(x) || x == r by {
            assert(s =~= rest.push(s.last()));
            lemma_ref_push(rest, s.last(), x);
            lemma_ref_push(mid, s.last(), x);
            assert(mid.contains(x) <==> rest.contains(x) || x == r);
        }
    } else {
        lemma_lex_total(r.min_key, s.last().min_key);
        assert forall|i: int, j: int| 0 <= i < j < out.len() implies lex_le(
            (#[trigger] out[i]).min_key,
            (#[trigger] out[j]).min_key,
        ) by {
            if j < s.len() {
                assert(lex_le(s[i].min_key, s[j].min_key));
            } else if i < s.len() - 1 {
                assert(lex_le(s[i].min_key, s[s.len() - 1].min_key));
                if s[i].min_key != s.last().min_key && s.last().min_key != r.min_key {
                    lemma_lex_transitive(s[i].min_key, s.last().min_key, r.min_key);
                }
            }
        }
        assert forall|x: RefModel| #[trigger] out.contains(x) <==> s.contains(x) || x == r by {
            lemma_ref_push(s, r, x);
        }
    }
}

proof fn lemma_ref_push(s: Seq<RefModel>, x: RefModel, e: RefModel)
    ensures
        s.push(x).contains(e) <==> s.contains(e) || e == x,
{
    if s.contains(e) {
        let i = choose|i: int| 0 <= i < s.len() && s[i] == e;
        assert(s.push(x)[i] == e);
    }
    if e == x {
        assert(s.push(x)[s.len() as int] == e);
    }
    if s.push(x).contains(e) {
        let i = choose|i: int| 0 <= i < s.push(x).len() && s.push(x)[i] == e;
        if i < s.len() {
            assert(s[i] == e);
        }
    }
}

/// The key range of an index entry holds all keys of its patch.
pub open spec fn sound_ref(r: RefModel) -> bool {
    r.content matches Some(c) ==> forall|i: int|
        0 <= i < c.len() ==> !lex_lt((#[trigger] c[i]).key, r.min_key) && !lex_lt(
            r.max_key,
            c[i].key,
        )
}

pub open spec fn sound_list(list: Seq<RefModel>) -> bool {
    forall|i: int| 0 <= i < list.len() ==> sound_ref(#[trigger] list[i])
}

/// The smallest of a key and the keys of these entries.
pub open spec fn low_key(k: Seq<u8>, c: Seq<PatchModel>) -> Seq<u8>
    decreases c.len(),
{
    if c.len() == 0 {
        k
    } else {
        let before = low_key(k, c.drop_last());
        if lex_lt(c.last().key, before) {
            c.last().key
        } else {
            before
        }
    }
}

/// The largest of a key and the keys of these entries.
pub open spec fn high_key(k: Seq<u8>, c: Seq<PatchModel>) -> Seq<u8>
    decreases c.len(),
{
    if c.len() == 0 {
        k
    } else {
        let before = high_key(k, c.drop_last());
        if lex_lt(before, c.last().key) {
            c.last().key
        } else {
            before
        }
    }
}

/// An index entry with the content of its patch. Its range grows where it does
/// not hold all keys of the content.
pub open spec fn filled(r: RefModel, c: Seq<PatchModel>) -> RefModel {
    RefModel {
        min_key: low_key(r.min_key, c),
        max_key: high_key(r.max_key, c),
        content: Some(c),
        ..r
    }
}

proof fn lemma_low_key(k: Seq<u8>, c: Seq<PatchModel>)
    ensures
        !lex_lt(k, low_key(k, c)),
        forall|i: int| 0 <= i < c.len() ==> !lex_lt((#[trigger] c[i]).key, low_key(k, c)),
    decreases c.len(),
{
    lemma_lex_irreflexive(k);
    if c.len() > 0 {
        let rest = c.drop_last();
        let before = low_key(k, rest);
        let last = c.last().key;
        lemma_low_key(k, rest);
        lemma_lex_irreflexive(last);
        if lex_lt(last, before) {
            if lex_lt(k, last) {
                lemma_lex_transitive(k, last, before);
            }
            assert forall|i: int| 0 <= i < c.len() implies !lex_lt((#[trigger] c[i]).key, last) by {
                if i < rest.len() {
                    assert(rest[i] == c[i]);
                    if lex_lt(c[i].key, last) {
                        lemma_lex_transitive(c[i].key, last, before);
                    }
                }
            }
        } else {
            assert forall|i: int| 0 <= i < c.len() implies !lex_lt(
                (#[trigger] c[i]).key,
                before,
            ) by {
                if i < rest.len() {
                    assert(rest[i] == c[i]);
                }
            }
        }
    }
}

proof fn lemma_high_key(k: Seq<u8>, c: Seq<PatchModel>)
    ensures
        !lex_lt(high_key(k, c), k),
        forall|i: int| 0 <= i < c.len() ==> !lex_lt(high_key(k, c), (#[trigger] c[i]).key),
    decreases c.len(),
{
    lemma_lex_irreflexive(k);
    if c.len() > 0 {
        let rest = c.drop_last();
        let before = high_key(k, rest);
        let last = c.last().key;
        lemma_high_key(k, rest);
        lemma_lex_irreflexive(last);
        if lex_lt(before, last) {
            if lex_lt(last, k) {
                lemma_lex_transitive(before, last, k);
            }
            assert forall|i: int| 0 <= i < c.len() implies !lex_lt(last, (#[trigger] c[i]).key) by {
                if i < rest.len() {
                    assert(rest[i] == c[i]);
                    if lex_lt(last, c[i].key) {
                        lemma_lex_transitive(before, last, c[i].key);
                    }
                }
            }
        } else {
            assert forall|i: int| 0 <= i < c.len() implies !lex_lt(
                before,
                (#[trigger] c[i]).key,
            ) by {
                if i < rest.len() {
                    assert(rest[i] == c[i]);
                }
            }
        }
    }
}

/// Reading a patch leaves its index entry as it is but for the content, where
/// the range holds all keys of the patch.
pub proof fn law_sound_range_stays(r: RefModel, c: Seq<PatchModel>)
    requires
        forall|i: int|
            0 <= i < c.len() ==> !lex_lt((#[trigger] c[i]).key, r.min_key) && !lex_lt(
                r.max_key,
                c[i].key,
            ),
    ensures
        filled(r, c) == (RefModel { content: Some(c), ..r }),
    decreases c.len(),
{
    if c.len() > 0 {
        let rest = c.drop_last();
        assert forall|i: int| 0 <= i < rest.len() implies !lex_lt(
            (#[trigger] rest[i]).key,
            r.min_key,
        ) && !lex_lt(r.max_key, rest[i].key) by {
            assert(rest[i] == c[i]);
        }
        assert(c[c.len() - 1] == c.last());
        law_sound_range_stays(r, rest);
    }
}

/// `s` with the content of the patch of this name.
pub open spec fn loaded(s: Seq<RefModel>, name: Seq<char>, content: Seq<PatchModel>) -> Seq<
    RefModel,
> {
    s.map_values(
        |r: RefModel|
            if r.name == name {
                filled(r, content)
            } else {
                r
            },
    )
}

proof fn lemma_loaded_is_sound(s: Seq<RefModel>, name: Seq<char>, content: Seq<PatchModel>)
    requires
        sound_list(s),
    ensures
        sound_list(loaded(s, name, content)),
{
    let now = loaded(s, name, content);
    assert forall|i: int| 0 <= i < now.len() implies sound_ref(#[trigger] now[i]) by {
        assert(sound_ref(s[i]));
        lemma_low_key(s[i].min_key, content);
        lemma_high_key(s[i].max_key, content);
    }
}

proof fn lemma_placed_is_sound(s: Seq<RefModel>, r: RefModel)
    requires
        sound_list(s),
        sound_ref(r),
    ensures
        sound_list(placed(s, r)),
    decreases s.len(),
{
    let now = placed(s, r);
    if s.len() > 0 && lex_lt(r.min_key, s.last().min_key) {
        let rest = s.drop_last();
        assert forall|i: int| 0 <= i < rest.len() implies sound_ref(#[trigger] rest[i]) by {
            assert(rest[i] == s[i]);
        }
        assert(sound_ref(s[s.len() - 1]));
        lemma_placed_is_sound(rest, r);
        let before = placed(rest, r);
        assert forall|i: int| 0 <= i < now.len() implies sound_ref(#[trigger] now[i]) by {
            if i < before.len() {
                assert(now[i] == before[i]);
            }
        }
    }
}

proof fn lemma_unlisted_is_sound(s: Seq<RefModel>, name: Seq<char>)
    requires
        sound_list(s),
    ensures
        sound_list(unlisted(s, name)),
    decreases s.len(),
{
    if s.len() > 0 {
        let rest = s.drop_last();
        assert forall|i: int| 0 <= i < rest.len() implies sound_ref(#[trigger] rest[i]) by {
            assert(rest[i] == s[i]);
        }
        assert(sound_ref(s[s.len() - 1]));
        lemma_unlisted_is_sound(rest, name);
    }
}

/// `s` without the patch of this name.
pub open spec fn unlisted(s: Seq<RefModel>, name: Seq<char>) -> Seq<RefModel>
    decreases s.len(),
{
    if s.len() == 0 {
        Seq::empty()
    } else if s.last().name == name {
        unlisted(s.drop_last(), name)
    } else {
        unlisted(s.drop_last(), name).push(s.last())
    }
}

/// The layers agree on every column family but this one.
pub open spec fn others_unchanged(before: DiskLayer, after: DiskLayer, cf: u16) -> bool {
    &&& after.root_dir == before.root_dir
    &&& forall|d: u16| d != cf ==> #[trigger] patches_in(after.cfs@, d) == patches_in(before.cfs@, d)
}

/// `m` is the largest transaction in a patch of the layer; 0 without any.
pub open spec fn is_top_txn(s: Seq<CfPatches>, m: TxnId) -> bool {
    &&& forall|i: int, j: int|
        0 <= i < s.len() && 0 <= j < s[i].patches@.len() ==> (#[trigger] s[i].patches@[j]).max_txn
            <= m
    &&& m == 0 || exists|i: int, j: int|
        0 <= i < s.len() && 0 <= j < s[i].patches@.len() && (#[trigger] s[i].patches@[j]).max_txn
            == m
}

/// No patch of the layer goes above its largest transaction.
pub proof fn lemma_within_top_txn(l: DiskLayer, m: TxnId, cf: u16, i: int)
    requires
        is_top_txn(l.cfs@, m),
        0 <= i < patch_list(l, cf).len(),
    ensures
        patch_list(l, cf)[i].max_txn <= m,
{
    lemma_listed_below(l.cfs@, m, cf, i);
}

proof fn lemma_listed_below(s: Seq<CfPatches>, m: TxnId, cf: u16, i: int)
    requires
        forall|a: int, j: int|
            0 <= a < s.len() && 0 <= j < s[a].patches@.len() ==> (
            #[trigger] s[a].patches@[j]).max_txn <= m,
        patches_in(s, cf) matches Some(list) && 0 <= i < list.len(),
    ensures
        (patches_in(s, cf)->0)[i].max_txn <= m,
    decreases s.len(),
{
    if s.last().cf == cf {
        let a = s.len() - 1;
        assert(s[a].patches@[i].max_txn <= m);
    } else {
        let rest = s.drop_last();
        assert forall|a: int, j: int| 0 <= a < rest.len() && 0 <= j < rest[a].patches@.len() implies (
        #[trigger] rest[a].patches@[j]).max_txn <= m by {
            assert(s[a].patches@[j].max_txn <= m);
        }
        lemma_listed_below(rest, m, cf, i);
    }
}

/// `m` is the largest number that a patch file of the layer carries; 0 without
/// any.
pub open spec fn is_max_patch(s: Seq<CfPatches>, m: u64) -> bool {
    &&& forall|i: int, j: int|
        0 <= i < s.len() && 0 <= j < s[i].patches@.len() ==> (stem_number(
            (#[trigger] s[i].patches@[j]).name@,
        ) matches Some(n) ==> n <= m)
    &&& m == 0 || exists|i: int, j: int|
        0 <= i < s.len() && 0 <= j < s[i].patches@.len() && stem_number(
            (#[trigger] s[i].patches@[j]).name@,
        ) == Some(m as nat)
}

/// A layer stays sound where only a column family with a sound list changes.
proof fn lemma_stays_sound(before: DiskLayer, after: DiskLayer, cf: u16)
    requires
        before.wf(),
        others_unchanged(before, after, cf),
        sound_list(patch_list(after, cf)),
    ensures
        forall|d: u16| sound_list(#[trigger] patch_list(after, d)),
{
    assert forall|d: u16| sound_list(#[trigger] patch_list(after, d)) by {
        if d != cf {
            assert(patches_in(after.cfs@, d) == patches_in(before.cfs@, d));
            assert(sound_list(patch_list(before, d)));
        }
    }
}

/// The smallest of a key and the keys of these entries.
fn lowest_key(k: &[u8], c: &Vec<PatchEntry>) -> (r: Vec<u8>)
    ensures
        r@ == low_key(k@, patch_models(c@)),
{
    let ghost all = patch_models(c@);
    let mut low = copy_bytes(k);
    let mut i: usize = 0;
    assert(all.take(0) =~= Seq::<PatchModel>::empty());
    while i < c.len()
        invariant
            i <= c@.len(),
            all == patch_models(c@),
            low@ == low_key(k@, all.take(i as int)),
        decreases c@.len() - i,
    {
        assert(all.take(i + 1).drop_last() =~= all.take(i as int));
        assert(all.take(i + 1).last() == c@[i as int]@);
        if bytes_lt(c[i].key.as_slice(), low.as_slice()) {
            low = copy_bytes(c[i].key.as_slice());
        }
        i = i + 1;
    }
    assert(all.take(i as int) =~= all);
    low
}

/// The largest of a key and the keys of these entries.
fn highest_key(k: &[u8], c: &Vec<PatchEntry>) -> (r: Vec<u8>)
    ensures
        r@ == high_key(k@, patch_models(c@)),
{
    let ghost all = patch_models(c@);
    let mut high = copy_bytes(k);
    let mut i: usize = 0;
    assert(all.take(0) =~= Seq::<PatchModel>::empty());
    while i < c.len()
        invariant
            i <= c@.len(),
            all == patch_models(c@),
            high@ == high_key(k@, all.take(i as int)),
        decreases c@.len() - i,
    {
        assert(all.take(i + 1).drop_last() =~= all.take(i as int));
        assert(all.take(i + 1).last() == c@[i as int]@);
        if bytes_lt(high.as_slice(), c[i].key.as_slice()) {
            high = copy_bytes(c[i].key.as_slice());
        }
        i = i + 1;
    }
    assert(all.take(i as int) =~= all);
    high
}

impl DiskLayer {
    /// Every column family is listed once, and the range of an index entry
    /// holds all keys of its patch, as far as that is in memory.
    pub open spec fn wf(&self) -> bool {
        &&& cfs_ascend(self.cfs@)
        &&& forall|cf: u16| sound_list(#[trigger] patch_list(*self, cf))
    }

    /// A layer without patches.
    pub fn new(root_dir: String) -> (r: Self)
        ensures
            r.wf(),
            r.root_dir == root_dir,
            forall|cf: u16| #[trigger] patches_in(r.cfs@, cf) is None,
    {
        DiskLayer { root_dir, cfs: Vec::new() }
    }

    /// Where a column family stands, or would be inserted.
    fn find_cf(&self, cf: u16) -> (r: (bool, usize))
        requires
            self.wf(),
        ensures
            r.1 <= self.cfs@.len(),
            r.0 ==> r.1 < self.cfs@.len() && self.cfs@[r.1 as int].cf == cf && patches_in(
                self.cfs@,
                cf,
            ) == Some(ref_models(self.cfs@[r.1 as int].patches@)),
            !r.0 ==> patches_in(self.cfs@, cf) is None && (forall|i: int|
                0 <= i < r.1 ==> (#[trigger] self.cfs@[i]).cf < cf) && (forall|i: int|
                r.1 <= i < self.cfs@.len() ==> cf < (#[trigger] self.cfs@[i]).cf),
    {
        let mut i: usize = 0;
        while i < self.cfs.len() && self.cfs[i].cf < cf
            invariant
                i <= self.cfs@.len(),
                self.wf(),
                forall|j: int| 0 <= j < i ==> (#[trigger] self.cfs@[j]).cf < cf,
            decreases self.cfs@.len() - i,
        {
            i = i + 1;
        }
        if i < self.cfs.len() && self.cfs[i].cf == cf {
            proof {
                lemma_patches_at(self.cfs@, i as int);
            }
            return (true, i);
        }
        proof {
            assert forall|j: int| i <= j < self.cfs@.len() implies cf < (
            #[trigger] self.cfs@[j]).cf by {
                if j > i {
                    assert(self.cfs@[i as int].cf < self.cfs@[j].cf);
                }
            }
            lemma_patches_none(self.cfs@, cf);
        }
        (false, i)
    }

    /// Start the index of a column family anew, without patches.
    pub fn open_cf(&mut self, cf: u16)
        requires
            old(self).wf(),
        ensures
            final(self).wf(),
            patches_in(final(self).cfs@, cf) == Some(Seq::<RefModel>::empty()),
            others_unchanged(*old(self), *final(self), cf),
    {
        let (found, at) = self.find_cf(cf);
        let fresh = CfPatches { cf, patches: Vec::new() };
        assert(ref_models(fresh.patches@) =~= Seq::<RefModel>::empty());
        if found {
            proof {
                lemma_patches_update(self.cfs@, at as int, fresh);
            }
            self.cfs.set(at, fresh);
        } else {
            proof {
                lemma_patches_insert(self.cfs@, at as int, fresh);
            }
            self.cfs.insert(at, fresh);
        }
        proof {
            lemma_stays_sound(*old(self), *self, cf);
        }
    }

    /// Add a patch to the index of its column family.
    fn add_ref(&mut self, cf: u16, r: PatchRef)
        requires
            old(self).wf(),
            r.content is None,
        ensures
            final(self).wf(),
            patches_in(final(self).cfs@, cf) == Some(placed(patch_list(*old(self), cf), r@)),
            others_unchanged(*old(self), *final(self), cf),
    {
        let (found, at) = self.find_cf(cf);
        let mut list: Vec<PatchRef> = Vec::new();
        assert(ref_models(list@) =~= Seq::<RefModel>::empty());
        let ghost cfs0 = self.cfs@;
        if found {
            core::mem::swap(&mut list, &mut self.cfs[at].patches);
        }
        let ghost list0 = list@;
        assert(ref_models(list0) == patch_list(*old(self), cf));
        let mut p: usize = list.len();
        while p > 0 && bytes_lt(r.min_key.as_slice(), list[p - 1].min_key.as_slice())
            invariant
                p <= list@.len(),
                list@ == list0,
                forall|i: int|
                    p <= i < list@.len() ==> lex_lt(
                        r@.min_key,
                        (#[trigger] ref_models(list@)[i]).min_key,
                    ),
            decreases p,
        {
            assert(ref_models(list@)[p - 1].min_key == list@[p - 1].min_key@);
            p = p - 1;
        }
        proof {
            if p > 0 {
                assert(ref_models(list0)[p - 1].min_key == list0[p - 1].min_key@);
            }
            lemma_placed_at(ref_models(list0), r@, p as int);
        }
        list.insert(p, r);
        assert(ref_models(list@) =~= ref_models(list0).insert(p as int, r@));
        let next = CfPatches { cf, patches: list };
        proof {
            assert(sound_list(patch_list(*old(self), cf)));
            lemma_placed_is_sound(patch_list(*old(self), cf), r@);
        }
        if found {
            proof {
                lemma_patches_update(cfs0, at as int, next);
                assert(cfs0.update(at as int, next) =~= self.cfs@.update(at as int, next));
            }
            self.cfs.set(at, next);
        } else {
            proof {
                lemma_patches_insert(cfs0, at as int, next);
            }
            self.cfs.insert(at, next);
        }
        proof {
            lemma_stays_sound(*old(self), *self, cf);
        }
    }

    /// Add a patch file found on disk to the index; a file that is not a
    /// sound patch is skipped. Returns whether it was added.
    pub fn add_file(&mut self, cf: u16, name: String, bytes: &[u8]) -> (r: bool)
        requires
            old(self).wf(),
        ensures
            final(self).wf(),
            r == readable(bytes@),
            !r ==> *final(self) == *old(self),
            r ==> exists|c: Seq<PatchModel>| #[trigger]
                holds_patch(bytes@, c) && patches_in(final(self).cfs@, cf) == Some(
                    placed(patch_list(*old(self), cf), ref_of(name@, c)),
                ),
            forall|x: Z1PatchFormatV4|
                bytes@ == #[trigger] patch_bytes(x@) && patch_payload(x@).len() <= u32::MAX ==> r
                    && patches_in(final(self).cfs@, cf) == Some(
                    placed(patch_list(*old(self), cf), ref_of(name@, x@)),
                ),
            others_unchanged(*old(self), *final(self), cf),
    {
        let format = match read_patch(bytes) {
            Ok(f) => f,
            Err(_) => {
                return false;
            },
        };
        let ghost c = format@;
        let (min, max) = format.key_bounds();
        let min_key: Vec<u8> = match min {
            Some(k) => copy_bytes(k),
            None => Vec::new(),
        };
        let max_key: Vec<u8> = match max {
            Some(k) => copy_bytes(k),
            None => Vec::new(),
        };
        let max_txn: TxnId = top_txn_of(&format);
        let r = PatchRef { min_key, max_key, max_txn, name, content: None };
        proof {
            assert(holds_patch(bytes@, c));
            assert(r@ =~= ref_of(name@, c));
        }
        self.add_ref(cf, r);
        true
    }

    /// Make a patch of these entries ready to be written: sorted, with its
    /// statistics, its name and its bytes. Nothing is to be written for no
    /// entries.
    pub fn prepare_patch(cf: u16, entries: Vec<PatchEntry>, patch_id: u64) -> (r: Result<
        Option<PatchWrite>,
    >)
        ensures
            match r {
                Ok(None) => entries@.len() == 0,
                Ok(Some(w)) => entries@.len() > 0 && prepared(w, cf, entries@, patch_id),
                Err(e) => entries@.len() > 0 && is_too_large(entries@, e),
            },
    {
        if entries.len() == 0 {
            return Ok(None);
        }
        let ghost given = entries@;
        let format = Z1PatchFormatV4::sparse(entries);
        let min_txn: u64 = match format.min_txn_id() {
            Some(t) => t,
            None => 0,
        };
        let max_txn: u64 = match format.max_txn_id() {
            Some(t) => t,
            None => 0,
        };
        let (min, max) = format.key_bounds();
        let min_key: Option<Vec<u8>> = match min {
            Some(k) => Some(copy_bytes(k)),
            None => None,
        };
        let max_key: Option<Vec<u8>> = match max {
            Some(k) => Some(copy_bytes(k)),
            None => None,
        };
        let zone_map = PatchZoneMap {
            min_txn,
            max_txn,
            entry_count: format.entry_count() as u64,
            min_key,
            max_key,
        };
        let bytes = match format.to_disk_bytes() {
            Ok(b) => b,
            Err(e) => {
                assert(stably_sorted(given, format->entries@));
                return Err(e);
            },
        };
        let patch = Z1Patch { patch_id, txn_range: (min_txn, max_txn), format, zone_map };
        let w = PatchWrite { cf, name: patch_name(patch_id), bytes, patch };
        assert(prepared(w, cf, given, patch_id));
        Ok(Some(w))
    }

    /// Enter a patch that was written in the index.
    pub fn publish(&mut self, w: &PatchWrite)
        requires
            old(self).wf(),
            w.patch.format@.len() > 0,
        ensures
            final(self).wf(),
            patches_in(final(self).cfs@, w.cf) == Some(
                placed(patch_list(*old(self), w.cf), ref_of(w.name@, w.patch.format@)),
            ),
            others_unchanged(*old(self), *final(self), w.cf),
    {
        let (min, max) = w.patch.format.key_bounds();
        let min_key: Vec<u8> = match min {
            Some(k) => copy_bytes(k),
            None => Vec::new(),
        };
        let max_key: Vec<u8> = match max {
            Some(k) => copy_bytes(k),
            None => Vec::new(),
        };
        let max_txn: TxnId = top_txn_of(&w.patch.format);
        let r = PatchRef {
            min_key,
            max_key,
            max_txn,
            name: copy_str(w.name.as_str()),
            content: None,
        };
        assert(r@ =~= ref_of(w.name@, w.patch.format@));
        self.add_ref(w.cf, r);
    }

    /// The versions of a column family in a span, in the order of the index.
    pub fn collect(&self, cf: u16, span: &KeySpan<'_>) -> (r: LayerRead<Vec<Z1Entry>>)
        requires
            self.wf(),
        ensures
            match r {
                LayerRead::Done(v) => missing(patch_list(*self, cf), span@) is None && entry_models(
                    v@,
                ) == versions_in(cf, patch_list(*self, cf), span@),
                LayerRead::Need(name) => missing(patch_list(*self, cf), span@) == Some(name@),
            },
            // nothing that the read depends on is left out
            r is Done ==> forall|i: int|
                0 <= i < patch_list(*self, cf).len() && covers(
                    #[trigger] patch_list(*self, cf)[i],
                    span@,
                ) ==> patch_list(*self, cf)[i].content is Some,
    {
        proof {
            crate::store::laws::law_read_waits_for_every_patch(patch_list(*self, cf), span@);
        }
        let mut out: Vec<Z1Entry> = Vec::new();
        assert(entry_models(out@) =~= Seq::<EntryModel>::empty());
        let (found, at) = self.find_cf(cf);
        if !found {
            return LayerRead::Done(out);
        }
        let list = &self.cfs[at].patches;
        let ghost all = ref_models(list@);
        let mut i: usize = 0;
        assert(all.take(0) =~= Seq::<RefModel>::empty());
        while i < list.len()
            invariant
                i <= list@.len(),
                all == ref_models(list@),
                patches_in(self.cfs@, cf) == Some(all),
                missing(all.take(i as int), span@) is None,
                entry_models(out@) == versions_in(cf, all.take(i as int), span@),
            decreases list@.len() - i,
        {
            let r = &list[i];
            proof {
                assert(all.take(i + 1).drop_last() =~= all.take(i as int));
                assert(all.take(i + 1).last() == r@);
            }
            if span_covers(r, span) {
                match &r.content {
                    Some(content) => {
                        collect_patch(&mut out, cf, content, span);
                    },
                    None => {
                        proof {
                            lemma_missing_stays(all, span@, i + 1);
                        }
                        return LayerRead::Need(copy_str(r.name.as_str()));
                    },
                }
            } else {
                assert(entry_models(out@) + Seq::<EntryModel>::empty() =~= entry_models(out@));
            }
            i = i + 1;
        }
        assert(all.take(i as int) =~= all);
        LayerRead::Done(out)
    }

    /// All versions of a key, unsorted.
    pub fn get_versions(&self, cf: u16, key: &[u8]) -> (r: LayerRead<Vec<Z1Entry>>)
        requires
            self.wf(),
        ensures
            match r {
                LayerRead::Done(v) => missing(patch_list(*self, cf), Span::Key(key@)) is None
                    && entry_models(v@) == versions_in(
                    cf,
                    patch_list(*self, cf),
                    Span::Key(key@),
                ),
                LayerRead::Need(name) => missing(patch_list(*self, cf), Span::Key(key@)) == Some(
                    name@,
                ),
            },
    {
        self.collect(cf, &KeySpan::Key(key))
    }

    /// The keys of a column family in `[start, end)`, ascending, each with
    /// its newest version on this layer, tombstones among them.
    pub fn range_visible(&self, cf: u16, start: &[u8], end: Option<&[u8]>) -> (r: LayerRead<
        Vec<(Vec<u8>, Z1Entry)>,
    >)
        requires
            self.wf(),
        ensures
            ({
                let span = Span::Range(start@, end_model(end));
                match r {
                    LayerRead::Done(v) => missing(patch_list(*self, cf), span) is None
                        && newest_listed(
                        versions_in(cf, patch_list(*self, cf), span),
                        list_model(v@),
                    ),
                    LayerRead::Need(name) => missing(patch_list(*self, cf), span) == Some(name@),
                }
            }),
    {
        match self.collect(cf, &KeySpan::Range(start, end)) {
            LayerRead::Done(v) => LayerRead::Done(newest_per_key(&v)),
            LayerRead::Need(name) => LayerRead::Need(name),
        }
    }

    /// All versions of a column family.
    pub fn all_versions(&self, cf: u16) -> (r: LayerRead<Vec<Z1Entry>>)
        requires
            self.wf(),
        ensures
            match r {
                LayerRead::Done(v) => missing(patch_list(*self, cf), everything()) is None
                    && entry_models(v@) == versions_in(cf, patch_list(*self, cf), everything()),
                LayerRead::Need(name) => missing(patch_list(*self, cf), everything()) == Some(
                    name@,
                ),
            },
    {
        let none: Vec<u8> = Vec::new();
        assert(none@ =~= Seq::<u8>::empty());
        self.collect(cf, &KeySpan::Range(none.as_slice(), None))
    }

    /// Take in what reading a patch file has come to. A file that has
    /// vanished leaves the index, and reads go on without it; any other
    /// failure, and a damaged file, is an error.
    pub fn install(&mut self, cf: u16, name: &str, file: FileRead) -> (r: Result<()>)
        requires
            old(self).wf(),
        ensures
            final(self).wf(),
            others_unchanged(*old(self), *final(self), cf),
            r is Err ==> *final(self) == *old(self),
            match file {
                FileRead::Bytes(bytes) => {
                    &&& r is Ok <==> readable(bytes@)
                    &&& r matches Err(e) ==> reports_patch(bytes@, e)
                    &&& r is Ok ==> exists|c: Seq<PatchModel>| #[trigger]
                        holds_patch(bytes@, c) && patch_list(*final(self), cf) == loaded(
                            patch_list(*old(self), cf),
                            name@,
                            c,
                        )
                    &&& forall|x: Z1PatchFormatV4|
                        bytes@ == #[trigger] patch_bytes(x@) && patch_payload(x@).len() <= u32::MAX
                            ==> r is Ok && patch_list(*final(self), cf) == loaded(
                            patch_list(*old(self), cf),
                            name@,
                            x@,
                        )
                },
                FileRead::NotFound => r is Ok && patch_list(*final(self), cf) == unlisted(
                    patch_list(*old(self), cf),
                    name@,
                ),
                FileRead::Failed(e) => r matches Err(Z1Error::Io(x)) && x == e,
            },
    {
        match file {
            FileRead::Bytes(bytes) => {
                let format = match read_patch(bytes.as_slice()) {
                    Ok(f) => f,
                    Err(e) => {
                        return Err(e);
                    },
                };
                assert(holds_patch(bytes@, format@));
                match format {
                    Z1PatchFormatV4::Sparse { entries } => {
                        self.set_content(cf, name, entries);
                    },
                }
                Ok(())
            },
            FileRead::NotFound => {
                self.unlist(cf, name);
                Ok(())
            },
            FileRead::Failed(e) => Err(Z1Error::Io(e)),
        }
    }

    fn set_content(&mut self, cf: u16, name: &str, entries: Vec<PatchEntry>)
        requires
            old(self).wf(),
        ensures
            final(self).wf(),
            others_unchanged(*old(self), *final(self), cf),
            patch_list(*final(self), cf) == loaded(
                patch_list(*old(self), cf),
                name@,
                patch_models(entries@),
            ),
    {
        let (found, at) = self.find_cf(cf);
        if !found {
            assert(loaded(patch_list(*old(self), cf), name@, patch_models(entries@)) =~= patch_list(
                *old(self),
                cf,
            ));
            return ;
        }
        let ghost cfs0 = self.cfs@;
        let ghost content = patch_models(entries@);
        let mut list: Vec<PatchRef> = Vec::new();
        core::mem::swap(&mut list, &mut self.cfs[at].patches);
        let ghost list0 = list@;
        let mut i: usize = 0;
        while i < list.len()
            invariant
                i <= list@.len(),
                list@.len() == list0.len(),
                content == patch_models(entries@),
                forall|j: int| i <= j < list@.len() ==> list@[j] == list0[j],
                forall|j: int|
                    0 <= j < i ==> (#[trigger] list@[j])@ == loaded(
                        ref_models(list0),
                        name@,
                        content,
                    )[j],
            decreases list@.len() - i,
        {
            if str_eq(list[i].name.as_str(), name) {
                let c = crate::store::types::copy_patch_entries(&entries);
                let old_ref = PatchRef {
                    min_key: lowest_key(list[i].min_key.as_slice(), &entries),
                    max_key: highest_key(list[i].max_key.as_slice(), &entries),
                    max_txn: list[i].max_txn,
                    name: copy_str(list[i].name.as_str()),
                    content: Some(c),
                };
                assert(ref_models(list0)[i as int] == list0[i as int]@);
                assert(old_ref@ =~= loaded(ref_models(list0), name@, content)[i as int]);
                list.set(i, old_ref);
            } else {
                assert(ref_models(list0)[i as int] == list0[i as int]@);
            }
            i = i + 1;
        }
        assert(ref_models(list@) =~= loaded(ref_models(list0), name@, content));
        proof {
            assert(sound_list(patch_list(*old(self), cf)));
            lemma_loaded_is_sound(ref_models(list0), name@, content);
        }
        let next = CfPatches { cf, patches: list };
        proof {
            lemma_patches_update(cfs0, at as int, next);
            assert(cfs0.update(at as int, next) =~= self.cfs@.update(at as int, next));
        }
        self.cfs.set(at, next);
        proof {
            lemma_stays_sound(*old(self), *self, cf);
        }
    }

    fn unlist(&mut self, cf: u16, name: &str)
        requires
            old(self).wf(),
        ensures
            final(self).wf(),
            others_unchanged(*old(self), *final(self), cf),
            patch_list(*final(self), cf) == unlisted(patch_list(*old(self), cf), name@),
    {
        let (found, at) = self.find_cf(cf);
        if !found {
            return ;
        }
        let ghost cfs0 = self.cfs@;
        let mut list: Vec<PatchRef> = Vec::new();
        core::mem::swap(&mut list, &mut self.cfs[at].patches);
        let ghost list0 = list@;
        let ghost all = ref_models(list0);
        let mut kept_refs: Vec<PatchRef> = Vec::new();
        let mut back: Vec<PatchRef> = Vec::new();
        // take the list apart from its end
        while list.len() > 0
            invariant
                list@ == list0.take(list@.len() as int),
                back@.len() + list@.len() == list0.len(),
                forall|j: int|
                    0 <= j < back@.len() ==> #[trigger] back@[j] == list0[list0.len() - 1 - j],
            decreases list@.len(),
        {
            match list.pop() {
                Some(r) => {
                    back.push(r);
                },
                None => {},
            }
        }
        // and put it together again without the named ones
        assert(all.take(0) =~= Seq::<RefModel>::empty());
        assert(ref_models(kept_refs@) =~= Seq::<RefModel>::empty());
        while back.len() > 0
            invariant
                all == ref_models(list0),
                back@.len() <= list0.len(),
                forall|j: int|
                    0 <= j < back@.len() ==> #[trigger] back@[j] == list0[list0.len() - 1 - j],
                ref_models(kept_refs@) == unlisted(
                    all.take(list0.len() - back@.len()),
                    name@,
                ),
            decreases back@.len(),
        {
            let ghost k = list0.len() - back@.len();
            match back.pop() {
                Some(r) => {
                    proof {
                        assert(r == list0[k]);
                        assert(all.take(k + 1).drop_last() =~= all.take(k));
                        assert(all.take(k + 1).last() == r@);
                    }
                    if !str_eq(r.name.as_str(), name) {
                        let ghost kept0 = kept_refs@;
                        kept_refs.push(r);
                        assert(ref_models(kept_refs@) =~= ref_models(kept0).push(r@));
                    }
                },
                None => {},
            }
        }
        assert(all.take(list0.len() as int) =~= all);
        proof {
            assert(sound_list(patch_list(*old(self), cf)));
            lemma_unlisted_is_sound(all, name@);
        }
        let next = CfPatches { cf, patches: kept_refs };
        proof {
            lemma_patches_update(cfs0, at as int, next);
            assert(cfs0.update(at as int, next) =~= self.cfs@.update(at as int, next));
        }
        self.cfs.set(at, next);
        proof {
            lemma_stays_sound(*old(self), *self, cf);
        }
    }

    /// The largest number that a patch file of the layer carries; 0 where
    /// there is none.
    pub fn max_patch_id(&self) -> (r: u64)
        ensures
            is_max_patch(self.cfs@, r),
    {
        let mut m: u64 = 0;
        let mut i: usize = 0;
        while i < self.cfs.len()
            invariant
                i <= self.cfs@.len(),
                forall|a: int, j: int|
                    0 <= a < i && 0 <= j < self.cfs@[a].patches@.len() ==> (stem_number(
                        (#[trigger] self.cfs@[a].patches@[j]).name@,
                    ) matches Some(n) ==> n <= m),
                m == 0 || exists|a: int, j: int|
                    0 <= a < self.cfs@.len() && 0 <= j < self.cfs@[a].patches@.len() && stem_number(
                        (#[trigger] self.cfs@[a].patches@[j]).name@,
                    ) == Some(m as nat),
            decreases self.cfs@.len() - i,
        {
            let list = &self.cfs[i].patches;
            let mut j: usize = 0;
            while j < list.len()
                invariant
                    i < self.cfs@.len(),
                    list@ == self.cfs@[i as int].patches@,
                    j <= list@.len(),
                    forall|a: int, b: int|
                        0 <= a < i && 0 <= b < self.cfs@[a].patches@.len() ==> (stem_number(
                            (#[trigger] self.cfs@[a].patches@[b]).name@,
                        ) matches Some(n) ==> n <= m),
                    forall|b: int|
                        0 <= b < j ==> (stem_number((#[trigger] list@[b]).name@) matches Some(n)
                            ==> n <= m),
                    m == 0 || exists|a: int, b: int|
                        0 <= a < self.cfs@.len() && 0 <= b < self.cfs@[a].patches@.len()
                            && stem_number((#[trigger] self.cfs@[a].patches@[b]).name@) == Some(
                            m as nat,
                        ),
                decreases list@.len() - j,
            {
                match parse_stem(list[j].name.as_str()) {
                    Some(n) => {
                        if n > m {
                            m = n;
                            assert(stem_number(self.cfs@[i as int].patches@[j as int].name@)
                                == Some(m as nat));
                        }
                    },
                    None => {},
                }
                j = j + 1;
            }
            i = i + 1;
        }
        m
    }

    /// The largest transaction in a patch of the layer; 0 without any.
    pub fn max_txn_id(&self) -> (r: TxnId)
        ensures
            is_top_txn(self.cfs@, r),
    {
        let mut m: TxnId = 0;
        let mut i: usize = 0;
        while i < self.cfs.len()
            invariant
                i <= self.cfs@.len(),
                forall|a: int, j: int|
                    0 <= a < i && 0 <= j < self.cfs@[a].patches@.len() ==> (
                    #[trigger] self.cfs@[a].patches@[j]).max_txn <= m,
                m == 0 || exists|a: int, j: int|
                    0 <= a < self.cfs@.len() && 0 <= j < self.cfs@[a].patches@.len() && (
                    #[trigger] self.cfs@[a].patches@[j]).max_txn == m,
            decreases self.cfs@.len() - i,
        {
            let list = &self.cfs[i].patches;
            let mut j: usize = 0;
            while j < list.len()
                invariant
                    i < self.cfs@.len(),
                    list@ == self.cfs@[i as int].patches@,
                    j <= list@.len(),
                    forall|a: int, b: int|
                        0 <= a < i && 0 <= b < self.cfs@[a].patches@.len() ==> (
                        #[trigger] self.cfs@[a].patches@[b]).max_txn <= m,
                    forall|b: int| 0 <= b < j ==> (#[trigger] list@[b]).max_txn <= m,
                    m == 0 || exists|a: int, b: int|
                        0 <= a < self.cfs@.len() && 0 <= b < self.cfs@[a].patches@.len() && (
                        #[trigger] self.cfs@[a].patches@[b]).max_txn == m,
                decreases list@.len() - j,
            {
                if list[j].max_txn > m {
                    m = list[j].max_txn;
                    assert(self.cfs@[i as int].patches@[j as int].max_txn == m);
                }
                j = j + 1;
            }
            i = i + 1;
        }
        m
    }

    /// Take a column family out of the index, after its files were deleted.
    pub fn drop_cf(&mut self, cf: u16)
        requires
            old(self).wf(),
        ensures
            final(self).wf(),
            patches_in(final(self).cfs@, cf) is None,
            others_unchanged(*old(self), *final(self), cf),
    {
        let (found, at) = self.find_cf(cf);
        if found {
            proof {
                lemma_patches_remove(self.cfs@, at as int);
            }
            self.cfs.remove(at);
        }
        proof {
            lemma_stays_sound(*old(self), *self, cf);
        }
    }

    /// The column families of the layer, ascending.
    pub fn list_cfs(&self) -> (r: Vec<u16>)
        requires
            self.wf(),
        ensures
            forall|i: int, j: int| 0 <= i < j < r@.len() ==> #[trigger] r@[i] < #[trigger] r@[j],
            forall|cf: u16| r@.contains(cf) <==> (#[trigger] patches_in(self.cfs@, cf)) is Some,
    {
        let mut out: Vec<u16> = Vec::new();
        let mut i: usize = 0;
        while i < self.cfs.len()
            invariant
                i <= self.cfs@.len(),
                out@.len() == i,
                forall|j: int| 0 <= j < i ==> #[trigger] out@[j] == self.cfs@[j].cf,
            decreases self.cfs@.len() - i,
        {
            out.push(self.cfs[i].cf);
            i = i + 1;
        }
        proof {
            assert forall|cf: u16| out@.contains(cf) <==> (#[trigger] patches_in(self.cfs@, cf))
                is Some by {
                lemma_patches_none(self.cfs@, cf);
                if out@.contains(cf) {
                    let j = choose|j: int| 0 <= j < out@.len() && out@[j] == cf;
                    assert(self.cfs@[j].cf == cf);
                }
                if patches_in(self.cfs@, cf) is Some {
                    let j = choose|j: int|
                        0 <= j < self.cfs@.len() && (#[trigger] self.cfs@[j]).cf == cf;
                    assert(out@[j] == cf);
                }
            }
            assert forall|i: int, j: int| 0 <= i < j < out@.len() implies #[trigger] out@[i]
                < #[trigger] out@[j] by {
                assert(self.cfs@[i].cf < self.cfs@[j].cf);
            }
        }
        out
    }
}

/// L2 is a disk layer, and so is L3.
pub type L2Disk = DiskLayer;

pub type L3Frozen = DiskLayer;

proof fn lemma_missing_stays(s: Seq<RefModel>, span: Span, k: int)
    requires
        0 <= k <= s.len(),
        missing(s.take(k), span) is Some,
    ensures
        missing(s, span) == missing(s.take(k), span),
    decreases s.len() - k,
{
    if k == s.len() {
        assert(s.take(k) =~= s);
    } else {
        assert(s.take(k + 1).drop_last() =~= s.take(k));
        lemma_missing_stays(s, span, k + 1);
    }
}

/// The payload of a patch of these entries.
pub open spec fn patch_payload(c: Seq<PatchModel>) -> Seq<u8> {
    crate::codec::payload::encoded_rows(
        crate::store::types::SPARSE_TAG,
        crate::store::types::patch_rows(c),
    )
}

/// The bytes of a patch file of these entries.
pub open spec fn patch_bytes(c: Seq<PatchModel>) -> Seq<u8> {
    framed(Z1PatchFormatV4::format_magic(), Z1PatchFormatV4::format_version(), patch_payload(c))
}

/// The bytes are a sound patch file.
pub open spec fn readable(bytes: Seq<u8>) -> bool {
    &&& frame_fault(
        Z1PatchFormatV4::format_magic(),
        Z1PatchFormatV4::format_version(),
        Z1PatchFormatV4::format_version(),
        bytes,
    ) is None
    &&& Z1PatchFormatV4::decodes(frame_payload(bytes))
}

/// How bytes that are no sound patch file are reported.
pub open spec fn reports_patch(bytes: Seq<u8>, e: Z1Error) -> bool {
    match frame_fault(
        Z1PatchFormatV4::format_magic(),
        Z1PatchFormatV4::format_version(),
        Z1PatchFormatV4::format_version(),
        bytes,
    ) {
        Some(fault) => e matches Z1Error::Deserialize(m) && frame_message(
            Z1PatchFormatV4::format_magic(),
            Z1PatchFormatV4::format_version(),
            Z1PatchFormatV4::format_version(),
            bytes,
            fault,
            m@,
        ),
        None => Z1PatchFormatV4::decode_error(frame_payload(bytes), e),
    }
}

/// The bytes are a sound patch file of these entries.
pub open spec fn holds_patch(bytes: Seq<u8>, c: Seq<PatchModel>) -> bool {
    &&& readable(bytes)
    &&& crate::codec::payload::decoded_rows(frame_payload(bytes)) == Some(
        (crate::store::types::SPARSE_TAG, crate::store::types::patch_rows(c)),
    )
}

/// Read a patch file; the file of a patch gives the patch back.
fn read_patch(bytes: &[u8]) -> (r: Result<Z1PatchFormatV4>)
    ensures
        r is Ok <==> readable(bytes@),
        r is Ok ==> holds_patch(bytes@, r->Ok_0@),
        r matches Err(e) ==> reports_patch(bytes@, e),
        forall|x: Z1PatchFormatV4|
            bytes@ == #[trigger] patch_bytes(x@) && patch_payload(x@).len() <= u32::MAX ==> r is Ok
                && r->Ok_0@ == x@,
{
    let r = Z1PatchFormatV4::from_disk_bytes(bytes);
    proof {
        assert(bytes@.len() == bytes.len());
        lemma_frame_is_sound(
            Z1PatchFormatV4::format_magic(),
            Z1PatchFormatV4::format_version(),
            Z1PatchFormatV4::format_version(),
            bytes@,
        );
        assert forall|x: Z1PatchFormatV4|
            bytes@ == #[trigger] patch_bytes(x@) && patch_payload(x@).len()
                <= u32::MAX implies r is Ok && r->Ok_0@ == x@ by {
            assert(x.payload_of() == patch_payload(x@));
            assert(frame_payload(bytes@) == x.payload_of());
        }
    }
    r
}

/// The largest transaction among these entries; 0 where there are none.
pub open spec fn top_txn(c: Seq<PatchModel>) -> TxnId
    decreases c.len(),
{
    if c.len() == 0 {
        0
    } else {
        let before = top_txn(c.drop_last());
        if c.last().txn_id > before {
            c.last().txn_id
        } else {
            before
        }
    }
}

/// No entry is above the largest transaction.
pub proof fn lemma_top_txn(c: Seq<PatchModel>)
    ensures
        forall|i: int| 0 <= i < c.len() ==> #[trigger] c[i].txn_id <= top_txn(c),
        c.len() > 0 ==> exists|i: int| 0 <= i < c.len() && #[trigger] c[i].txn_id == top_txn(c),
    decreases c.len(),
{
    if c.len() > 0 {
        let rest = c.drop_last();
        lemma_top_txn(rest);
        assert forall|i: int| 0 <= i < c.len() implies #[trigger] c[i].txn_id <= top_txn(c) by {
            if i < rest.len() {
                assert(rest[i] == c[i]);
                assert(rest[i].txn_id <= top_txn(rest));
            }
        }
        if c.last().txn_id > top_txn(rest) || rest.len() == 0 {
            assert(c[c.len() - 1].txn_id == top_txn(c));
        } else {
            let i = choose|i: int| 0 <= i < rest.len() && #[trigger] rest[i].txn_id == top_txn(rest);
            assert(c[i].txn_id == top_txn(c));
        }
    }
}

fn top_txn_of(format: &Z1PatchFormatV4) -> (r: TxnId)
    ensures
        r == top_txn(format@),
{
    proof {
        lemma_top_txn(format@);
    }
    match format.max_txn_id() {
        Some(t) => t,
        None => 0,
    }
}

/// The index entry of a patch file of these entries, not yet in memory.
pub open spec fn ref_of(name: Seq<char>, c: Seq<PatchModel>) -> RefModel {
    RefModel {
        min_key: if c.len() == 0 {
            Seq::empty()
        } else {
            c[0].key
        },
        max_key: if c.len() == 0 {
            Seq::empty()
        } else {
            c.last().key
        },
        max_txn: top_txn(c),
        name,
        content: None,
    }
}

/// These entries do not fit in a patch, which `e` reports.
pub open spec fn is_too_large(entries: Seq<PatchEntry>, e: Z1Error) -> bool {
    exists|sorted: Seq<PatchEntry>| #[trigger]
        stably_sorted(entries, sorted) && patch_payload(patch_models(sorted)).len() > u32::MAX
            && is_oversize(e, patch_payload(patch_models(sorted)).len())
}

/// `w` is the patch of these entries: sorted, under its number, with its
/// statistics and bytes.
pub open spec fn prepared(w: PatchWrite, cf: u16, entries: Seq<PatchEntry>, patch_id: u64) -> bool {
    is_patch_of(w, cf, entries, patch_id) && w.bytes@ == patch_bytes(w.patch.format@)
}

/// `w`, whatever its bytes, is the patch of these entries.
pub open spec fn is_patch_of(
    w: PatchWrite,
    cf: u16,
    entries: Seq<PatchEntry>,
    patch_id: u64,
) -> bool {
    let sorted = w.patch.format->entries@;
    let c = w.patch.format@;
    &&& w.cf == cf
    &&& w.name@ == patch_file(patch_id)
    &&& w.patch.patch_id == patch_id
    &&& stably_sorted(entries, sorted)
    &&& sorted.len() == entries.len()
    &&& c == patch_models(sorted)
    &&& patch_payload(c).len() <= u32::MAX
    &&& is_min_txn(c, w.patch.zone_map.min_txn)
    &&& is_max_txn(c, w.patch.zone_map.max_txn)
    &&& w.patch.txn_range == (w.patch.zone_map.min_txn, w.patch.zone_map.max_txn)
    &&& w.patch.zone_map.entry_count == c.len()
    &&& w.patch.zone_map.min_key matches Some(k) && k@ == c[0].key
    &&& w.patch.zone_map.max_key matches Some(k) && k@ == c.last().key
}

/// The name of a patch file carries its number, also without its extension.
pub proof fn law_patch_name_round_trip(id: u64)
    ensures
        patch_number(patch_file(id)) == Some(id as nat),
        stem_number(patch_file(id)) == Some(id as nat),
{
    reveal_strlit(".zpatch");
    lemma_zero_padded_round_trip(id as nat, 16);
    let digits = zero_padded(id as nat, 16);
    let name = patch_file(id);
    let n = digits.len() as int;
    assert(name.len() == n + 7);
    assert(name.skip(name.len() - 7) =~= ".zpatch"@);
    assert(name.take(n) =~= digits);
    assert(name[n] == '.');
    assert(n > 0) by {
        crate::text::lemma_decimal_digits_value(id as nat);
    }
    assert(name[n + 1] == 'z' && name[n + 2] == 'p' && name[n + 3] == 'a' && name[n + 4] == 't');
    assert(name[n + 5] == 'c' && name[n + 6] == 'h');
    assert(last_dot(name, name.len()) == n) by {
        reveal_with_fuel(last_dot, 8);
    }
}

/// The directory of a column family names it.
pub proof fn law_cf_dir_round_trip(cf: u16)
    ensures
        cf_of_dir(hex_fixed(cf as nat, 4)) == Some(cf as nat),
{
    lemma_hex_fixed_round_trip(cf as nat, 4);
}

} // verus!
