//! Core types of the versioned store.
//!
//! - `Z1Entry`: one version of one key, `(cf, key, txn_id) -> value | tombstone`
//! - `Z1PatchFormatV4`: a patch, a sorted sequence of `(key, tombstone | value)`
//! - `PatchZoneMap`: transaction range and key bounds of a patch
//!
//! The version chain is the history: readers pick the visible version by
//! transaction id, and a tombstone expresses deletion. `Z1Key` orders by
//! column family first, then by key bytes.

use crate::bytes::{
    bytes_eq, compare_bytes, copy_bytes, lemma_lex_asymmetric, lemma_lex_irreflexive,
    lemma_lex_total, lemma_lex_transitive, lex_le, lex_lt, KeyOrder,
};
use crate::codec::disk_format::DiskFormat;
use crate::codec::payload::{
    decode_rows, decoded_rows, encode_rows, encoded_rows, row_refs_model, rows_model, slice_model,
    vec_model, Row, RowRef,
};
use crate::error::{concat2, Result, Z1Error};
use crate::sort::{ascending, reversed, stable_sort, stably_sorted, Ranked};
use crate::TxnId;
use core::cmp::Ordering;
use std::collections::{HashMap, HashSet};
use std::sync::Arc;
use vstd::prelude::*;
use vstd::std_specs::hash::*;

verus! {

broadcast use group_hash_axioms;

/// A versioned key: column family and user key bytes.
#[derive(Debug, Eq, Ord, Hash)]
pub struct Z1Key {
    pub cf: u16,
    pub key: Vec<u8>,
}

/// A key as a mathematical value.
#[verifier::ext_equal]
pub struct KeyModel {
    pub cf: u16,
    pub key: Seq<u8>,
}

impl View for Z1Key {
    type V = KeyModel;

    open spec fn view(&self) -> KeyModel {
        KeyModel { cf: self.cf, key: self.key@ }
    }
}

/// Column family first, then key bytes.
pub open spec fn key_lt(a: KeyModel, b: KeyModel) -> bool {
    a.cf < b.cf || (a.cf == b.cf && lex_lt(a.key, b.key))
}

impl PartialEq for Z1Key {
    fn eq(&self, other: &Self) -> (r: bool) {
        self.cf == other.cf && bytes_eq(self.key.as_slice(), other.key.as_slice())
    }
}

impl vstd::std_specs::cmp::PartialEqSpecImpl for Z1Key {
    open spec fn obeys_eq_spec() -> bool {
        true
    }

    open spec fn eq_spec(&self, other: &Self) -> bool {
        self.cf == other.cf && self.key@ == other.key@
    }
}

impl PartialOrd for Z1Key {
    fn partial_cmp(&self, other: &Self) -> (r: Option<Ordering>) {
        if self.cf < other.cf {
            return Some(Ordering::Less);
        }
        if self.cf > other.cf {
            return Some(Ordering::Greater);
        }
        proof {
            lemma_lex_irreflexive(self.key@);
            if lex_lt(other.key@, self.key@) {
                lemma_lex_asymmetric(other.key@, self.key@);
            }
        }
        match compare_bytes(self.key.as_slice(), other.key.as_slice()) {
            KeyOrder::Less => Some(Ordering::Less),
            KeyOrder::Equal => Some(Ordering::Equal),
            KeyOrder::Greater => Some(Ordering::Greater),
        }
    }
}

impl vstd::std_specs::cmp::PartialOrdSpecImpl for Z1Key {
    open spec fn obeys_partial_cmp_spec() -> bool {
        true
    }

    open spec fn partial_cmp_spec(&self, other: &Self) -> Option<Ordering> {
        if key_lt(self@, other@) {
            Some(Ordering::Less)
        } else if self.cf == other.cf && self.key@ == other.key@ {
            Some(Ordering::Equal)
        } else {
            Some(Ordering::Greater)
        }
    }
}

impl Z1Key {
    pub fn new(cf: u16, key: Vec<u8>) -> (r: Self)
        ensures
            r.cf == cf,
            r.key == key,
    {
        Z1Key { cf, key }
    }
}

impl Clone for Z1Key {
    fn clone(&self) -> (r: Self)
        ensures
            r@ == self@,
    {
        Z1Key { cf: self.cf, key: copy_bytes(self.key.as_slice()) }
    }
}

/// One version of one key.
///
/// `value: None` is a tombstone. Whether a version is visible is decided by
/// the commit history and the active transactions of a snapshot alone.
#[derive(Debug)]
pub struct Z1Entry {
    pub key: Z1Key,
    pub txn_id: TxnId,
    /// `None` = tombstone; `Some(bytes)` = value.
    pub value: Option<Arc<Vec<u8>>>,
    /// Wall-clock milliseconds since the epoch.
    pub ts: i64,
}

/// A version as a mathematical value.
#[verifier::ext_equal]
pub struct EntryModel {
    pub key: KeyModel,
    pub txn_id: TxnId,
    pub value: Option<Seq<u8>>,
    pub ts: i64,
}

/// The bytes of a stored value; a tombstone has none.
pub open spec fn value_model(v: Option<Arc<Vec<u8>>>) -> Option<Seq<u8>> {
    match v {
        Some(bytes) => Some(bytes@),
        None => None,
    }
}

impl View for Z1Entry {
    type V = EntryModel;

    open spec fn view(&self) -> EntryModel {
        EntryModel {
            key: self.key@,
            txn_id: self.txn_id,
            value: value_model(self.value),
            ts: self.ts,
        }
    }
}

/// The versions of a vector.
pub open spec fn entry_models(s: Seq<Z1Entry>) -> Seq<EntryModel> {
    s.map_values(|e: Z1Entry| e@)
}

pub proof fn lemma_entry_models_push(s: Seq<Z1Entry>, e: Z1Entry)
    ensures
        entry_models(s.push(e)) == entry_models(s).push(e@),
{
    assert(entry_models(s.push(e)) =~= entry_models(s).push(e@));
}

/// Whether a version written by `txn` is visible in a snapshot: the
/// transaction is not in the snapshot's future, was not active when it was
/// taken, and is known to have committed by then. Without commit history
/// the version is invisible.
pub open spec fn visible_at(
    txn: TxnId,
    snapshot: TxnId,
    commits: Map<TxnId, u64>,
    active: Set<TxnId>,
) -> bool {
    &&& txn <= snapshot
    &&& !active.contains(txn)
    &&& commits.contains_key(txn)
    &&& commits[txn] <= snapshot
}

/// `Arc::clone`: another handle to the same bytes.
#[verifier::external_body]
fn share(v: &Arc<Vec<u8>>) -> (r: Arc<Vec<u8>>)
    ensures
        r@ == v@,
{
    Arc::clone(v)
}

/// Another handle to a stored value.
pub fn share_value(v: &Option<Arc<Vec<u8>>>) -> (r: Option<Arc<Vec<u8>>>)
    ensures
        value_model(r) == value_model(*v),
{
    match v {
        Some(bytes) => Some(share(bytes)),
        None => None,
    }
}

/// The clone shares the value bytes.
impl Clone for Z1Entry {
    fn clone(&self) -> (r: Self)
        ensures
            r@ == self@,
    {
        Z1Entry {
            key: self.key.clone(),
            txn_id: self.txn_id,
            value: share_value(&self.value),
            ts: self.ts,
        }
    }
}

impl Z1Entry {
    /// A delete marker.
    pub fn tombstone(key: Z1Key, txn_id: TxnId, ts: i64) -> (r: Self)
        ensures
            r@ == (EntryModel { key: key@, txn_id, value: None, ts }),
    {
        Z1Entry { key, txn_id, value: None, ts }
    }

    /// A value.
    pub fn put(key: Z1Key, txn_id: TxnId, value: Vec<u8>, ts: i64) -> (r: Self)
        ensures
            r@ == (EntryModel { key: key@, txn_id, value: Some(value@), ts }),
    {
        Z1Entry { key, txn_id, value: Some(Arc::new(value)), ts }
    }

    pub fn is_tombstone(&self) -> (r: bool)
        ensures
            r == (self@.value is None),
    {
        self.value.is_none()
    }

    /// Whether this version is visible to a snapshot with this commit history
    /// and these active transactions. No commit history means invisible.
    pub fn is_visible_at_commit(
        &self,
        snapshot_txn: TxnId,
        commit_ts_by_txn: &HashMap<TxnId, u64>,
        active_txns: &HashSet<TxnId>,
    ) -> (r: bool)
        ensures
            r == visible_at(self.txn_id, snapshot_txn, commit_ts_by_txn@, active_txns@),
    {
        if self.txn_id > snapshot_txn {
            return false;
        }
        if active_txns.contains(&self.txn_id) {
            return false;
        }
        match commit_ts_by_txn.get(&self.txn_id) {
            Some(commit_ts) => *commit_ts <= snapshot_txn,
            None => false,
        }
    }
}

/// Statistics of a patch, for pruning by transaction range and key bounds.
#[derive(Debug, Default)]
pub struct PatchZoneMap {
    /// Smallest transaction id in the patch.
    pub min_txn: TxnId,
    /// Largest transaction id in the patch.
    pub max_txn: TxnId,
    /// Number of entries in the patch.
    pub entry_count: u64,
    /// Smallest key in the patch.
    pub min_key: Option<Vec<u8>>,
    /// Largest key in the patch.
    pub max_key: Option<Vec<u8>>,
}

/// Whether two optional keys are both absent or equal.
pub open spec fn same_bound(a: Option<Vec<u8>>, b: Option<Vec<u8>>) -> bool {
    match (a, b) {
        (Some(x), Some(y)) => x@ == y@,
        (None, None) => true,
        _ => false,
    }
}

fn copy_bound(a: &Option<Vec<u8>>) -> (r: Option<Vec<u8>>)
    ensures
        same_bound(*a, r),
{
    match a {
        Some(key) => Some(copy_bytes(key.as_slice())),
        None => None,
    }
}

/// Whether two statistics say the same.
pub open spec fn same_zone(a: PatchZoneMap, b: PatchZoneMap) -> bool {
    &&& a.min_txn == b.min_txn
    &&& a.max_txn == b.max_txn
    &&& a.entry_count == b.entry_count
    &&& same_bound(a.min_key, b.min_key)
    &&& same_bound(a.max_key, b.max_key)
}

impl Clone for PatchZoneMap {
    fn clone(&self) -> (r: Self)
        ensures
            same_zone(*self, r),
    {
        PatchZoneMap {
            min_txn: self.min_txn,
            max_txn: self.max_txn,
            entry_count: self.entry_count,
            min_key: copy_bound(&self.min_key),
            max_key: copy_bound(&self.max_key),
        }
    }
}

/// One entry of a patch.
#[derive(Debug)]
pub struct PatchEntry {
    pub key: Vec<u8>,
    /// `None` = tombstone.
    pub value: Option<Arc<Vec<u8>>>,
    /// The transaction that wrote this version.
    pub txn_id: TxnId,
}

/// A patch entry as a mathematical value.
#[verifier::ext_equal]
pub struct PatchModel {
    pub key: Seq<u8>,
    pub value: Option<Seq<u8>>,
    pub txn_id: TxnId,
}

impl View for PatchEntry {
    type V = PatchModel;

    open spec fn view(&self) -> PatchModel {
        PatchModel { key: self.key@, value: value_model(self.value), txn_id: self.txn_id }
    }
}

/// The entries of a vector.
pub open spec fn patch_models(s: Seq<PatchEntry>) -> Seq<PatchModel> {
    s.map_values(|e: PatchEntry| e@)
}

pub proof fn lemma_patch_models_push(s: Seq<PatchEntry>, e: PatchEntry)
    ensures
        patch_models(s.push(e)) == patch_models(s).push(e@),
{
    assert(patch_models(s.push(e)) =~= patch_models(s).push(e@));
}

/// By key, then by transaction id.
pub open spec fn patch_le(a: PatchModel, b: PatchModel) -> bool {
    lex_lt(a.key, b.key) || (a.key == b.key && a.txn_id <= b.txn_id)
}

impl Ranked for PatchEntry {
    open spec fn ranks_le(self, other: Self) -> bool {
        patch_le(self@, other@)
    }

    proof fn ranks_total(a: Self, b: Self) {
        lemma_lex_total(a.key@, b.key@);
    }

    proof fn ranks_transitive(a: Self, b: Self, c: Self) {
        if lex_lt(a.key@, b.key@) && lex_lt(b.key@, c.key@) {
            lemma_lex_transitive(a.key@, b.key@, c.key@);
        }
    }

    fn is_le(&self, other: &Self) -> (r: bool) {
        match compare_bytes(self.key.as_slice(), other.key.as_slice()) {
            KeyOrder::Less => true,
            KeyOrder::Equal => {
                proof {
                    lemma_lex_irreflexive(self.key@);
                }
                self.txn_id <= other.txn_id
            },
            KeyOrder::Greater => {
                proof {
                    lemma_lex_asymmetric(other.key@, self.key@);
                }
                false
            },
        }
    }
}

/// The clone shares the value bytes.
impl Clone for PatchEntry {
    fn clone(&self) -> (r: Self)
        ensures
            r@ == self@,
    {
        PatchEntry {
            key: copy_bytes(self.key.as_slice()),
            value: share_value(&self.value),
            txn_id: self.txn_id,
        }
    }
}

/// The content of a persistent patch.
#[derive(Debug)]
pub enum Z1PatchFormatV4 {
    /// Entries sorted by key, then by transaction id.
    Sparse { entries: Vec<PatchEntry> },
}

impl View for Z1PatchFormatV4 {
    type V = Seq<PatchModel>;

    open spec fn view(&self) -> Seq<PatchModel> {
        patch_models(self->entries@)
    }
}

/// A copy of patch entries; the value bytes are shared.
pub fn copy_patch_entries(v: &Vec<PatchEntry>) -> (r: Vec<PatchEntry>)
    ensures
        patch_models(r@) == patch_models(v@),
{
    let mut r: Vec<PatchEntry> = Vec::new();
    let mut i: usize = 0;
    while i < v.len()
        invariant
            i <= v@.len(),
            patch_models(r@) == patch_models(v@).take(i as int),
        decreases v@.len() - i,
    {
        let e = v[i].clone();
        proof {
            lemma_patch_models_push(r@, e);
            assert(patch_models(v@).take(i + 1) =~= patch_models(v@).take(i as int).push(e@));
        }
        r.push(e);
        i = i + 1;
    }
    assert(patch_models(v@).take(i as int) =~= patch_models(v@));
    r
}

impl Clone for Z1PatchFormatV4 {
    fn clone(&self) -> (r: Self)
        ensures
            r@ == self@,
    {
        match self {
            Z1PatchFormatV4::Sparse { entries } => Z1PatchFormatV4::Sparse {
                entries: copy_patch_entries(entries),
            },
        }
    }
}

/// `m` is the largest transaction id of a non-empty patch.
pub open spec fn is_max_txn(s: Seq<PatchModel>, m: TxnId) -> bool {
    &&& exists|i: int| 0 <= i < s.len() && #[trigger] s[i].txn_id == m
    &&& forall|i: int| 0 <= i < s.len() ==> #[trigger] s[i].txn_id <= m
}

/// `m` is the smallest transaction id of a non-empty patch.
pub open spec fn is_min_txn(s: Seq<PatchModel>, m: TxnId) -> bool {
    &&& exists|i: int| 0 <= i < s.len() && #[trigger] s[i].txn_id == m
    &&& forall|i: int| 0 <= i < s.len() ==> m <= #[trigger] s[i].txn_id
}

impl Z1PatchFormatV4 {
    /// A patch of these entries, sorted by key and then by transaction id;
    /// entries equal in both keep their order.
    pub fn sparse(entries: Vec<PatchEntry>) -> (r: Self)
        ensures
            stably_sorted(entries@, r->entries@),
            r->entries@.len() == entries@.len(),
    {
        Z1PatchFormatV4::Sparse { entries: stable_sort(entries) }
    }

    /// Number of entries.
    pub fn entry_count(&self) -> (r: usize)
        ensures
            r == self@.len(),
    {
        match self {
            Z1PatchFormatV4::Sparse { entries } => entries.len(),
        }
    }

    /// The largest transaction id; `None` for an empty patch.
    pub fn max_txn_id(&self) -> (r: Option<TxnId>)
        ensures
            match r {
                Some(m) => is_max_txn(self@, m),
                None => self@.len() == 0,
            },
    {
        match self {
            Z1PatchFormatV4::Sparse { entries } => {
                if entries.len() == 0 {
                    return None;
                }
                let mut m: TxnId = entries[0].txn_id;
                assert(self@[0].txn_id == m);
                let mut i: usize = 1;
                while i < entries.len()
                    invariant
                        1 <= i <= entries@.len(),
                        self@ == patch_models(entries@),
                        exists|j: int| 0 <= j < self@.len() && #[trigger] self@[j].txn_id == m,
                        forall|j: int| 0 <= j < i ==> #[trigger] self@[j].txn_id <= m,
                    decreases entries@.len() - i,
                {
                    if entries[i].txn_id > m {
                        m = entries[i].txn_id;
                        assert(self@[i as int].txn_id == m);
                    }
                    i = i + 1;
                }
                Some(m)
            },
        }
    }

    /// The smallest transaction id; `None` for an empty patch.
    pub fn min_txn_id(&self) -> (r: Option<TxnId>)
        ensures
            match r {
                Some(m) => is_min_txn(self@, m),
                None => self@.len() == 0,
            },
    {
        match self {
            Z1PatchFormatV4::Sparse { entries } => {
                if entries.len() == 0 {
                    return None;
                }
                let mut m: TxnId = entries[0].txn_id;
                assert(self@[0].txn_id == m);
                let mut i: usize = 1;
                while i < entries.len()
                    invariant
                        1 <= i <= entries@.len(),
                        self@ == patch_models(entries@),
                        exists|j: int| 0 <= j < self@.len() && #[trigger] self@[j].txn_id == m,
                        forall|j: int| 0 <= j < i ==> m <= #[trigger] self@[j].txn_id,
                    decreases entries@.len() - i,
                {
                    if entries[i].txn_id < m {
                        m = entries[i].txn_id;
                        assert(self@[i as int].txn_id == m);
                    }
                    i = i + 1;
                }
                Some(m)
            },
        }
    }

    /// The first and the last key; in a sorted patch the smallest and the
    /// largest.
    pub fn key_bounds(&self) -> (r: (Option<&[u8]>, Option<&[u8]>))
        ensures
            self@.len() == 0 ==> r.0 is None && r.1 is None,
            self@.len() > 0 ==> r.0 is Some && r.0->0@ == self@[0].key && r.1 is Some && r.1->0@
                == self@.last().key,
    {
        match self {
            Z1PatchFormatV4::Sparse { entries } => {
                if entries.len() == 0 {
                    (None, None)
                } else {
                    (
                        Some(entries[0].key.as_slice()),
                        Some(entries[entries.len() - 1].key.as_slice()),
                    )
                }
            },
        }
    }
}

/// The rows that a patch is encoded as.
pub open spec fn patch_rows(s: Seq<PatchModel>) -> Seq<(Seq<u8>, Option<Seq<u8>>, u64)> {
    s.map_values(|e: PatchModel| (e.key, e.value, e.txn_id))
}

/// The tag of the sparse layout.
pub const SPARSE_TAG: u32 = 0;

/// Borrow entries as rows.
fn rows_of(entries: &Vec<PatchEntry>) -> (r: Vec<RowRef<'_>>)
    ensures
        row_refs_model(r@) == patch_rows(patch_models(entries@)),
{
    let mut rows: Vec<RowRef<'_>> = Vec::new();
    let mut i: usize = 0;
    while i < entries.len()
        invariant
            i <= entries@.len(),
            rows@.len() == i,
            forall|j: int|
                0 <= j < i ==> (#[trigger] rows@[j]).0@ == entries@[j].key@ && slice_model(
                    rows@[j].1,
                ) == value_model(entries@[j].value) && rows@[j].2 == entries@[j].txn_id,
        decreases entries@.len() - i,
    {
        let value: Option<&[u8]> = match &entries[i].value {
            Some(bytes) => Some(bytes.as_slice()),
            None => None,
        };
        rows.push((entries[i].key.as_slice(), value, entries[i].txn_id));
        i = i + 1;
    }
    assert(row_refs_model(rows@) =~= patch_rows(patch_models(entries@)));
    rows
}

/// Turn rows into entries.
fn entries_of(rows: Vec<Row>) -> (r: Vec<PatchEntry>)
    ensures
        patch_rows(patch_models(r@)) == rows_model(rows@),
{
    let mut rows = rows;
    let ghost all = rows@;
    let mut back: Vec<PatchEntry> = Vec::new();
    while rows.len() > 0
        invariant
            rows@ == all.take(rows@.len() as int),
            rows@.len() + back@.len() == all.len(),
            forall|j: int|
                0 <= j < back@.len() ==> {
                    let row = all[all.len() - 1 - j];
                    (#[trigger] back@[j])@ == (PatchModel {
                        key: row.0@,
                        value: vec_model(row.1),
                        txn_id: row.2,
                    })
                },
        decreases rows@.len(),
    {
        let ghost n = rows@.len();
        match rows.pop() {
            Some((key, value, txn_id)) => {
                let value: Option<Arc<Vec<u8>>> = match value {
                    Some(bytes) => Some(Arc::new(bytes)),
                    None => None,
                };
                back.push(PatchEntry { key, value, txn_id });
            },
            None => {},
        }
        assert(rows@ =~= all.take(n - 1));
    }
    let r = reversed(back);
    assert(patch_rows(patch_models(r@)) =~= rows_model(all));
    r
}

impl Z1PatchFormatV4 {
    pub open spec fn format_magic() -> Seq<u8> {
        seq![68u8, 76u8, 84u8, 48u8, 48u8, 52u8]
    }

    pub open spec fn format_version() -> u32 {
        4
    }

    /// The payload that stands for a patch.
    pub open spec fn payload_of(self) -> Seq<u8> {
        encoded_rows(SPARSE_TAG, patch_rows(self@))
    }

    /// The payload decodes.
    pub open spec fn decodes(payload: Seq<u8>) -> bool {
        decoded_rows(payload) is Some && (decoded_rows(payload)->0).0 == SPARSE_TAG
    }

    /// How a payload that does not decode is reported. The text is postcard's
    /// own where it does not know the payload; a tag of no variant is reported
    /// as postcard reports it.
    pub open spec fn decode_error(payload: Seq<u8>, e: Z1Error) -> bool {
        &&& e matches Z1Error::Deserialize(m) && "postcard decode: "@.is_prefix_of(m@)
        &&& decoded_rows(payload) is Some ==> (e matches Z1Error::Deserialize(m) && m@
            == "postcard decode: "@ + "Serde Deserialization Error"@)
    }
}

/// A patch on disk: magic `DLT004`, version 4, no older version is read.
impl DiskFormat for Z1PatchFormatV4 {
    fn magic() -> (r: [u8; 6])
        ensures
            r@ == Self::format_magic(),
    {
        let r: [u8; 6] = [68u8, 76u8, 84u8, 48u8, 48u8, 52u8];
        assert(r@ =~= Self::format_magic());
        r
    }

    fn version() -> (r: u32)
        ensures
            r == Self::format_version(),
    {
        4
    }

    fn min_readable_version() -> (r: u32)
        ensures
            r == Self::format_version(),
    {
        4
    }

    fn encode_payload(&self) -> (r: Result<Vec<u8>>)
        ensures
            r is Ok,
            r->Ok_0@ == self.payload_of(),
    {
        match self {
            Z1PatchFormatV4::Sparse { entries } => {
                let rows = rows_of(entries);
                match encode_rows(SPARSE_TAG, &rows) {
                    Ok(payload) => Ok(payload),
                    Err(e) => Err(Z1Error::Serialization(concat2("postcard encode: ", e.as_str()))),
                }
            },
        }
    }

    fn decode_payload(payload: &[u8]) -> (r: Result<Self>)
        ensures
            r is Ok <==> Self::decodes(payload@),
            r is Ok ==> decoded_rows(payload@) == Some((SPARSE_TAG, patch_rows(r->Ok_0@))),
            r matches Err(e) ==> Self::decode_error(payload@, e),
            forall|x: Self| payload@ == #[trigger] x.payload_of() ==> r is Ok && r->Ok_0@ == x@,
    {
        match decode_rows(payload) {
            Ok((tag, rows)) => {
                if tag != SPARSE_TAG {
                    let m = concat2("postcard decode: ", "Serde Deserialization Error");
                    assert("postcard decode: "@.is_prefix_of(m@));
                    return Err(Z1Error::Deserialize(m));
                }
                let ghost model = rows_model(rows@);
                let entries = entries_of(rows);
                let r = Z1PatchFormatV4::Sparse { entries };
                proof {
                    assert forall|x: Self| payload@ == #[trigger] x.payload_of() implies r@
                        == x@ by {
                        assert(patch_rows(r@) == patch_rows(x@));
                        assert forall|i: int| 0 <= i < r@.len() implies r@[i] == x@[i] by {
                            assert(patch_rows(r@)[i] == patch_rows(x@)[i]);
                        }
                        assert(r@.len() == patch_rows(r@).len());
                        assert(x@.len() == patch_rows(x@).len());
                        assert(r@ =~= x@);
                    }
                }
                Ok(r)
            },
            Err(e) => {
                let m = concat2("postcard decode: ", e.as_str());
                assert("postcard decode: "@.is_prefix_of(m@));
                Err(Z1Error::Deserialize(m))
            },
        }
    }
}

/// A persistent patch, the unit stored in L2 and L3.
#[derive(Debug)]
pub struct Z1Patch {
    pub patch_id: u64,
    /// Transaction range covered by this patch.
    pub txn_range: (TxnId, TxnId),
    pub format: Z1PatchFormatV4,
    pub zone_map: PatchZoneMap,
}

impl Clone for Z1Patch {
    fn clone(&self) -> (r: Self)
        ensures
            r.patch_id == self.patch_id,
            r.txn_range == self.txn_range,
            r.format@ == self.format@,
            same_zone(self.zone_map, r.zone_map),
    {
        Z1Patch {
            patch_id: self.patch_id,
            txn_range: (self.txn_range.0, self.txn_range.1),
            format: self.format.clone(),
            zone_map: self.zone_map.clone(),
        }
    }
}

/// Size of the store, for durability and recovery bookkeeping.
#[derive(Debug, Clone, Copy)]
pub struct StoreCheckpointState {
    pub committed_txn: TxnId,
    pub l1_entry_count: usize,
    pub l1_size_bytes: u64,
    pub l2_patch_counts: u64,
    pub l3_patch_counts: u64,
}

/// The key bounds of a sorted patch hold all its keys.
pub proof fn lemma_sorted_patch_bounds(entries: Seq<PatchEntry>, i: int)
    requires
        ascending(entries),
        0 <= i < entries.len(),
    ensures
        lex_le(entries[0].key@, entries[i].key@),
        lex_le(entries[i].key@, entries.last().key@),
{
    assert(entries[0].ranks_le(entries[i]));
    assert(entries[i].ranks_le(entries[entries.len() - 1]));
}

} // verus!
