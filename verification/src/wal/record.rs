//! WAL records: their bytes, and reading them back.
//!
//! A segment is a run of records
//!
//! ```text
//! len(4B LE) | crc32(4B LE) | payload(len bytes)
//! ```
//!
//! where `len` counts the payload bytes and `crc32` covers them. The payload
//! holds the transaction id, a tag for the kind of record, and its fields.

use crate::bytes::{
    copy_bytes, le_u32, lemma_le_u32_differs, lemma_le_u32_round_trip, push_bytes, push_le_u32,
    read_le_u32, u32_of_le,
};
use crate::codec::payload::{
    checksum, crc32, decode_head, decode_number, decode_pair, decode_write, decoded_head,
    decoded_number, decoded_pair, decoded_write, encode_head, encode_number, encode_pair,
    encode_write, encoded_head, encoded_number, encoded_pair, encoded_write,
    law_checksum_tells_a_changed_byte, lemma_encoded_write_len, vec_model,
};
use crate::error::{concat2, Result, Z1Error};
use crate::text::{copy_str, decimal, hex_fixed, push_decimal, push_hex_fixed};
use crate::TxnId;
use vstd::prelude::*;
use vstd::slice::slice_subrange;

verus! {

/// Largest payload of a record. A reader refuses a larger declared length
/// before it looks at the payload, and a writer refuses to write one.
pub const MAX_WAL_RECORD_LEN: u32 = 64 * 1024 * 1024;

/// The content of a WAL record.
#[derive(Debug, PartialEq)]
pub enum WalRecord {
    /// A single versioned write; no value is a tombstone.
    Put { cf: u16, key: Vec<u8>, value: Option<Vec<u8>> },
    /// The transaction has begun.
    Begin,
    /// The transaction has committed. `inserted_at` is the wall-clock time
    /// captured at commit, by which its history entry ages.
    Commit { commit_ts: u64, inserted_at: u64 },
    /// The transaction was rolled back.
    Rollback,
    /// Checkpoint marker.
    Checkpoint { checkpoint_id: u64 },
}

/// A record with its transaction.
#[derive(Debug, PartialEq)]
pub struct WalEntry {
    pub txn_id: TxnId,
    pub record: WalRecord,
}

/// The content of a record as a mathematical value.
#[verifier::ext_equal]
pub enum RecordModel {
    Put { cf: u16, key: Seq<u8>, value: Option<Seq<u8>> },
    Begin,
    Commit { commit_ts: u64, inserted_at: u64 },
    Rollback,
    Checkpoint { checkpoint_id: u64 },
}

/// A WAL entry as a mathematical value.
#[verifier::ext_equal]
pub struct WalModel {
    pub txn_id: TxnId,
    pub record: RecordModel,
}

impl View for WalRecord {
    type V = RecordModel;

    open spec fn view(&self) -> RecordModel {
        match *self {
            WalRecord::Put { cf, key, value } => RecordModel::Put {
                cf,
                key: key@,
                value: vec_model(value),
            },
            WalRecord::Begin => RecordModel::Begin,
            WalRecord::Commit { commit_ts, inserted_at } => RecordModel::Commit {
                commit_ts,
                inserted_at,
            },
            WalRecord::Rollback => RecordModel::Rollback,
            WalRecord::Checkpoint { checkpoint_id } => RecordModel::Checkpoint { checkpoint_id },
        }
    }
}

impl View for WalEntry {
    type V = WalModel;

    open spec fn view(&self) -> WalModel {
        WalModel { txn_id: self.txn_id, record: self.record@ }
    }
}

/// The entries of a vector.
pub open spec fn wal_models(s: Seq<WalEntry>) -> Seq<WalModel> {
    s.map_values(|e: WalEntry| e@)
}

pub proof fn lemma_wal_models_push(s: Seq<WalEntry>, e: WalEntry)
    ensures
        wal_models(s.push(e)) == wal_models(s).push(e@),
{
    assert(wal_models(s.push(e)) =~= wal_models(s).push(e@));
}

/// A copy of an optional value.
fn copy_value(v: &Option<Vec<u8>>) -> (r: Option<Vec<u8>>)
    ensures
        vec_model(r) == vec_model(*v),
{
    match v {
        Some(bytes) => Some(copy_bytes(bytes.as_slice())),
        None => None,
    }
}

impl Clone for WalRecord {
    fn clone(&self) -> (r: Self)
        ensures
            r@ == self@,
    {
        match self {
            WalRecord::Put { cf, key, value } => WalRecord::Put {
                cf: *cf,
                key: copy_bytes(key.as_slice()),
                value: copy_value(value),
            },
            WalRecord::Begin => WalRecord::Begin,
            WalRecord::Commit { commit_ts, inserted_at } => WalRecord::Commit {
                commit_ts: *commit_ts,
                inserted_at: *inserted_at,
            },
            WalRecord::Rollback => WalRecord::Rollback,
            WalRecord::Checkpoint { checkpoint_id } => WalRecord::Checkpoint {
                checkpoint_id: *checkpoint_id,
            },
        }
    }
}

impl Clone for WalEntry {
    fn clone(&self) -> (r: Self)
        ensures
            r@ == self@,
    {
        WalEntry { txn_id: self.txn_id, record: self.record.clone() }
    }
}

/// The tag of a record.
pub open spec fn record_tag(r: RecordModel) -> u32 {
    match r {
        RecordModel::Put { .. } => 0,
        RecordModel::Begin => 1,
        RecordModel::Commit { .. } => 2,
        RecordModel::Rollback => 3,
        RecordModel::Checkpoint { .. } => 4,
    }
}

/// The fields of a record, encoded.
pub open spec fn record_fields(r: RecordModel) -> Seq<u8> {
    match r {
        RecordModel::Put { cf, key, value } => encoded_write(cf, key, value),
        RecordModel::Commit { commit_ts, inserted_at } => encoded_pair(commit_ts, inserted_at),
        RecordModel::Checkpoint { checkpoint_id } => encoded_number(checkpoint_id),
        _ => Seq::empty(),
    }
}

/// The payload of an entry.
pub open spec fn payload_of(e: WalModel) -> Seq<u8> {
    encoded_head(e.txn_id, record_tag(e.record)) + record_fields(e.record)
}

/// The entry that a payload holds.
pub open spec fn decoded_entry(payload: Seq<u8>) -> Option<WalModel> {
    match decoded_head(payload) {
        Some((txn_id, tag, rest)) => match decoded_fields(tag, rest) {
            Some(record) => Some(WalModel { txn_id, record }),
            None => None,
        },
        None => None,
    }
}

/// The record that a tag and the bytes behind it stand for.
pub open spec fn decoded_fields(tag: u32, rest: Seq<u8>) -> Option<RecordModel> {
    if tag == 0 {
        match decoded_write(rest) {
            Some((cf, key, value)) => Some(RecordModel::Put { cf, key, value }),
            None => None,
        }
    } else if tag == 1 {
        Some(RecordModel::Begin)
    } else if tag == 2 {
        match decoded_pair(rest) {
            Some((commit_ts, inserted_at)) => Some(RecordModel::Commit { commit_ts, inserted_at }),
            None => None,
        }
    } else if tag == 3 {
        Some(RecordModel::Rollback)
    } else if tag == 4 {
        match decoded_number(rest) {
            Some(checkpoint_id) => Some(RecordModel::Checkpoint { checkpoint_id }),
            None => None,
        }
    } else {
        None
    }
}

/// The payload is not larger than a record may hold.
pub open spec fn fits(e: WalModel) -> bool {
    payload_of(e).len() <= MAX_WAL_RECORD_LEN
}

/// The bytes of an entry in a segment.
pub open spec fn record_bytes(e: WalModel) -> Seq<u8> {
    le_u32(payload_of(e).len() as u32) + le_u32(crc32(payload_of(e))) + payload_of(e)
}

/// The bytes of entries in a segment, one after the other.
pub open spec fn log_bytes(es: Seq<WalModel>) -> Seq<u8>
    decreases es.len(),
{
    if es.len() == 0 {
        Seq::empty()
    } else {
        log_bytes(es.drop_last()) + record_bytes(es.last())
    }
}

pub open spec fn all_fit(es: Seq<WalModel>) -> bool {
    forall|i: int| 0 <= i < es.len() ==> fits(#[trigger] es[i])
}

/// The bytes of key and value that a record carries.
pub open spec fn raw_len(r: RecordModel) -> nat {
    match r {
        RecordModel::Put { key, value, .. } => key.len() + (match value {
            Some(v) => v.len(),
            None => 0,
        }),
        _ => 0,
    }
}

/// The payload of an entry.
fn encode_payload(entry: &WalEntry) -> (r: Result<Vec<u8>>)
    ensures
        r is Ok,
        r->Ok_0@ == payload_of(entry@),
        r->Ok_0@.len() >= raw_len(entry@.record),
{
    let tag: u32 = match &entry.record {
        WalRecord::Put { .. } => 0,
        WalRecord::Begin => 1,
        WalRecord::Commit { .. } => 2,
        WalRecord::Rollback => 3,
        WalRecord::Checkpoint { .. } => 4,
    };
    let mut out = match encode_head(entry.txn_id, tag) {
        Ok(v) => v,
        Err(e) => {
            return Err(Z1Error::Serialization(concat2("WAL encode: ", e.as_str())));
        },
    };
    let fields = match &entry.record {
        WalRecord::Put { cf, key, value } => {
            let v: Option<&[u8]> = match value {
                Some(bytes) => Some(bytes.as_slice()),
                None => None,
            };
            encode_write(*cf, key.as_slice(), v)
        },
        WalRecord::Commit { commit_ts, inserted_at } => encode_pair(*commit_ts, *inserted_at),
        WalRecord::Checkpoint { checkpoint_id } => encode_number(*checkpoint_id),
        _ => Ok(Vec::new()),
    };
    match fields {
        Ok(v) => {
            push_bytes(&mut out, v.as_slice());
            assert(out@ =~= payload_of(entry@));
            proof {
                if let RecordModel::Put { cf, key, value } = entry@.record {
                    lemma_encoded_write_len(cf, key, value);
                }
            }
            Ok(out)
        },
        Err(e) => Err(Z1Error::Serialization(concat2("WAL encode: ", e.as_str()))),
    }
}

/// The text about a payload that is larger than a record may hold.
pub open spec fn too_large_text(len: nat) -> Seq<char> {
    "WAL record too large: "@ + decimal(len) + " bytes (limit "@ + decimal(
        MAX_WAL_RECORD_LEN as nat,
    ) + ")"@
}

/// Turn an entry into its bytes in a segment. A payload over the limit, which
/// no reader would accept, is refused.
pub fn encode_record(entry: &WalEntry) -> (r: Result<Vec<u8>>)
    ensures
        r is Ok <==> fits(entry@),
        r matches Ok(bytes) ==> bytes@ == record_bytes(entry@),
        raw_len(entry@.record) > MAX_WAL_RECORD_LEN ==> r is Err,
        r matches Err(e) ==> (e matches Z1Error::Serialization(m) && m@ == too_large_text(
            payload_of(entry@).len(),
        )),
{
    let payload = match encode_payload(entry) {
        Ok(p) => p,
        Err(e) => {
            return Err(e);
        },
    };
    if payload.len() > MAX_WAL_RECORD_LEN as usize {
        let mut m = copy_str("WAL record too large: ");
        push_decimal(&mut m, payload.len() as u64);
        m.append(" bytes (limit ");
        push_decimal(&mut m, MAX_WAL_RECORD_LEN as u64);
        m.append(")");
        return Err(Z1Error::Serialization(m));
    }
    let crc: u32 = checksum(payload.as_slice());
    let mut out: Vec<u8> = Vec::new();
    push_le_u32(&mut out, payload.len() as u32);
    push_le_u32(&mut out, crc);
    push_bytes(&mut out, payload.as_slice());
    assert(out@ =~= record_bytes(entry@));
    Ok(out)
}

fn decode_fields(tag: u32, rest: &[u8]) -> (r: core::result::Result<WalRecord, String>)
    ensures
        r is Ok <==> decoded_fields(tag, rest@) is Some,
        r matches Ok(v) ==> decoded_fields(tag, rest@) == Some(v@),
        forall|m: RecordModel|
            tag == record_tag(m) && rest@ == #[trigger] record_fields(m) ==> (r is Ok
                && r->Ok_0@ == m),
{
    if tag == 0 {
        match decode_write(rest) {
            Ok((cf, key, value)) => Ok(WalRecord::Put { cf, key, value }),
            Err(e) => Err(e),
        }
    } else if tag == 1 {
        Ok(WalRecord::Begin)
    } else if tag == 2 {
        match decode_pair(rest) {
            Ok((commit_ts, inserted_at)) => Ok(WalRecord::Commit { commit_ts, inserted_at }),
            Err(e) => Err(e),
        }
    } else if tag == 3 {
        Ok(WalRecord::Rollback)
    } else if tag == 4 {
        match decode_number(rest) {
            Ok(checkpoint_id) => Ok(WalRecord::Checkpoint { checkpoint_id }),
            Err(e) => Err(e),
        }
    } else {
        Err(copy_str("Serde Deserialization Error"))
    }
}

/// Read the entry that a payload holds; what `encode_record` wrote is read
/// back.
fn decode_payload(payload: &[u8]) -> (r: core::result::Result<WalEntry, String>)
    ensures
        r is Ok <==> decoded_entry(payload@) is Some,
        r matches Ok(v) ==> decoded_entry(payload@) == Some(v@),
        forall|e: WalModel|
            payload@ == #[trigger] payload_of(e) ==> (r is Ok && r->Ok_0@ == e),
{
    match decode_head(payload) {
        Ok((txn_id, tag, rest)) => {
            let record = match decode_fields(tag, rest) {
                Ok(record) => record,
                Err(e) => {
                    proof {
                        assert forall|m: WalModel| payload@ == #[trigger] payload_of(
                            m,
                        ) implies false by {
                            assert(payload@ == encoded_head(m.txn_id, record_tag(m.record))
                                + record_fields(m.record));
                        }
                    }
                    return Err(e);
                },
            };
            let r = WalEntry { txn_id, record };
            proof {
                assert forall|m: WalModel| payload@ == #[trigger] payload_of(m) implies r@ == m by {
                    assert(payload@ == encoded_head(m.txn_id, record_tag(m.record))
                        + record_fields(m.record));
                }
            }
            Ok(r)
        },
        Err(e) => {
            proof {
                assert forall|m: WalModel| payload@ == #[trigger] payload_of(m) implies false by {
                    assert(payload@ == encoded_head(m.txn_id, record_tag(m.record))
                        + record_fields(m.record));
                }
            }
            Err(e)
        },
    }
}

/// What stands at a position of a segment.
pub enum RecordAt {
    /// The segment ends here.
    End,
    /// Fewer bytes than a record header.
    TruncatedHeader,
    /// A declared length over the limit.
    TooLong(u32),
    /// Fewer payload bytes than declared.
    TruncatedPayload,
    /// The stored checksum is not the payload's.
    CrcMismatch(u32, u32),
    /// The payload holds no entry.
    Undecodable,
    /// An entry, and where the next record begins.
    Entry(WalModel, int),
}

pub open spec fn record_at(seg: Seq<u8>, pos: int) -> RecordAt {
    let rest = seg.skip(pos);
    if rest.len() == 0 {
        RecordAt::End
    } else if rest.len() < 8 {
        RecordAt::TruncatedHeader
    } else {
        let len = u32_of_le(rest);
        let stored = u32_of_le(rest.skip(4));
        if len > MAX_WAL_RECORD_LEN {
            RecordAt::TooLong(len)
        } else if rest.len() < 8 + len {
            RecordAt::TruncatedPayload
        } else {
            let payload = rest.subrange(8, 8 + len);
            if crc32(payload) != stored {
                RecordAt::CrcMismatch(stored, crc32(payload))
            } else {
                match decoded_entry(payload) {
                    Some(e) => RecordAt::Entry(e, pos + 8 + len),
                    None => RecordAt::Undecodable,
                }
            }
        }
    }
}

/// `e` reports what stands where a record should.
pub open spec fn reports(at: RecordAt, e: Z1Error) -> bool {
    match at {
        RecordAt::TruncatedHeader => e matches Z1Error::Deserialize(m) && m@
            == "WAL truncated header"@,
        RecordAt::TooLong(len) => e matches Z1Error::Deserialize(m) && m@ == "WAL record length "@
            + decimal(len as nat) + " exceeds limit "@ + decimal(MAX_WAL_RECORD_LEN as nat)
            + " (corrupt or hostile file)"@,
        RecordAt::TruncatedPayload => e matches Z1Error::Deserialize(m) && m@
            == "WAL truncated payload"@,
        RecordAt::CrcMismatch(stored, actual) => e matches Z1Error::Deserialize(m) && m@
            == "WAL crc mismatch: stored="@ + hex_fixed(stored as nat, 8) + " actual="@ + hex_fixed(
            actual as nat,
            8,
        ),
        RecordAt::Undecodable => e matches Z1Error::Deserialize(m) && "WAL decode: "@.is_prefix_of(
            m@,
        ),
        _ => false,
    }
}

pub proof fn lemma_record_bytes_len(e: WalModel)
    requires
        fits(e),
    ensures
        record_bytes(e).len() == 8 + payload_of(e).len(),
        u32_of_le(record_bytes(e)) == payload_of(e).len(),
        u32_of_le(record_bytes(e).skip(4)) == crc32(payload_of(e)),
{
    let p = payload_of(e);
    let len = p.len() as u32;
    lemma_le_u32_round_trip(len, le_u32(crc32(p)) + p);
    lemma_le_u32_round_trip(crc32(p), p);
    assert(record_bytes(e) =~= le_u32(len) + (le_u32(crc32(p)) + p));
    assert(record_bytes(e).skip(4) =~= le_u32(crc32(p)) + p);
}

/// What the head of a written record looks like, whatever follows it.
proof fn lemma_written_record(seg: Seq<u8>, pos: int, e: WalModel, rest: Seq<u8>)
    requires
        0 <= pos <= seg.len(),
        fits(e),
        seg.skip(pos) == record_bytes(e) + rest,
    ensures
        seg.skip(pos).len() == 8 + payload_of(e).len() + rest.len(),
        u32_of_le(seg.skip(pos)) == payload_of(e).len(),
        u32_of_le(seg.skip(pos).skip(4)) == crc32(payload_of(e)),
        seg.skip(pos).subrange(8, 8 + payload_of(e).len() as int) == payload_of(e),
{
    lemma_record_bytes_len(e);
    let b = record_bytes(e);
    let s = seg.skip(pos);
    assert(s[0] == b[0] && s[1] == b[1] && s[2] == b[2] && s[3] == b[3]);
    let s4 = s.skip(4);
    let b4 = b.skip(4);
    assert(s4[0] == b4[0] && s4[1] == b4[1] && s4[2] == b4[2] && s4[3] == b4[3]);
    assert(s.subrange(8, 8 + payload_of(e).len() as int) =~= payload_of(e));
}

/// Read the record at `pos`; `None` where the segment ends. Returns the entry
/// and where the next record begins. What `encode_record` wrote is read back,
/// whatever follows it.
pub fn read_one_record(seg: &[u8], pos: usize) -> (r: Result<Option<(WalEntry, usize)>>)
    requires
        pos <= seg@.len(),
    ensures
        match r {
            Ok(Some((e, next))) => record_at(seg@, pos as int) == RecordAt::Entry(e@, next as int)
                && pos < next <= seg@.len(),
            Ok(None) => record_at(seg@, pos as int) is End,
            Err(e) => reports(record_at(seg@, pos as int), e),
        },
        forall|e: WalModel, rest: Seq<u8>|
            fits(e) && seg@.skip(pos as int) == #[trigger] (record_bytes(e) + rest) ==> (r
                matches Ok(Some((got, next))) && got@ == e && next == pos + record_bytes(e).len()),
{
    assert(seg@.len() == seg.len());
    let ghost all = seg@.skip(pos as int);
    proof {
        assert forall|e: WalModel, rest: Seq<u8>|
            fits(e) && all == #[trigger] (record_bytes(e) + rest) implies all.len() == 8
            + payload_of(e).len() + rest.len() && u32_of_le(all) == payload_of(e).len()
            && u32_of_le(all.skip(4)) == crc32(payload_of(e)) && all.subrange(
            8,
            8 + payload_of(e).len() as int,
        ) == payload_of(e) && record_bytes(e).len() == 8 + payload_of(e).len() by {
            lemma_written_record(seg@, pos as int, e, rest);
            lemma_record_bytes_len(e);
        }
    }
    let avail: usize = seg.len() - pos;
    if avail == 0 {
        return Ok(None);
    }
    if avail < 8 {
        return Err(Z1Error::Deserialize(copy_str("WAL truncated header")));
    }
    let len: u32 = read_le_u32(seg, pos);
    let stored: u32 = read_le_u32(seg, pos + 4);
    assert(seg@.skip(pos + 4) =~= all.skip(4));
    if len > MAX_WAL_RECORD_LEN {
        let mut m = copy_str("WAL record length ");
        push_decimal(&mut m, len as u64);
        m.append(" exceeds limit ");
        push_decimal(&mut m, MAX_WAL_RECORD_LEN as u64);
        m.append(" (corrupt or hostile file)");
        return Err(Z1Error::Deserialize(m));
    }
    if avail - 8 < len as usize {
        return Err(Z1Error::Deserialize(copy_str("WAL truncated payload")));
    }
    let next: usize = pos + 8 + len as usize;
    let payload = slice_subrange(seg, pos + 8, next);
    assert(payload@ =~= all.subrange(8, 8 + len as int));
    let actual: u32 = checksum(payload);
    if actual != stored {
        let mut m = copy_str("WAL crc mismatch: stored=");
        push_hex_fixed(&mut m, stored, 8);
        m.append(" actual=");
        push_hex_fixed(&mut m, actual, 8);
        return Err(Z1Error::Deserialize(m));
    }
    match decode_payload(payload) {
        Ok(entry) => {
            proof {
                assert forall|e: WalModel, rest: Seq<u8>|
                    fits(e) && all == #[trigger] (record_bytes(e) + rest) implies entry@ == e
                    && next == pos + record_bytes(e).len() by {
                    assert(payload@ == payload_of(e));
                }
            }
            Ok(Some((entry, next)))
        },
        Err(e) => {
            let m = concat2("WAL decode: ", e.as_str());
            proof {
                assert("WAL decode: "@.is_prefix_of(m@)) by {
                    assert(m@.subrange(0, "WAL decode: "@.len() as int) =~= "WAL decode: "@);
                }
                assert forall|e: WalModel, rest: Seq<u8>|
                    fits(e) && all == #[trigger] (record_bytes(e) + rest) implies false by {
                    assert(payload@ == payload_of(e));
                }
            }
            Err(Z1Error::Deserialize(m))
        },
    }
}

/// A record in which a byte of the payload or of the checksum was changed is
/// read as one with a wrong checksum, wherever it stands in a segment.
pub proof fn law_changed_record_rejected(
    before: Seq<u8>,
    e: WalModel,
    rest: Seq<u8>,
    i: int,
    b: u8,
)
    requires
        fits(e),
        4 <= i < record_bytes(e).len(),
        b != record_bytes(e)[i],
    ensures
        record_at(before + record_bytes(e).update(i, b) + rest, before.len() as int)
            is CrcMismatch,
{
    let payload = payload_of(e);
    let whole = record_bytes(e);
    let now = whole.update(i, b) + rest;
    let seg = before + whole.update(i, b) + rest;
    assert(seg.skip(before.len() as int) =~= now);
    let n = le_u32(payload.len() as u32);
    let c = le_u32(crc32(payload));
    let tail = now.skip(4);
    assert(now =~= n + tail);
    lemma_le_u32_round_trip(payload.len() as u32, tail);
    let read = now.subrange(8, 8 + payload.len() as int);
    if i >= 8 {
        assert(read =~= payload.update(i - 8, b));
        assert(whole[i] == payload[i - 8]);
        law_checksum_tells_a_changed_byte(payload, i - 8, b);
        assert(tail =~= c + now.skip(8));
        lemma_le_u32_round_trip(crc32(payload), now.skip(8));
    } else {
        assert(read =~= payload);
        let old_tail = (whole + rest).skip(4);
        assert(old_tail =~= c + (whole + rest).skip(8));
        lemma_le_u32_round_trip(crc32(payload), (whole + rest).skip(8));
        assert(tail[i - 4] == b && old_tail[i - 4] == whole[i]);
        lemma_le_u32_differs(tail, old_tail, i - 4);
    }
}

} // verus!
