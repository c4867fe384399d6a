//! The outside codecs: CRC-32 checksums and postcard payloads.
//!
//! Payloads are encoded from plain integers and byte strings, as postcard lays
//! them out. What postcard reads of arbitrary bytes has a name; of an encoding
//! it reads the value that it was made from.

use vstd::prelude::*;

verus! {

/// One bit of a CRC-32 computation, least significant bit first.
pub open spec fn crc_bit(c: u32) -> u32 {
    if c & 1 == 1 {
        (c >> 1) ^ 0xEDB8_8320
    } else {
        c >> 1
    }
}

/// One byte of a CRC-32 computation.
pub open spec fn crc_byte(c: u32, b: u8) -> u32 {
    let x = c ^ (b as u32);
    crc_bit(crc_bit(crc_bit(crc_bit(crc_bit(crc_bit(crc_bit(crc_bit(x))))))))
}

/// The state of a CRC-32 computation after a byte string.
pub open spec fn crc_state(bytes: Seq<u8>) -> u32
    decreases bytes.len(),
{
    if bytes.len() == 0 {
        0xFFFF_FFFF
    } else {
        crc_byte(crc_state(bytes.drop_last()), bytes.last())
    }
}

/// The CRC-32 checksum of a byte string, with the polynomial of IEEE 802.3.
#[verifier::opaque]
pub open spec fn crc32(bytes: Seq<u8>) -> u32 {
    crc_state(bytes) ^ 0xFFFF_FFFF
}

/// `crc32fast::hash`: the CRC-32 checksum of IEEE 802.3, bits taken from the
/// least significant one on, begun with all ones and inverted at the end.
#[verifier::external_body]
pub(crate) fn checksum(bytes: &[u8]) -> (r: u32)
    ensures
        r == crc32(bytes@),
{
    crc32fast::hash(bytes)
}

proof fn lemma_crc_bit_injective(x: u32, y: u32)
    requires
        crc_bit(x) == crc_bit(y),
    ensures
        x == y,
{
    assert(crc_bit(x) == crc_bit(y) ==> x == y) by (bit_vector);
}

proof fn lemma_crc_byte_injective(c: u32, a: u8, d: u32, b: u8)
    requires
        crc_byte(c, a) == crc_byte(d, b),
    ensures
        c ^ (a as u32) == d ^ (b as u32),
{
    let x = c ^ (a as u32);
    let y = d ^ (b as u32);
    let x1 = crc_bit(x);
    let y1 = crc_bit(y);
    let x2 = crc_bit(x1);
    let y2 = crc_bit(y1);
    let x3 = crc_bit(x2);
    let y3 = crc_bit(y2);
    let x4 = crc_bit(x3);
    let y4 = crc_bit(y3);
    let x5 = crc_bit(x4);
    let y5 = crc_bit(y4);
    let x6 = crc_bit(x5);
    let y6 = crc_bit(y5);
    let x7 = crc_bit(x6);
    let y7 = crc_bit(y6);
    lemma_crc_bit_injective(x7, y7);
    lemma_crc_bit_injective(x6, y6);
    lemma_crc_bit_injective(x5, y5);
    lemma_crc_bit_injective(x4, y4);
    lemma_crc_bit_injective(x3, y3);
    lemma_crc_bit_injective(x2, y2);
    lemma_crc_bit_injective(x1, y1);
    lemma_crc_bit_injective(x, y);
}

proof fn lemma_crc_state_differs(s: Seq<u8>, i: int, b: u8)
    requires
        0 <= i < s.len(),
        b != s[i],
    ensures
        crc_state(s.update(i, b)) != crc_state(s),
    decreases s.len(),
{
    let t = s.update(i, b);
    let rest = s.drop_last();
    let c = crc_state(t.drop_last());
    let d = crc_state(rest);
    let x = t.last();
    let y = s.last();
    if crc_state(t) == crc_state(s) {
        lemma_crc_byte_injective(c, x, d, y);
        if i == s.len() - 1 {
            assert(t.drop_last() =~= rest);
            assert(c ^ (x as u32) == c ^ (y as u32) ==> x == y) by (bit_vector);
        } else {
            assert(t.drop_last() =~= rest.update(i, b));
            assert(rest[i] == s[i]);
            lemma_crc_state_differs(rest, i, b);
            assert(c ^ (x as u32) == d ^ (x as u32) ==> c == d) by (bit_vector);
        }
    }
}

/// A checksum tells any change of a single byte.
pub proof fn law_checksum_tells_a_changed_byte(s: Seq<u8>, i: int, b: u8)
    requires
        0 <= i < s.len(),
        b != s[i],
    ensures
        crc32(s.update(i, b)) != crc32(s),
{
    reveal(crc32);
    lemma_crc_state_differs(s, i, b);
    let x = crc_state(s.update(i, b));
    let y = crc_state(s);
    assert(x ^ 0xFFFF_FFFF == y ^ 0xFFFF_FFFF ==> x == y) by (bit_vector);
}

/// postcard's encoding of an unsigned integer of more than a byte: seven bits
/// to a byte, least significant first; all bytes but the last have the top bit
/// set.
#[verifier::opaque]
pub open spec fn varint(n: nat) -> Seq<u8>
    decreases n,
{
    if n < 128 {
        seq![n as u8]
    } else {
        seq![(n % 128 + 128) as u8] + varint(n / 128)
    }
}

/// postcard's encoding of a byte string: its length, and the bytes.
pub open spec fn encoded_bytes(s: Seq<u8>) -> Seq<u8> {
    varint(s.len()) + s
}

/// postcard's encoding of an optional byte string: a byte that says whether
/// there is one, and the string.
pub open spec fn encoded_option(v: Option<Seq<u8>>) -> Seq<u8> {
    match v {
        Some(s) => seq![1u8] + encoded_bytes(s),
        None => seq![0u8],
    }
}

/// postcard's encoding of a transaction id and a record tag: the fields of a
/// tuple follow each other.
#[verifier::opaque]
pub open spec fn encoded_head(txn_id: u64, tag: u32) -> Seq<u8> {
    varint(txn_id as nat) + varint(tag as nat)
}

/// `postcard::to_stdvec` on a transaction id and a record tag; it writes to a
/// growing buffer and does not fail on integers.
#[verifier::external_body]
pub(crate) fn encode_head(txn_id: u64, tag: u32) -> (r: Result<Vec<u8>, String>)
    ensures
        r is Ok,
        r->Ok_0@ == encoded_head(txn_id, tag),
{
    postcard::to_stdvec(&(txn_id, tag)).map_err(|e| e.to_string())
}

/// What postcard reads of a transaction id and a record tag at the start of a
/// byte string, with the bytes that follow them.
pub uninterp spec fn decoded_head(bytes: Seq<u8>) -> Option<(u64, u32, Seq<u8>)>;

/// `postcard::take_from_bytes` of a transaction id and a record tag, with the
/// bytes that follow; it reads back what `encode_head` wrote, whatever comes
/// after it. The text of an error is postcard's own and is not described: for
/// a length that no memory holds it differs between machines.
#[verifier::external_body]
pub(crate) fn decode_head(bytes: &[u8]) -> (r: Result<(u64, u32, &[u8]), String>)
    ensures
        r is Ok <==> decoded_head(bytes@) is Some,
        r is Ok ==> decoded_head(bytes@) == Some((r->Ok_0.0, r->Ok_0.1, r->Ok_0.2@)),
        forall|txn_id: u64, tag: u32, rest: Seq<u8>|
            bytes@ == #[trigger] (encoded_head(txn_id, tag) + rest) ==> (r is Ok && r->Ok_0.0
                == txn_id && r->Ok_0.1 == tag && r->Ok_0.2@ == rest),
{
    let head = postcard::take_from_bytes::<(u64, u32)>(bytes);
    head.map(|v| (v.0 .0, v.0 .1, v.1)).map_err(|e| e.to_string())
}

/// postcard's encoding of a column family, a key and an optional value.
#[verifier::opaque]
pub open spec fn encoded_write(cf: u16, key: Seq<u8>, value: Option<Seq<u8>>) -> Seq<u8> {
    varint(cf as nat) + encoded_bytes(key) + encoded_option(value)
}

/// The bytes of the key and of the value are in the encoding whole.
pub proof fn lemma_encoded_write_len(cf: u16, key: Seq<u8>, value: Option<Seq<u8>>)
    ensures
        encoded_write(cf, key, value).len() >= key.len() + (match value {
            Some(v) => v.len(),
            None => 0,
        }),
{
    reveal(encoded_write);
}

/// The bytes behind an optional slice.
pub open spec fn slice_model(v: Option<&[u8]>) -> Option<Seq<u8>> {
    match v {
        Some(s) => Some(s@),
        None => None,
    }
}

/// The bytes of an optional vector.
pub open spec fn vec_model(v: Option<Vec<u8>>) -> Option<Seq<u8>> {
    match v {
        Some(s) => Some(s@),
        None => None,
    }
}

/// `postcard::to_stdvec` on a column family, a key and an optional value; it
/// writes to a growing buffer and does not fail on integers and byte strings.
#[verifier::external_body]
pub(crate) fn encode_write(cf: u16, key: &[u8], value: Option<&[u8]>) -> (r: Result<
    Vec<u8>,
    String,
>)
    ensures
        r is Ok,
        r->Ok_0@ == encoded_write(cf, key@, slice_model(value)),
{
    postcard::to_stdvec(&(cf, key, value)).map_err(|e| e.to_string())
}

/// What postcard reads of a column family, a key and an optional value.
pub uninterp spec fn decoded_write(bytes: Seq<u8>) -> Option<(u16, Seq<u8>, Option<Seq<u8>>)>;

/// `postcard::from_bytes` of a column family, a key and an optional value; it
/// reads back what `encode_write` wrote. The text of an error is postcard's
/// own and is not described.
#[verifier::external_body]
pub(crate) fn decode_write(bytes: &[u8]) -> (r: Result<(u16, Vec<u8>, Option<Vec<u8>>), String>)
    ensures
        r is Ok <==> decoded_write(bytes@) is Some,
        r is Ok ==> decoded_write(bytes@) == Some((r->Ok_0.0, r->Ok_0.1@, vec_model(r->Ok_0.2))),
        forall|cf: u16, key: Seq<u8>, value: Option<Seq<u8>>|
            bytes@ == #[trigger] encoded_write(cf, key, value) ==> (r is Ok && r->Ok_0.0 == cf
                && r->Ok_0.1@ == key && vec_model(r->Ok_0.2) == value),
{
    postcard::from_bytes::<(u16, Vec<u8>, Option<Vec<u8>>)>(bytes).map_err(|e| e.to_string())
}

/// postcard's encoding of two numbers.
#[verifier::opaque]
pub open spec fn encoded_pair(a: u64, b: u64) -> Seq<u8> {
    varint(a as nat) + varint(b as nat)
}

/// `postcard::to_stdvec` on two numbers; it writes to a growing buffer and
/// does not fail on integers.
#[verifier::external_body]
pub(crate) fn encode_pair(a: u64, b: u64) -> (r: Result<Vec<u8>, String>)
    ensures
        r is Ok,
        r->Ok_0@ == encoded_pair(a, b),
{
    postcard::to_stdvec(&(a, b)).map_err(|e| e.to_string())
}

/// What postcard reads of two numbers.
pub uninterp spec fn decoded_pair(bytes: Seq<u8>) -> Option<(u64, u64)>;

/// `postcard::from_bytes` of two numbers; it reads back what `encode_pair`
/// wrote. The text of an error is postcard's own and is not described.
#[verifier::external_body]
pub(crate) fn decode_pair(bytes: &[u8]) -> (r: Result<(u64, u64), String>)
    ensures
        r is Ok <==> decoded_pair(bytes@) is Some,
        r is Ok ==> decoded_pair(bytes@) == Some(r->Ok_0),
        forall|a: u64, b: u64|
            bytes@ == #[trigger] encoded_pair(a, b) ==> (r is Ok && r->Ok_0 == (a, b)),
{
    postcard::from_bytes::<(u64, u64)>(bytes).map_err(|e| e.to_string())
}

/// postcard's encoding of one number.
#[verifier::opaque]
pub open spec fn encoded_number(a: u64) -> Seq<u8> {
    varint(a as nat)
}

/// `postcard::to_stdvec` on one number; it writes to a growing buffer and
/// does not fail on integers.
#[verifier::external_body]
pub(crate) fn encode_number(a: u64) -> (r: Result<Vec<u8>, String>)
    ensures
        r is Ok,
        r->Ok_0@ == encoded_number(a),
{
    postcard::to_stdvec(&a).map_err(|e| e.to_string())
}

/// What postcard reads of one number.
pub uninterp spec fn decoded_number(bytes: Seq<u8>) -> Option<u64>;

/// `postcard::from_bytes` of one number; it reads back what `encode_number`
/// wrote. The text of an error is postcard's own and is not described.
#[verifier::external_body]
pub(crate) fn decode_number(bytes: &[u8]) -> (r: Result<u64, String>)
    ensures
        r is Ok <==> decoded_number(bytes@) is Some,
        r is Ok ==> decoded_number(bytes@) == Some(r->Ok_0),
        forall|a: u64| bytes@ == #[trigger] encoded_number(a) ==> (r is Ok && r->Ok_0 == a),
{
    postcard::from_bytes::<u64>(bytes).map_err(|e| e.to_string())
}

/// The encodings of pairs, one after the other.
pub open spec fn encoded_pairs(pairs: Seq<(u64, u64)>) -> Seq<u8>
    decreases pairs.len(),
{
    if pairs.len() == 0 {
        Seq::empty()
    } else {
        encoded_pairs(pairs.drop_last()) + encoded_pair(pairs.last().0, pairs.last().1)
    }
}

/// postcard's encoding of three numbers and a list of pairs: a list is its
/// length and its members.
#[verifier::opaque]
pub open spec fn encoded_history(a: u64, b: u64, c: u64, pairs: Seq<(u64, u64)>) -> Seq<u8> {
    varint(a as nat) + varint(b as nat) + varint(c as nat) + varint(pairs.len()) + encoded_pairs(
        pairs,
    )
}

/// `postcard::to_stdvec` on three numbers and a list of pairs; it writes to a
/// growing buffer and does not fail on integers.
#[verifier::external_body]
pub(crate) fn encode_history(a: u64, b: u64, c: u64, pairs: &Vec<(u64, u64)>) -> (r: Result<
    Vec<u8>,
    String,
>)
    ensures
        r is Ok,
        r->Ok_0@ == encoded_history(a, b, c, pairs@),
{
    postcard::to_stdvec(&(a, b, c, pairs)).map_err(|e| e.to_string())
}

/// What postcard reads of three numbers and a list of pairs.
pub uninterp spec fn decoded_history(bytes: Seq<u8>) -> Option<(u64, u64, u64, Seq<(u64, u64)>)>;

/// `postcard::from_bytes` of three numbers and a list of pairs; it reads back
/// what `encode_history` wrote. The text of an error is postcard's own and is
/// not described.
#[verifier::external_body]
pub(crate) fn decode_history(bytes: &[u8]) -> (r: Result<
    (u64, u64, u64, Vec<(u64, u64)>),
    String,
>)
    ensures
        r is Ok <==> decoded_history(bytes@) is Some,
        r is Ok ==> decoded_history(bytes@) == Some((r->Ok_0.0, r->Ok_0.1, r->Ok_0.2, r->Ok_0.3@)),
        forall|a: u64, b: u64, c: u64, pairs: Seq<(u64, u64)>|
            bytes@ == #[trigger] encoded_history(a, b, c, pairs) ==> (r is Ok && r->Ok_0.0 == a
                && r->Ok_0.1 == b && r->Ok_0.2 == c && r->Ok_0.3@ == pairs),
{
    postcard::from_bytes::<(u64, u64, u64, Vec<(u64, u64)>)>(bytes).map_err(|e| e.to_string())
}

/// A key, an optional value and a transaction id, borrowed.
pub type RowRef<'a> = (&'a [u8], Option<&'a [u8]>, u64);

/// A key, an optional value and a transaction id.
pub type Row = (Vec<u8>, Option<Vec<u8>>, u64);

/// The content of borrowed rows.
pub open spec fn row_refs_model(rows: Seq<RowRef<'_>>) -> Seq<(Seq<u8>, Option<Seq<u8>>, u64)> {
    rows.map_values(|r: RowRef<'_>| (r.0@, slice_model(r.1), r.2))
}

/// The content of rows.
pub open spec fn rows_model(rows: Seq<Row>) -> Seq<(Seq<u8>, Option<Seq<u8>>, u64)> {
    rows.map_values(|r: Row| (r.0@, vec_model(r.1), r.2))
}

/// The encodings of rows, one after the other.
pub open spec fn encoded_row_list(rows: Seq<(Seq<u8>, Option<Seq<u8>>, u64)>) -> Seq<u8>
    decreases rows.len(),
{
    if rows.len() == 0 {
        Seq::empty()
    } else {
        let (key, value, txn_id) = rows.last();
        encoded_row_list(rows.drop_last()) + encoded_bytes(key) + encoded_option(value) + varint(
            txn_id as nat,
        )
    }
}

/// postcard's encoding of a tag and a list of rows.
#[verifier::opaque]
pub open spec fn encoded_rows(
    tag: u32,
    rows: Seq<(Seq<u8>, Option<Seq<u8>>, u64)>,
) -> Seq<u8> {
    varint(tag as nat) + varint(rows.len()) + encoded_row_list(rows)
}

/// `postcard::to_allocvec` on a tag and a list of rows; it writes to a
/// growing buffer and does not fail on integers and byte strings.
#[verifier::external_body]
pub(crate) fn encode_rows(tag: u32, rows: &Vec<RowRef<'_>>) -> (r: Result<Vec<u8>, String>)
    ensures
        r is Ok,
        r->Ok_0@ == encoded_rows(tag, row_refs_model(rows@)),
{
    postcard::to_allocvec(&(tag, rows)).map_err(|e| e.to_string())
}

/// What postcard reads of a tag and a list of rows.
pub uninterp spec fn decoded_rows(bytes: Seq<u8>) -> Option<
    (u32, Seq<(Seq<u8>, Option<Seq<u8>>, u64)>),
>;

/// `postcard::from_bytes` of a tag and a list of rows; it reads back what
/// `encode_rows` wrote. The text of an error is postcard's own and is not
/// described.
#[verifier::external_body]
pub(crate) fn decode_rows(bytes: &[u8]) -> (r: Result<(u32, Vec<Row>), String>)
    ensures
        r is Ok <==> decoded_rows(bytes@) is Some,
        r is Ok ==> decoded_rows(bytes@) == Some((r->Ok_0.0, rows_model(r->Ok_0.1@))),
        forall|tag: u32, rows: Seq<(Seq<u8>, Option<Seq<u8>>, u64)>|
            bytes@ == #[trigger] encoded_rows(tag, rows) ==> (r is Ok && r->Ok_0.0 == tag
                && rows_model(r->Ok_0.1@) == rows),
{
    postcard::from_bytes::<(u32, Vec<Row>)>(bytes).map_err(|e| e.to_string())
}

} // verus!
