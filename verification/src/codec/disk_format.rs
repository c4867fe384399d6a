//! A uniform on-disk frame.
//!
//! Every persisted format gets magic, version and CRC protection from one
//! 18-byte header: `magic(6) + version(4) + crc32(4) + payload_len(4)`, the
//! integers least significant byte first. The CRC-32 covers the payload, not
//! the header.
//!
//! A reader accepts a file whose version lies between its
//! `min_readable_version` and its `version`. A format upgrade bumps `version`;
//! old readers then reject the new files.

use crate::bytes::{
    bytes_eq, le_u32, lemma_le_u32_differs, lemma_le_u32_round_trip, push_bytes, push_le_u32,
    read_le_u32, u32_of_le,
};
use crate::codec::payload::{checksum, crc32, law_checksum_tells_a_changed_byte};
use crate::error::{Result, Z1Error};
use crate::text::{copy_str, decimal, hex_fixed, push_decimal, push_hex_fixed};
use vstd::prelude::*;
use vstd::slice::slice_subrange;
use vstd::string::StringSliceAdditionalSpecFns;
use vstd::utf8::valid_utf8;

verus! {

/// Size of the frame header.
pub const HEADER_SIZE: usize = 18;

/// `core::str::from_utf8`: the bytes as text if and only if they are valid
/// UTF-8.
#[verifier::external_body]
fn as_text(bytes: &[u8]) -> (r: Option<&str>)
    ensures
        r is Some <==> valid_utf8(bytes@),
        r is Some ==> r->0.spec_bytes() == bytes@,
{
    core::str::from_utf8(bytes).ok()
}

/// A string in quotes with its special characters escaped, as std's `Debug`
/// writes it.
pub uninterp spec fn quoted_text(s: Seq<char>) -> Seq<char>;

/// std's `Debug` of a string: quotes, and escapes for special characters.
#[verifier::external_body]
fn quoted(s: &str) -> (r: String)
    ensures
        r@ == quoted_text(s@),
{
    format!("{:?}", s)
}

/// `t` is the text that `bytes` hold, or `??` where they are not valid UTF-8.
pub open spec fn text_or_marks(bytes: Seq<u8>, t: Seq<char>) -> bool {
    if valid_utf8(bytes) {
        vstd::utf8::encode_utf8(t) == bytes
    } else {
        t == "??"@
    }
}

/// The bytes as text, `??` where they are not valid UTF-8.
fn text_of(bytes: &[u8]) -> (r: &str)
    ensures
        text_or_marks(bytes@, r@),
{
    match as_text(bytes) {
        Some(s) => s,
        None => "??",
    }
}

/// The frame of a payload.
pub open spec fn framed(magic: Seq<u8>, version: u32, payload: Seq<u8>) -> Seq<u8> {
    magic + le_u32(version) + le_u32(crc32(payload)) + le_u32(payload.len() as u32) + payload
}

/// How a payload that does not fit the length field is reported.
pub open spec fn is_oversize(e: Z1Error, len: nat) -> bool {
    e matches Z1Error::Serialization(m) && m@ == "payload too large for DiskFormat: "@ + decimal(
        len,
    ) + " bytes (u32 limit exceeded)"@
}

/// Frame a payload. Fails only on a payload whose length does not fit the
/// 32-bit length field.
pub fn frame(magic: &[u8], version: u32, payload: &[u8]) -> (r: Result<Vec<u8>>)
    ensures
        payload@.len() <= u32::MAX ==> (r matches Ok(v) && v@ == framed(magic@, version, payload@)),
        payload@.len() > u32::MAX ==> (r matches Err(e) && is_oversize(e, payload@.len())),
{
    let len: usize = payload.len();
    if len as u64 > u32::MAX as u64 {
        let mut m = copy_str("payload too large for DiskFormat: ");
        push_decimal(&mut m, len as u64);
        m.append(" bytes (u32 limit exceeded)");
        return Err(Z1Error::Serialization(m));
    }
    let mut out: Vec<u8> = Vec::new();
    push_bytes(&mut out, magic);
    push_le_u32(&mut out, version);
    push_le_u32(&mut out, checksum(payload));
    push_le_u32(&mut out, len as u32);
    push_bytes(&mut out, payload);
    assert(out@ =~= framed(magic@, version, payload@));
    Ok(out)
}

/// What is wrong with a framed byte string.
pub enum FrameFault {
    /// Shorter than the header.
    TooShort,
    /// Another magic.
    Magic,
    /// A version that the reader does not accept.
    Version,
    /// The payload length does not fit the machine's address space.
    Overflow,
    /// Shorter than the header says.
    Truncated,
    /// The checksum of the payload differs from the stored one.
    Crc,
}

/// The first fault of a framed byte string, in the order in which a reader
/// looks; `None` if the frame is sound.
pub open spec fn frame_fault(
    magic: Seq<u8>,
    min_version: u32,
    version: u32,
    bytes: Seq<u8>,
) -> Option<FrameFault> {
    if bytes.len() < HEADER_SIZE {
        Some(FrameFault::TooShort)
    } else if bytes.take(6) != magic {
        Some(FrameFault::Magic)
    } else if frame_version(bytes) < min_version || frame_version(bytes) > version {
        Some(FrameFault::Version)
    } else if HEADER_SIZE + frame_len(bytes) > usize::MAX {
        Some(FrameFault::Overflow)
    } else if bytes.len() < HEADER_SIZE + frame_len(bytes) {
        Some(FrameFault::Truncated)
    } else if crc32(frame_payload(bytes)) != frame_crc(bytes) {
        Some(FrameFault::Crc)
    } else {
        None
    }
}

/// The version in the header.
pub open spec fn frame_version(bytes: Seq<u8>) -> u32 {
    u32_of_le(bytes.skip(6))
}

/// The checksum in the header.
pub open spec fn frame_crc(bytes: Seq<u8>) -> u32 {
    u32_of_le(bytes.skip(10))
}

/// The payload length in the header.
pub open spec fn frame_len(bytes: Seq<u8>) -> u32 {
    u32_of_le(bytes.skip(14))
}

/// The payload that the header announces.
pub open spec fn frame_payload(bytes: Seq<u8>) -> Seq<u8> {
    bytes.subrange(HEADER_SIZE as int, HEADER_SIZE + frame_len(bytes))
}

/// `m` is the message for a fault.
pub open spec fn frame_message(
    magic: Seq<u8>,
    min_version: u32,
    version: u32,
    bytes: Seq<u8>,
    fault: FrameFault,
    m: Seq<char>,
) -> bool {
    match fault {
        FrameFault::TooShort => exists|t: Seq<char>| #[trigger]
            text_or_marks(magic, t) && m == "DiskFormat("@ + t + "): too short ("@ + decimal(
                bytes.len(),
            ) + " < "@ + decimal(HEADER_SIZE as nat) + " header bytes)"@,
        FrameFault::Magic => exists|t: Seq<char>, g: Seq<char>| #[trigger]
            text_or_marks(magic, t) && #[trigger] text_or_marks(bytes.take(6), g) && m
                == "DiskFormat magic mismatch: expected "@ + quoted_text(t) + ", got "@
                + quoted_text(g),
        FrameFault::Version => m == "DiskFormat unsupported version "@ + decimal(
            frame_version(bytes) as nat,
        ) + " (need "@ + decimal(min_version as nat) + "-"@ + decimal(version as nat) + ")"@,
        FrameFault::Overflow => m == "DiskFormat payload_len "@ + decimal(frame_len(bytes) as nat)
            + " overflows"@,
        FrameFault::Truncated => m == "DiskFormat truncated: header says "@ + decimal(
            (HEADER_SIZE + frame_len(bytes)) as nat,
        ) + " bytes, only "@ + decimal(bytes.len()) + " available"@,
        FrameFault::Crc => m == "DiskFormat crc mismatch: stored="@ + hex_fixed(
            frame_crc(bytes) as nat,
            8,
        ) + " actual="@ + hex_fixed(crc32(frame_payload(bytes)) as nat, 8),
    }
}

/// Check a frame and return its payload.
pub fn unframe<'a>(magic: &[u8], min_version: u32, version: u32, bytes: &'a [u8]) -> (r: Result<
    &'a [u8],
>)
    ensures
        match frame_fault(magic@, min_version, version, bytes@) {
            None => r matches Ok(p) && p@ == frame_payload(bytes@),
            Some(fault) => r matches Err(Z1Error::Deserialize(m)) && frame_message(
                magic@,
                min_version,
                version,
                bytes@,
                fault,
                m@,
            ),
        },
{
    if bytes.len() < HEADER_SIZE {
        let t = text_of(magic);
        let mut m = copy_str("DiskFormat(");
        m.append(t);
        m.append("): too short (");
        push_decimal(&mut m, bytes.len() as u64);
        m.append(" < ");
        push_decimal(&mut m, HEADER_SIZE as u64);
        m.append(" header bytes)");
        assert(text_or_marks(magic@, t@));
        return Err(Z1Error::Deserialize(m));
    }
    let found = slice_subrange(bytes, 0, 6);
    assert(found@ =~= bytes@.take(6));
    if !bytes_eq(found, magic) {
        let t = text_of(magic);
        let g = text_of(found);
        let mut m = copy_str("DiskFormat magic mismatch: expected ");
        m.append(quoted(t).as_str());
        m.append(", got ");
        m.append(quoted(g).as_str());
        assert(text_or_marks(magic@, t@) && text_or_marks(bytes@.take(6), g@));
        return Err(Z1Error::Deserialize(m));
    }
    let found_version: u32 = read_le_u32(bytes, 6);
    if found_version < min_version || found_version > version {
        let mut m = copy_str("DiskFormat unsupported version ");
        push_decimal(&mut m, found_version as u64);
        m.append(" (need ");
        push_decimal(&mut m, min_version as u64);
        m.append("-");
        push_decimal(&mut m, version as u64);
        m.append(")");
        return Err(Z1Error::Deserialize(m));
    }
    let stored_crc: u32 = read_le_u32(bytes, 10);
    let payload_len: u32 = read_le_u32(bytes, 14);
    let total: usize = match HEADER_SIZE.checked_add(payload_len as usize) {
        Some(total) => total,
        None => {
            let mut m = copy_str("DiskFormat payload_len ");
            push_decimal(&mut m, payload_len as u64);
            m.append(" overflows");
            return Err(Z1Error::Deserialize(m));
        },
    };
    if bytes.len() < total {
        let mut m = copy_str("DiskFormat truncated: header says ");
        push_decimal(&mut m, total as u64);
        m.append(" bytes, only ");
        push_decimal(&mut m, bytes.len() as u64);
        m.append(" available");
        return Err(Z1Error::Deserialize(m));
    }
    let payload = slice_subrange(bytes, HEADER_SIZE, total);
    let actual_crc: u32 = checksum(payload);
    if actual_crc != stored_crc {
        let mut m = copy_str("DiskFormat crc mismatch: stored=");
        push_hex_fixed(&mut m, stored_crc, 8);
        m.append(" actual=");
        push_hex_fixed(&mut m, actual_crc, 8);
        return Err(Z1Error::Deserialize(m));
    }
    Ok(payload)
}

/// The header fields of a frame read back as they were written, and so does
/// the payload; bytes that follow the frame change nothing.
pub proof fn law_frame_round_trip(
    magic: Seq<u8>,
    min_version: u32,
    version: u32,
    payload: Seq<u8>,
    rest: Seq<u8>,
)
    requires
        magic.len() == 6,
        min_version <= version,
        payload.len() <= u32::MAX,
        HEADER_SIZE + payload.len() <= usize::MAX,
    ensures
        frame_fault(magic, min_version, version, framed(magic, version, payload) + rest) is None,
        frame_payload(framed(magic, version, payload) + rest) == payload,
{
    let b = framed(magic, version, payload) + rest;
    let v = le_u32(version);
    let c = le_u32(crc32(payload));
    let n = le_u32(payload.len() as u32);
    assert(b.take(6) =~= magic);
    assert(b.skip(6) =~= v + (c + n + payload + rest));
    assert(b.skip(10) =~= c + (n + payload + rest));
    assert(b.skip(14) =~= n + (payload + rest));
    lemma_le_u32_round_trip(version, c + n + payload + rest);
    lemma_le_u32_round_trip(crc32(payload), n + payload + rest);
    lemma_le_u32_round_trip(payload.len() as u32, payload + rest);
    assert(frame_payload(b) =~= payload);
}

/// A frame in which a byte of the payload was changed is rejected for its
/// checksum, and so is one in which a byte of the checksum was; one in which a
/// byte of the magic was changed, for its magic.
pub proof fn law_changed_byte_rejected(
    magic: Seq<u8>,
    min_version: u32,
    version: u32,
    payload: Seq<u8>,
    i: int,
    b: u8,
)
    requires
        magic.len() == 6,
        min_version <= version,
        payload.len() <= u32::MAX,
        HEADER_SIZE + payload.len() <= usize::MAX,
        0 <= i < 6 || 10 <= i < 14 || 18 <= i < HEADER_SIZE + payload.len(),
        b != framed(magic, version, payload)[i],
    ensures
        frame_fault(
            magic,
            min_version,
            version,
            framed(magic, version, payload).update(i, b),
        ) == Some(
            if i < 6 {
                FrameFault::Magic
            } else {
                FrameFault::Crc
            },
        ),
{
    let whole = framed(magic, version, payload);
    law_frame_round_trip(magic, min_version, version, payload, Seq::empty());
    assert(whole + Seq::<u8>::empty() =~= whole);
    assert(whole.len() == HEADER_SIZE + payload.len());
    assert(whole.take(6) =~= magic);
    lemma_frame_length(whole, payload);
    lemma_changed_byte(magic, min_version, version, whole, i, b);
}

proof fn lemma_frame_length(whole: Seq<u8>, payload: Seq<u8>)
    requires
        whole.len() == HEADER_SIZE + payload.len(),
        frame_payload(whole) == payload,
        HEADER_SIZE + frame_len(whole) <= whole.len(),
    ensures
        whole.len() == HEADER_SIZE + frame_len(whole),
{
    assert(frame_payload(whole).len() == frame_len(whole));
}

proof fn lemma_changed_byte(
    magic: Seq<u8>,
    min_version: u32,
    version: u32,
    whole: Seq<u8>,
    i: int,
    b: u8,
)
    requires
        frame_fault(magic, min_version, version, whole) is None,
        whole.len() == HEADER_SIZE + frame_len(whole),
        0 <= i < 6 || 10 <= i < 14 || 18 <= i < whole.len(),
        b != whole[i],
    ensures
        frame_fault(magic, min_version, version, whole.update(i, b)) == Some(
            if i < 6 {
                FrameFault::Magic
            } else {
                FrameFault::Crc
            },
        ),
{
    let now = whole.update(i, b);
    if i < 6 {
        assert(now.take(6)[i] == b);
        assert(whole.take(6)[i] == whole[i]);
    } else {
        assert(now.take(6) =~= whole.take(6));
        lemma_same_number(now, whole, 6);
        lemma_same_number(now, whole, 14);
        assert(frame_version(now) == frame_version(whole));
        assert(frame_len(now) == frame_len(whole));
        if i < 14 {
            assert(frame_payload(now) =~= frame_payload(whole));
            lemma_le_u32_differs(now.skip(10), whole.skip(10), i - 10);
            assert(frame_crc(now) != frame_crc(whole));
        } else {
            assert(frame_payload(now) =~= frame_payload(whole).update(i - 18, b));
            assert(whole[i] == frame_payload(whole)[i - 18]);
            law_checksum_tells_a_changed_byte(frame_payload(whole), i - 18, b);
            lemma_same_number(now, whole, 10);
            assert(frame_crc(now) == frame_crc(whole));
        }
    }
}

/// Four bytes that are the same give the same number.
proof fn lemma_same_number(a: Seq<u8>, b: Seq<u8>, at: int)
    requires
        0 <= at,
        at + 4 <= a.len() == b.len(),
        forall|k: int| at <= k < at + 4 ==> a[k] == b[k],
    ensures
        u32_of_le(a.skip(at)) == u32_of_le(b.skip(at)),
{
    assert(a.skip(at)[0] == a[at] && b.skip(at)[0] == b[at]);
    assert(a.skip(at)[1] == a[at + 1] && b.skip(at)[1] == b[at + 1]);
    assert(a.skip(at)[2] == a[at + 2] && b.skip(at)[2] == b[at + 2]);
    assert(a.skip(at)[3] == a[at + 3] && b.skip(at)[3] == b[at + 3]);
}

/// A newer format version is rejected by an older reader.
pub proof fn law_newer_version_rejected(
    magic: Seq<u8>,
    min_version: u32,
    version: u32,
    newer: u32,
    payload: Seq<u8>,
)
    requires
        magic.len() == 6,
        newer > version,
    ensures
        frame_fault(magic, min_version, version, framed(magic, newer, payload)) == Some(
            FrameFault::Version,
        ),
{
    let b = framed(magic, newer, payload);
    assert(b.take(6) =~= magic);
    assert(b.skip(6) =~= le_u32(newer) + (le_u32(crc32(payload)) + le_u32(payload.len() as u32)
        + payload));
    lemma_le_u32_round_trip(
        newer,
        le_u32(crc32(payload)) + le_u32(payload.len() as u32) + payload,
    );
}

/// Every cut of a frame short of its end is rejected.
pub proof fn law_truncated_frame_rejected(
    magic: Seq<u8>,
    min_version: u32,
    version: u32,
    payload: Seq<u8>,
    cut: int,
)
    requires
        magic.len() == 6,
        payload.len() <= u32::MAX,
        0 <= cut < framed(magic, version, payload).len(),
    ensures
        frame_fault(
            magic,
            min_version,
            version,
            framed(magic, version, payload).take(cut),
        ) is Some,
{
    let full = framed(magic, version, payload);
    let b = full.take(cut);
    let v = le_u32(version);
    let c = le_u32(crc32(payload));
    let n = le_u32(payload.len() as u32);
    if cut >= HEADER_SIZE {
        assert(b.skip(14) =~= n + payload.take(cut - HEADER_SIZE));
        lemma_le_u32_round_trip(payload.len() as u32, payload.take(cut - HEADER_SIZE));
        assert(full.len() == HEADER_SIZE + payload.len());
    }
}

/// A persisted format: a payload encoding and the frame around it.
///
/// What a format's magic, versions and encoding are, its own functions say;
/// the frame is stated over what these return.
pub trait DiskFormat: Sized {
    /// The 6-byte magic: by convention a format name and a version tag.
    fn magic() -> (r: [u8; 6]);

    /// Current version number; bump it when adding fields.
    fn version() -> (r: u32);

    /// Oldest readable version.
    fn min_readable_version() -> (r: u32);

    /// Encode the payload.
    fn encode_payload(&self) -> (r: Result<Vec<u8>>);

    /// Decode a payload.
    fn decode_payload(payload: &[u8]) -> (r: Result<Self>);

    /// The value as a frame: header and payload. Fails where the value cannot
    /// be encoded or the payload does not fit the length field.
    fn to_disk_bytes(&self) -> (r: Result<Vec<u8>>)
        ensures
            exists|encoded: Result<Vec<u8>>| #[trigger]
                call_ensures(Self::encode_payload, (self,), encoded) && match encoded {
                    Err(e) => r == Err::<Vec<u8>, Z1Error>(e),
                    Ok(payload) => exists|magic: [u8; 6], version: u32| #[trigger]
                        call_ensures(Self::magic, (), magic) && #[trigger] call_ensures(
                            Self::version,
                            (),
                            version,
                        ) && framed_or_refused(magic@, version, payload@, r),
                },
    {
        let encoded = self.encode_payload();
        let ghost got = encoded;
        assert(call_ensures(Self::encode_payload, (self,), got));
        match encoded {
            Ok(payload) => {
                let magic = Self::magic();
                let version: u32 = Self::version();
                assert(call_ensures(Self::magic, (), magic));
                assert(call_ensures(Self::version, (), version));
                frame(magic.as_slice(), version, payload.as_slice())
            },
            Err(e) => Err(e),
        }
    }

    /// Read a value back from a frame; magic, version and CRC are checked.
    fn from_disk_bytes(bytes: &[u8]) -> (r: Result<Self>)
        ensures
            exists|magic: [u8; 6], min_version: u32, version: u32| #[trigger]
                call_ensures(Self::magic, (), magic) && #[trigger] call_ensures(
                    Self::min_readable_version,
                    (),
                    min_version,
                ) && #[trigger] call_ensures(Self::version, (), version) && match frame_fault(
                    magic@,
                    min_version,
                    version,
                    bytes@,
                ) {
                    None => exists|payload: &[u8]|
                        payload@ == frame_payload(bytes@) && #[trigger] call_ensures(
                            Self::decode_payload,
                            (payload,),
                            r,
                        ),
                    Some(fault) => r matches Err(Z1Error::Deserialize(m)) && frame_message(
                        magic@,
                        min_version,
                        version,
                        bytes@,
                        fault,
                        m@,
                    ),
                },
    {
        let magic = Self::magic();
        let min_version: u32 = Self::min_readable_version();
        let version: u32 = Self::version();
        proof {
            assert(call_ensures(Self::magic, (), magic));
            assert(call_ensures(Self::min_readable_version, (), min_version));
            assert(call_ensures(Self::version, (), version));
            assert(magic@.len() == 6);
            assert(bytes@.len() == bytes.len());
        }
        match unframe(magic.as_slice(), min_version, version, bytes) {
            Ok(payload) => {
                let r = Self::decode_payload(payload);
                assert(call_ensures(Self::decode_payload, (payload,), r));
                r
            },
            Err(e) => Err(e),
        }
    }

    /// Whether the bytes start with this format's magic; neither CRC nor
    /// version is looked at.
    fn matches_magic(bytes: &[u8]) -> (r: bool)
        ensures
            bytes@.len() < 6 ==> !r,
            bytes@.len() >= 6 ==> exists|magic: [u8; 6]| #[trigger]
                call_ensures(Self::magic, (), magic) && r == (bytes@.take(6) == magic@),
    {
        if bytes.len() < 6 {
            return false;
        }
        let magic = Self::magic();
        assert(call_ensures(Self::magic, (), magic));
        let found = slice_subrange(bytes, 0, 6);
        assert(found@ =~= bytes@.take(6));
        bytes_eq(found, magic.as_slice())
    }
}

/// `r` is the frame of a payload, or reports that it does not fit one.
pub open spec fn framed_or_refused(
    magic: Seq<u8>,
    version: u32,
    payload: Seq<u8>,
    r: Result<Vec<u8>>,
) -> bool {
    match r {
        Ok(bytes) => payload.len() <= u32::MAX && bytes@ == framed(magic, version, payload),
        Err(e) => payload.len() > u32::MAX && is_oversize(e, payload.len()),
    }
}

/// The frame of a payload is sound and holds the payload.
pub proof fn lemma_frame_is_sound(magic: Seq<u8>, min_version: u32, version: u32, bytes: Seq<u8>)
    requires
        magic.len() == 6,
        bytes.len() <= usize::MAX,
        min_version <= version,
    ensures
        forall|payload: Seq<u8>|
            payload.len() <= u32::MAX && bytes == #[trigger] framed(magic, version, payload)
                ==> frame_fault(magic, min_version, version, bytes) is None && frame_payload(bytes)
                == payload,
{
    assert forall|payload: Seq<u8>|
        payload.len() <= u32::MAX && bytes == #[trigger] framed(
            magic,
            version,
            payload,
        ) implies frame_fault(magic, min_version, version, bytes) is None && frame_payload(bytes)
        == payload by {
        assert(bytes.len() == HEADER_SIZE + payload.len());
        assert(bytes + Seq::<u8>::empty() =~= bytes);
        law_frame_round_trip(magic, min_version, version, payload, Seq::<u8>::empty());
    }
}

/// What a frame holds: six bytes of magic, the version, the checksum of the
/// payload and its length, and the payload.
pub proof fn law_frame_layout(magic: Seq<u8>, version: u32, payload: Seq<u8>)
    requires
        magic.len() == 6,
        payload.len() <= u32::MAX,
    ensures
        framed(magic, version, payload).len() == 18 + payload.len(),
        framed(magic, version, payload).take(6) == magic,
        u32_of_le(framed(magic, version, payload).skip(6)) == version,
        u32_of_le(framed(magic, version, payload).skip(10)) == crc32(payload),
        u32_of_le(framed(magic, version, payload).skip(14)) == payload.len(),
        framed(magic, version, payload).skip(18) == payload,
{
    let b = framed(magic, version, payload);
    let crc = le_u32(crc32(payload));
    let len = le_u32(payload.len() as u32);
    lemma_le_u32_round_trip(version, crc + len + payload);
    lemma_le_u32_round_trip(crc32(payload), len + payload);
    lemma_le_u32_round_trip(payload.len() as u32, payload);
    assert(b.take(6) =~= magic);
    assert(b.skip(6) =~= le_u32(version) + (crc + len + payload));
    assert(b.skip(10) =~= crc + (len + payload));
    assert(b.skip(14) =~= len + payload);
    assert(b.skip(18) =~= payload);
}

/// When a frame is sound: it has the magic, a version that the reader knows,
/// all the bytes that it announces, and their checksum.
pub proof fn law_frame_is_sound_exactly(
    magic: Seq<u8>,
    min_version: u32,
    version: u32,
    bytes: Seq<u8>,
)
    ensures
        frame_fault(magic, min_version, version, bytes) is None <==> {
            &&& bytes.len() >= 18
            &&& bytes.take(6) == magic
            &&& min_version <= u32_of_le(bytes.skip(6)) <= version
            &&& 18 + u32_of_le(bytes.skip(14)) <= usize::MAX
            &&& bytes.len() >= 18 + u32_of_le(bytes.skip(14))
            &&& crc32(bytes.subrange(18, 18 + u32_of_le(bytes.skip(14)))) == u32_of_le(
                bytes.skip(10),
            )
        },
        bytes.len() >= 18 ==> frame_payload(bytes) == bytes.subrange(
            18,
            18 + u32_of_le(bytes.skip(14)),
        ),
{
}

} // verus!
