//! The disk frame, and its use by other formats.

use z1kv::codec::disk_format::DiskFormat;
use z1kv::error::{Result, Z1Error};
use z1kv::store::Z1PatchFormatV4;

#[derive(Debug, PartialEq)]
struct TestV1 {
    a: u32,
}

#[derive(Debug, PartialEq)]
struct TestV2 {
    a: u32,
    b: String,
}

fn encode<T: serde::Serialize>(v: &T) -> Result<Vec<u8>> {
    postcard::to_stdvec(v).map_err(|e| Z1Error::Serialization(format!("{}", e)))
}

fn decode<'a, T: serde::Deserialize<'a>>(payload: &'a [u8]) -> Result<T> {
    postcard::from_bytes(payload).map_err(|e| Z1Error::Deserialize(format!("{}", e)))
}

impl DiskFormat for TestV1 {
    fn magic() -> [u8; 6] {
        *b"TST001"
    }

    fn version() -> u32 {
        1
    }

    fn min_readable_version() -> u32 {
        1
    }

    fn encode_payload(&self) -> Result<Vec<u8>> {
        encode(&self.a)
    }

    fn decode_payload(payload: &[u8]) -> Result<Self> {
        Ok(TestV1 { a: decode(payload)? })
    }
}

impl DiskFormat for TestV2 {
    fn magic() -> [u8; 6] {
        *b"TST002"
    }

    fn version() -> u32 {
        2
    }

    fn min_readable_version() -> u32 {
        1
    }

    fn encode_payload(&self) -> Result<Vec<u8>> {
        encode(&(self.a, &self.b))
    }

    fn decode_payload(payload: &[u8]) -> Result<Self> {
        let (a, b): (u32, String) = decode(payload)?;
        Ok(TestV2 { a, b })
    }
}

#[test]
fn roundtrip_v1() {
    let v = TestV1 { a: 42 };
    let bytes = v.to_disk_bytes().unwrap();
    let parsed = TestV1::from_disk_bytes(&bytes).unwrap();
    assert_eq!(v, parsed);
}

#[test]
fn roundtrip_v2() {
    let v = TestV2 { a: 42, b: "hello".to_string() };
    let bytes = v.to_disk_bytes().unwrap();
    let parsed = TestV2::from_disk_bytes(&bytes).unwrap();
    assert_eq!(v, parsed);
}

#[test]
fn magic_mismatch_rejected() {
    let v = TestV1 { a: 42 };
    let bytes = v.to_disk_bytes().unwrap();
    let mut wrong = bytes.clone();
    wrong[..6].copy_from_slice(b"TST002");
    let r = TestV1::from_disk_bytes(&wrong);
    assert!(r.is_err());
}

#[test]
fn truncated_rejected() {
    let v = TestV1 { a: 42 };
    let bytes = v.to_disk_bytes().unwrap();
    let truncated = &bytes[..bytes.len() - 2];
    let r = TestV1::from_disk_bytes(truncated);
    assert!(r.is_err());
}

#[test]
fn crc_corruption_rejected() {
    let v = TestV1 { a: 42 };
    let mut bytes = v.to_disk_bytes().unwrap();
    let last = bytes.len() - 1;
    bytes[last] ^= 0xFF;
    let r = TestV1::from_disk_bytes(&bytes);
    assert!(r.is_err());
}

#[test]
fn version_mismatch_rejected() {
    let mut bytes = vec![];
    bytes.extend_from_slice(b"TST001");
    bytes.extend_from_slice(&99u32.to_le_bytes());
    bytes.extend_from_slice(&0u32.to_le_bytes());
    bytes.extend_from_slice(&0u32.to_le_bytes());
    let r = TestV1::from_disk_bytes(&bytes);
    assert!(r.is_err());
}

#[test]
fn too_short_rejected() {
    let r = TestV1::from_disk_bytes(b"abc");
    assert!(r.is_err());
}

#[test]
fn matches_magic_works() {
    let v = TestV1 { a: 42 };
    let bytes = v.to_disk_bytes().unwrap();
    assert!(TestV1::matches_magic(&bytes));
    assert!(!TestV2::matches_magic(&bytes));
}

/// The frame to the byte: magic, version, CRC-32, length, payload.
#[test]
fn frame_layout() {
    let bytes = TestV1 { a: 42 }.to_disk_bytes().unwrap();
    let mut want = b"TST001".to_vec();
    want.extend_from_slice(&1u32.to_le_bytes());
    want.extend_from_slice(&crc32fast::hash(&[42]).to_le_bytes());
    want.extend_from_slice(&1u32.to_le_bytes());
    want.push(42);
    assert_eq!(bytes, want);
}

/// What does not decode under a sound frame is an error, not a value.
#[test]
fn arbitrary_bytes_are_never_a_patch() {
    let mut x: u64 = 0x5EED_1B0D;
    for n in 0..500usize {
        let mut data: Vec<u8> = Vec::new();
        for _ in 0..(n % 256) {
            x ^= x << 13;
            x ^= x >> 7;
            x ^= x << 17;
            data.push(x as u8);
        }
        assert!(Z1PatchFormatV4::from_disk_bytes(&data).is_err());
    }
}

/// A format whose payload is the bytes themselves.
#[derive(Debug, PartialEq)]
struct Raw(Vec<u8>);

impl DiskFormat for Raw {
    fn magic() -> [u8; 6] {
        *b"RAW001"
    }

    fn version() -> u32 {
        1
    }

    fn min_readable_version() -> u32 {
        1
    }

    fn encode_payload(&self) -> Result<Vec<u8>> {
        Ok(self.0.clone())
    }

    fn decode_payload(payload: &[u8]) -> Result<Self> {
        Ok(Raw(payload.to_vec()))
    }
}

/// The checksum is the CRC-32 of IEEE 802.3, by its check value.
#[test]
fn checksum_has_its_check_value() {
    let bytes = Raw(b"123456789".to_vec()).to_disk_bytes().unwrap();
    assert_eq!(bytes[10..14], 0xCBF4_3926u32.to_le_bytes());
    let empty = Raw(Vec::new()).to_disk_bytes().unwrap();
    assert_eq!(empty[10..14], [0, 0, 0, 0]);
}

/// Whatever a single byte of the magic, the checksum or the payload is changed
/// to, the frame is refused.
#[test]
fn changed_byte_is_refused() {
    let bytes = Raw(b"payload".to_vec()).to_disk_bytes().unwrap();
    assert!(Raw::from_disk_bytes(&bytes).is_ok());
    for i in (0..6).chain(10..14).chain(18..bytes.len()) {
        for flip in 1..=255u8 {
            let mut changed = bytes.clone();
            changed[i] ^= flip;
            assert!(Raw::from_disk_bytes(&changed).is_err(), "byte {} changed", i);
        }
    }
}
