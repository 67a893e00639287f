use fa10::format::{
    check_header, manifest_range, Entry, EntryKind, Manifest, END_MAGIC, HEADER_MAGIC,
};
use fa10::Fa10Error;

fn sample() -> Manifest {
    Manifest {
        entries: vec![
            Entry {
                kind: EntryKind::File,
                path: "foo/réport.txt".to_string(),
                size: 123,
                sha256: [7u8; 32],
            },
            Entry {
                kind: EntryKind::EmptyDir,
                path: "foo/empty".to_string(),
                size: 0,
                sha256: [0u8; 32],
            },
        ],
    }
}

#[test]
fn manifest_roundtrip_in_memory() {
    let m = sample();
    let encoded = m.encode();
    assert_eq!(encoded.len() as u64, m.encoded_len());
    assert_eq!(Manifest::decode(&encoded).unwrap(), m);
}

#[test]
fn manifest_and_trailer_reverse_read() {
    let m = sample();
    let mut buf = Vec::new();
    buf.extend_from_slice(&HEADER_MAGIC);
    buf.extend_from_slice(b"some original content here");
    buf.extend_from_slice(b"PADPADPADPAD");
    m.write_to(&mut buf);

    assert_eq!(Manifest::read_from(&buf).unwrap(), m);
}

#[test]
fn corrupt_crc_is_detected() {
    let mut encoded = sample().encode();
    let last = encoded.len() - 1;
    encoded[last] ^= 0xFF;
    match Manifest::decode(&encoded) {
        Err(Fa10Error::FooterCrcMismatch) => {}
        other => panic!("expected CRC mismatch, got {other:?}"),
    }
}

#[test]
fn missing_magic_rejected() {
    let mut bytes = sample().encode();
    bytes[0] = b'X';
    assert!(Manifest::decode(&bytes).is_err());
}

#[test]
fn payload_size_sums_only_files() {
    assert_eq!(sample().payload_size(), 123);
}

#[test]
fn header_check_works() {
    assert!(check_header(b"FA10ARC\0rest").is_ok());
    assert!(check_header(b"NOPE!!!!rest").is_err());
}

#[test]
fn short_header_is_an_io_error() {
    match check_header(b"FA10") {
        Err(Fa10Error::Io(msg)) => assert_eq!(msg, "failed to fill whole buffer"),
        other => panic!("unexpected {other:?}"),
    }
}

#[test]
fn encoded_len_matches_layout() {
    // 16 fixed bytes, then 45 + path bytes per entry ("réport" has a two-byte é).
    assert_eq!(sample().encoded_len(), 16 + 45 + 15 + 45 + 9);
    assert_eq!(sample().checked_encoded_len(), Some(130));
    assert_eq!(sample().checked_payload_size(), Some(123));
}

#[test]
fn encode_ends_with_crc32_of_body() {
    let encoded = sample().encode();
    let body = &encoded[..encoded.len() - 4];
    let crc = crc32fast::hash(body);
    assert_eq!(&encoded[encoded.len() - 4..], &crc.to_le_bytes());
    assert_eq!(&encoded[..8], b"FA10MANI");
    assert_eq!(&encoded[8..12], &2u32.to_le_bytes());
}

#[test]
fn write_to_appends_end_magic_and_length() {
    let m = sample();
    let mut buf = vec![1u8, 2, 3];
    m.write_to(&mut buf);
    let n = buf.len();
    assert_eq!(&buf[..3], &[1u8, 2, 3]);
    assert_eq!(&buf[n - 16..n - 8], &END_MAGIC);
    assert_eq!(&buf[n - 8..], &m.encoded_len().to_le_bytes());
}

#[test]
fn decode_rejects_short_and_bad_counts() {
    match Manifest::decode(b"FA10MANI") {
        Err(Fa10Error::BadFormat(msg)) => assert_eq!(msg, "manifest too short"),
        other => panic!("unexpected {other:?}"),
    }
    let mut bytes = Manifest { entries: vec![] }.encode();
    bytes[8] = 5;
    match Manifest::decode(&bytes) {
        Err(Fa10Error::BadFormat(msg)) => assert_eq!(msg, "manifest entry count out of range"),
        other => panic!("unexpected {other:?}"),
    }
}

#[test]
fn decode_rejects_unknown_kind() {
    let mut body = Vec::new();
    body.extend_from_slice(b"FA10MANI");
    body.extend_from_slice(&1u32.to_le_bytes());
    body.push(9);
    body.extend_from_slice(&0u32.to_le_bytes());
    body.extend_from_slice(&0u64.to_le_bytes());
    body.extend_from_slice(&[0u8; 32]);
    let crc = crc32fast::hash(&body);
    body.extend_from_slice(&crc.to_le_bytes());
    match Manifest::decode(&body) {
        Err(Fa10Error::BadFormat(msg)) => assert_eq!(msg, "unknown entry kind 9"),
        other => panic!("unexpected {other:?}"),
    }
}

#[test]
fn empty_manifest_roundtrips() {
    let m = Manifest { entries: vec![] };
    let encoded = m.encode();
    assert_eq!(encoded.len(), 16);
    assert_eq!(Manifest::decode(&encoded).unwrap(), m);
}

#[test]
fn manifest_range_checks_trailer() {
    match manifest_range(10, &[0u8; 16]) {
        Err(Fa10Error::BadFormat(msg)) => assert_eq!(msg, "file too short to be an fa10 archive"),
        other => panic!("unexpected {other:?}"),
    }
    match manifest_range(100, &[0u8; 16]) {
        Err(Fa10Error::BadFormat(msg)) => assert_eq!(msg, "missing end magic"),
        other => panic!("unexpected {other:?}"),
    }
    let mut trailer = END_MAGIC.to_vec();
    trailer.extend_from_slice(&90u64.to_le_bytes());
    match manifest_range(100, &trailer) {
        Err(Fa10Error::BadFormat(msg)) => assert_eq!(msg, "implausible manifest length"),
        other => panic!("unexpected {other:?}"),
    }
    let mut trailer = END_MAGIC.to_vec();
    trailer.extend_from_slice(&30u64.to_le_bytes());
    assert_eq!(manifest_range(100, &trailer).unwrap(), (54, 30));
}

#[test]
fn entry_kind_bytes() {
    assert_eq!(EntryKind::File.to_byte(), 0);
    assert_eq!(EntryKind::EmptyDir.to_byte(), 1);
    assert!(matches!(EntryKind::from_byte(1), Ok(EntryKind::EmptyDir)));
    assert!(EntryKind::from_byte(2).is_err());
}

#[test]
fn entry_layout_is_kind_length_path_size_digest() {
    let m = Manifest {
        entries: vec![Entry { kind: EntryKind::File, path: "a".to_string(), size: 1, sha256: [0u8; 32] }],
    };
    let b = m.encode();
    assert_eq!(b.len(), 62);
    assert_eq!(&b[0..8], b"FA10MANI");
    assert_eq!(&b[8..12], &[1, 0, 0, 0]);
    assert_eq!(b[12], 0);
    assert_eq!(&b[13..17], &[1, 0, 0, 0]);
    assert_eq!(b[17], b'a');
    assert_eq!(&b[18..26], &[1, 0, 0, 0, 0, 0, 0, 0]);
    assert_eq!(&b[26..58], &[0u8; 32]);
    assert_eq!(&b[58..62], &crc32fast::hash(&b[..58]).to_le_bytes());
    assert_eq!(Manifest::decode(&b).unwrap(), m);
}

#[test]
fn decode_then_encode_gives_the_same_bytes() {
    let bytes = sample().encode();
    assert_eq!(Manifest::decode(&bytes).unwrap().encode(), bytes);
}
