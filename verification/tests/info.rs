use fa10::format::{Entry, EntryKind, Manifest};
use fa10::info::{summarize, to_hex};
use sha2::Digest;

#[test]
fn summarize_splits_the_archive() {
    let manifest = Manifest {
        entries: vec![Entry { kind: EntryKind::File, path: "h.bin".to_string(), size: 1000, sha256: [1u8; 32] }],
    };
    let info = summarize("h.fa10", manifest, 2000);
    assert_eq!(info.path, "h.fa10");
    assert_eq!(info.total_size, 2000);
    assert_eq!(info.payload_size, 1000);
    // manifest 16 + 45 + 5, trailer 16
    assert_eq!(info.manifest_size, 82);
    assert_eq!(info.padding_size, 2000 - 8 - 66 - 16 - 1000);
    assert_eq!(info.entry_count, 1);
    assert_eq!(info.entries[0].path, "h.bin");
}

#[test]
fn summarize_never_underflows_padding() {
    let manifest = Manifest { entries: vec![] };
    let info = summarize("x", manifest, 10);
    assert_eq!(info.padding_size, 0);
    assert_eq!(info.manifest_size, 32);
}

#[test]
fn hex_of_digest() {
    assert_eq!(to_hex(&[0x00, 0x0f, 0xa5, 0xff]), "000fa5ff");
    assert_eq!(to_hex(&[]), "");
    let digest: [u8; 32] = sha2::Sha256::digest(b"abc").into();
    assert_eq!(
        to_hex(&digest),
        "ba7816bf8f01cfea414140de5dae2223b00361a396177a9cb410ff61f20015ad"
    );
}
