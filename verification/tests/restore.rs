use fa10::archive::PendingEntry;
use fa10::format::{Entry, EntryKind, Manifest, HEADER_MAGIC};
use fa10::grow::write_archive;
use fa10::restore::{
    accept_content, check_content_region, check_entry_content, check_overwrite, extract,
    open_archive, plan_entry, restore_root, verify_archive, EntryAction,
};
use fa10::{Fa10Error, NoProgress, RestoreOptions, RestoreOutcome};
use sha2::Digest;

fn pseudo_random(len: usize) -> Vec<u8> {
    let mut out = Vec::with_capacity(len);
    let mut state: u64 = 0x9E3779B97F4A7C15;
    for _ in 0..len {
        state = state
            .wrapping_mul(6364136223846793005)
            .wrapping_add(1442695040888963407);
        out.push((state >> 33) as u8);
    }
    out
}

fn entry(kind: EntryKind, stored: &str, size: u64) -> PendingEntry {
    PendingEntry { kind, stored_path: stored.to_string(), fs_path: stored.to_string(), size }
}

fn sample_archive() -> (Vec<u8>, Vec<u8>) {
    let data = pseudo_random(2000);
    let entries = vec![
        entry(EntryKind::File, "data/a.txt", 5),
        entry(EntryKind::File, "data/sub/b.bin", 2000),
        entry(EntryKind::EmptyDir, "data/emptydir", 0),
    ];
    let contents = vec![b"alpha".to_vec(), data.clone(), Vec::new()];
    let bytes = write_archive(&entries, &contents, 300, b"XYZZY-", &NoProgress).unwrap();
    (bytes, data)
}

#[test]
fn restore_options_defaults() {
    let o = RestoreOptions::new("arc.fa10");
    assert_eq!(o.input, "arc.fa10");
    assert!(o.output.is_none());
    assert!(o.verify);
    assert!(!o.force);
    let outcome = RestoreOutcome { root: restore_root(None), entry_count: 0, payload_size: 0, verified: true };
    assert_eq!(outcome.root, ".");
    assert_eq!(restore_root(Some("/tmp/out")), "/tmp/out");
}

#[test]
fn written_archive_restores_exactly() {
    let (bytes, data) = sample_archive();
    let m = verify_archive(&bytes).unwrap();
    assert_eq!(m.entries.len(), 3);
    let out = extract(&bytes, "/tmp/out", true).unwrap();
    assert_eq!(out.len(), 3);
    assert_eq!(out[0].target, "/tmp/out/data/a.txt");
    assert_eq!(out[0].content, b"alpha");
    assert_eq!(out[1].target, "/tmp/out/data/sub/b.bin");
    assert_eq!(out[1].content, data);
    assert!(out[2].kind == EntryKind::EmptyDir);
    assert_eq!(out[2].target, "/tmp/out/data/emptydir");
    assert!(out[2].content.is_empty());
}

#[test]
fn corrupted_content_is_detected() {
    let (mut bytes, _) = sample_archive();
    bytes[12] ^= 0xFF;
    assert!(matches!(verify_archive(&bytes), Err(Fa10Error::ContentHashMismatch)));
    assert!(matches!(extract(&bytes, "out", true), Err(Fa10Error::ContentHashMismatch)));
    // Without verification the (corrupted) bytes come back as stored.
    let out = extract(&bytes, "out", false).unwrap();
    assert_eq!(out[0].content[4], b'a' ^ 0xFF);
}

#[test]
fn path_traversal_is_refused() {
    let content = b"x";
    let mut bytes = Vec::new();
    bytes.extend_from_slice(&HEADER_MAGIC);
    bytes.extend_from_slice(content);
    let manifest = Manifest {
        entries: vec![Entry {
            kind: EntryKind::File,
            path: "../escaped.txt".to_string(),
            size: content.len() as u64,
            sha256: [0u8; 32],
        }],
    };
    manifest.write_to(&mut bytes);
    match extract(&bytes, "out", false) {
        Err(Fa10Error::UnsafeEntryPath(p)) => assert_eq!(p, "../escaped.txt"),
        other => panic!("unexpected {other:?}"),
    }
}

#[test]
fn inflated_sizes_are_refused() {
    let manifest = Manifest {
        entries: vec![Entry { kind: EntryKind::File, path: "f".to_string(), size: 50, sha256: [0u8; 32] }],
    };
    let mut bytes = HEADER_MAGIC.to_vec();
    bytes.extend_from_slice(b"short");
    manifest.write_to(&mut bytes);
    match open_archive(&bytes) {
        Err(Fa10Error::BadFormat(m)) => {
            assert_eq!(m, "manifest entry sizes exceed the archive content region")
        }
        other => panic!("unexpected {other:?}"),
    }
    match check_content_region(&manifest, 40) {
        Err(Fa10Error::BadFormat(m)) => assert_eq!(m, "archive smaller than its manifest"),
        other => panic!("unexpected {other:?}"),
    }
    // header 8 + content 50 + manifest 62 + trailer 16
    assert!(check_content_region(&manifest, 136).is_ok());
    assert!(check_content_region(&manifest, 135).is_err());
}

#[test]
fn overflowing_sizes_are_refused() {
    let big = |p: &str| Entry { kind: EntryKind::File, path: p.to_string(), size: u64::MAX, sha256: [0u8; 32] };
    let manifest = Manifest { entries: vec![big("a"), big("b")] };
    assert!(check_content_region(&manifest, u64::MAX).is_err());
}

#[test]
fn entry_content_and_overwrite_checks() {
    let e = Entry {
        kind: EntryKind::File,
        path: "f".to_string(),
        size: 3,
        sha256: sha2::Sha256::digest(b"abc").into(),
    };
    assert!(check_entry_content(&e, b"abc").is_ok());
    assert!(matches!(check_entry_content(&e, b"abd"), Err(Fa10Error::ContentHashMismatch)));
    assert!(check_overwrite("out/f", false, false).is_ok());
    assert!(check_overwrite("out/f", true, true).is_ok());
    match check_overwrite("out/f", true, false) {
        Err(Fa10Error::OutputExists(p)) => assert_eq!(p, "out/f"),
        other => panic!("unexpected {other:?}"),
    }
}

#[test]
fn not_an_archive_is_refused() {
    assert!(matches!(open_archive(b"NOPE!!!!rest"), Err(Fa10Error::BadFormat(_))));
    let mut bytes = HEADER_MAGIC.to_vec();
    bytes.extend_from_slice(&[0u8; 40]);
    match open_archive(&bytes) {
        Err(Fa10Error::BadFormat(m)) => assert_eq!(m, "missing end magic"),
        other => panic!("unexpected {other:?}"),
    }
}

#[test]
fn entry_steps() {
    let file = Entry { kind: EntryKind::File, path: "a/b".to_string(), size: 3, sha256: sha2::Sha256::digest(b"abc").into() };
    match plan_entry("/out", &file).unwrap() {
        EntryAction::WriteFile(t) => assert_eq!(t, "/out/a/b"),
        other => panic!("unexpected {other:?}"),
    }
    let dir = Entry { kind: EntryKind::EmptyDir, path: "d".to_string(), size: 0, sha256: [0u8; 32] };
    match plan_entry("/out", &dir).unwrap() {
        EntryAction::MakeDir(t) => assert_eq!(t, "/out/d"),
        other => panic!("unexpected {other:?}"),
    }
    let evil = Entry { kind: EntryKind::File, path: "../x".to_string(), size: 0, sha256: [0u8; 32] };
    assert!(matches!(plan_entry("/out", &evil), Err(Fa10Error::UnsafeEntryPath(_))));
    assert!(accept_content(&file, b"abc", true).is_ok());
    assert!(matches!(accept_content(&file, b"abd", true), Err(Fa10Error::ContentHashMismatch)));
    assert!(accept_content(&file, b"abd", false).is_ok());
}
