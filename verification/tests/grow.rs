use std::cell::Cell;

use fa10::archive::PendingEntry;
use fa10::format::{EntryKind, Manifest, DEFAULT_PATTERN, END_MAGIC, HEADER_MAGIC};
use fa10::grow::{
    check_pattern, default_output, grow_sizes_fit, manifest_skeleton, padding_block, plan_grow,
    record_entry, resolve_output, write_archive, write_padding, SizeRequest,
};
use fa10::grow::{check_grow_target, padding_chunk, ArchiveBuilder};
use fa10::restore::verify_archive;
use fa10::safety::{protected_prefixes, MAX_UNCONFIRMED_OUTPUT, MIN_FREE_BYTES};
use fa10::{Fa10Error, NoProgress, Progress};
use sha2::Digest;

#[derive(Default)]
struct Recorder {
    added: Cell<u64>,
    adds: Cell<u64>,
}

impl Progress for Recorder {
    fn add(&self, delta: u64) {
        self.added.set(self.added.get() + delta);
        self.adds.set(self.adds.get() + 1);
    }
}

fn file(stored: &str, size: u64) -> PendingEntry {
    PendingEntry {
        kind: EntryKind::File,
        stored_path: stored.to_string(),
        fs_path: format!("/src/{stored}"),
        size,
    }
}

fn dir(stored: &str) -> PendingEntry {
    PendingEntry {
        kind: EntryKind::EmptyDir,
        stored_path: stored.to_string(),
        fs_path: format!("/src/{stored}"),
        size: 0,
    }
}

#[test]
fn output_naming() {
    assert_eq!(default_output("/tmp/payload.bin"), "/tmp/payload.bin.fa10");
    assert_eq!(default_output("foo"), "foo.fa10");
    assert_eq!(default_output("mydir/"), "mydir.fa10");
    assert_eq!(default_output("mydir//"), "mydir.fa10");
    assert_eq!(default_output("/"), "/.fa10");
    let one = vec!["data".to_string()];
    let two = vec!["a.txt".to_string(), "b.txt".to_string()];
    assert_eq!(resolve_output(None, false, &one), "data.fa10");
    assert_eq!(resolve_output(None, false, &two), "archive.fa10");
    assert_eq!(resolve_output(Some("arc.fa10"), false, &two), "arc.fa10");
    assert_eq!(resolve_output(None, true, &one), "data");
}

#[test]
fn plan_sizes_the_padding() {
    let inputs = vec!["payload.bin".to_string()];
    let entries = vec![file("payload.bin", 4096)];
    assert!(grow_sizes_fit(&entries));
    // header 8 + contents 4096 + manifest (16 + 45 + 11) + trailer 16
    let min = 8 + 4096 + 72 + 16;
    let plan = plan_grow(&inputs, &entries, SizeRequest::Scaled(3 * 4096), None, false, false, false)
        .unwrap();
    assert_eq!(plan.output_path, "payload.bin.fa10");
    assert_eq!(plan.entry_count, 1);
    assert_eq!(plan.payload_size, 4096);
    assert_eq!(plan.output_size, 3 * 4096);
    assert_eq!(plan.padding_size, 3 * 4096 - min);
    assert!(!plan.clamped);

    let clamped =
        plan_grow(&inputs, &entries, SizeRequest::Scaled(10), None, false, false, false).unwrap();
    assert!(clamped.clamped);
    assert_eq!(clamped.output_size, min);
    assert_eq!(clamped.padding_size, 0);

    match plan_grow(&inputs, &entries, SizeRequest::Exact(10), None, false, false, false) {
        Err(Fa10Error::TargetTooSmall { requested, minimum }) => {
            assert_eq!((requested, minimum), (10, min));
        }
        other => panic!("unexpected {other:?}"),
    }
}

#[test]
fn plan_enforces_in_place_and_batch_rules() {
    let inputs = vec!["f.txt".to_string()];
    let one = vec![file("f.txt", 17)];
    assert!(matches!(
        plan_grow(&inputs, &one, SizeRequest::Exact(2000), None, true, false, false),
        Err(Fa10Error::InPlaceNeedsConfirm)
    ));
    let plan = plan_grow(&inputs, &one, SizeRequest::Exact(2000), None, true, true, false).unwrap();
    assert_eq!(plan.output_path, "f.txt");
    let tree = vec![file("adir/x", 1), file("adir/y", 1)];
    let dir_inputs = vec!["adir".to_string()];
    assert!(matches!(
        plan_grow(&dir_inputs, &tree, SizeRequest::Exact(2000), None, true, true, false),
        Err(Fa10Error::InPlaceNotSingleFile)
    ));
    let many: Vec<PendingEntry> = (0..101).map(|i| file(&format!("f{i:03}"), 1)).collect();
    match plan_grow(&inputs, &many, SizeRequest::Scaled(0), None, false, false, false) {
        Err(Fa10Error::BatchLimitExceeded { count, limit }) => assert_eq!((count, limit), (101, 100)),
        other => panic!("unexpected {other:?}"),
    }
    assert!(plan_grow(&inputs, &many, SizeRequest::Scaled(0), None, false, false, true).is_ok());
}

#[test]
fn skeleton_has_zeroed_digests() {
    let m = manifest_skeleton(&vec![file("a", 3), dir("d")]);
    assert_eq!(m.entries.len(), 2);
    assert_eq!(m.entries[0].sha256, [0u8; 32]);
    assert_eq!(m.entries[0].path, "a");
    assert!(m.entries[1].kind == EntryKind::EmptyDir);
}

#[test]
fn empty_pattern_is_refused() {
    assert!(matches!(check_pattern(""), Err(Fa10Error::EmptyPattern)));
    assert!(check_pattern(DEFAULT_PATTERN).is_ok());
}

#[test]
fn padding_repeats_the_pattern() {
    let mut out = vec![9u8];
    write_padding(&mut out, b"abc", 8, &NoProgress);
    assert_eq!(out, b"\x09abcabcab".to_vec());
    let block = padding_block(b"XYZZY-");
    assert_eq!(block.len(), (65536 / 6) * 6);
    assert_eq!(&block[..12], b"XYZZY-XYZZY-");
    let big = vec![b'q'; 70000];
    assert_eq!(padding_block(&big).len(), 70000);
}

#[test]
fn long_padding_is_written_in_whole_blocks() {
    let rec = Recorder::default();
    let mut out = Vec::new();
    let n: u64 = 200_000;
    write_padding(&mut out, DEFAULT_PATTERN.as_bytes(), n, &rec);
    assert_eq!(out.len() as u64, n);
    let p = DEFAULT_PATTERN.as_bytes();
    assert!(out.iter().enumerate().all(|(i, b)| *b == p[i % p.len()]));
    assert_eq!(rec.added.get(), n);
    assert!(rec.adds.get() >= 2);
}

#[test]
fn record_entry_checks_size_and_hashes() {
    let e = file("f.txt", 5);
    let r = record_entry(&e, b"hello").unwrap();
    let want: [u8; 32] = sha2::Sha256::digest(b"hello").into();
    assert_eq!(r.sha256, want);
    assert_eq!(r.path, "f.txt");
    assert_eq!(r.size, 5);
    match record_entry(&e, b"hello!") {
        Err(Fa10Error::BadFormat(m)) => {
            assert_eq!(m, "/src/f.txt changed during read: expected 5 bytes, read 6")
        }
        other => panic!("unexpected {other:?}"),
    }
    let d = record_entry(&dir("d"), b"ignored").unwrap();
    assert_eq!(d.sha256, [0u8; 32]);
}

#[test]
fn archive_is_planned_size_and_progress_sums_to_it() {
    let inputs = vec!["t".to_string()];
    let entries = vec![file("t/a", 3), dir("t/empty"), file("t/sub/b", 3)];
    let contents = vec![b"aaa".to_vec(), Vec::new(), b"bbb".to_vec()];
    let plan = plan_grow(&inputs, &entries, SizeRequest::Exact(5000), None, false, false, false)
        .unwrap();
    let rec = Recorder::default();
    let bytes =
        write_archive(&entries, &contents, plan.padding_size, DEFAULT_PATTERN.as_bytes(), &rec)
            .unwrap();
    assert_eq!(bytes.len() as u64, plan.output_size);
    assert_eq!(bytes.len(), 5000);
    assert_eq!(rec.added.get(), 5000);
    assert_eq!(&bytes[..8], &HEADER_MAGIC);
    assert_eq!(&bytes[8..14], b"aaabbb");
    assert_eq!(&bytes[14..14 + 19], DEFAULT_PATTERN.as_bytes());
    assert_eq!(&bytes[bytes.len() - 16..bytes.len() - 8], &END_MAGIC);
    let m = Manifest::read_from(&bytes).unwrap();
    assert_eq!(m.entries.len(), 3);
    assert_eq!(m.entries[2].path, "t/sub/b");
    assert!(verify_archive(&bytes).is_ok());

    // The same entries always give the same bytes.
    let again =
        write_archive(&entries, &contents, plan.padding_size, DEFAULT_PATTERN.as_bytes(), &NoProgress)
            .unwrap();
    assert_eq!(bytes, again);
}

#[test]
fn write_archive_reports_changed_file() {
    let entries = vec![file("a", 3), file("b", 3)];
    let contents = vec![b"aaa".to_vec(), b"bb".to_vec()];
    match write_archive(&entries, &contents, 0, b"", &NoProgress) {
        Err(Fa10Error::BadFormat(m)) => {
            assert_eq!(m, "/src/b changed during read: expected 3 bytes, read 2")
        }
        other => panic!("unexpected {other:?}"),
    }
}

#[test]
fn in_place_writes_a_sibling_temp_file() {
    assert_eq!(fa10::grow::in_place_temp_path("dir/f.txt"), "dir/f.txt.fa10.tmp");
}

#[test]
fn grow_target_checks_in_order() {
    let prefixes = protected_prefixes(None);
    let inputs = vec!["a".to_string(), "b".to_string()];
    let resolved = vec!["/home/u/a".to_string(), "/etc/b".to_string()];
    let plenty = u64::MAX;
    match check_grow_target(&inputs, &resolved, "out", "/home/u/out", &prefixes, 10, false, plenty, false, false) {
        Err(Fa10Error::ProtectedPath(p)) => assert_eq!(p, "b"),
        other => panic!("unexpected {other:?}"),
    }
    let ok = vec!["/home/u/a".to_string(), "/home/u/b".to_string()];
    match check_grow_target(&inputs, &ok, "out", "/usr/out", &prefixes, 10, false, plenty, false, false) {
        Err(Fa10Error::ProtectedPath(p)) => assert_eq!(p, "out"),
        other => panic!("unexpected {other:?}"),
    }
    assert!(matches!(
        check_grow_target(&inputs, &ok, "out", "/home/u/out", &prefixes, MAX_UNCONFIRMED_OUTPUT + 1, false, plenty, false, false),
        Err(Fa10Error::SizeCapExceeded { .. })
    ));
    assert!(matches!(
        check_grow_target(&inputs, &ok, "out", "/home/u/out", &prefixes, 10, false, MIN_FREE_BYTES, false, false),
        Err(Fa10Error::InsufficientSpace { .. })
    ));
    assert!(matches!(
        check_grow_target(&inputs, &ok, "out", "/home/u/out", &prefixes, 10, false, plenty, false, true),
        Err(Fa10Error::OutputExists(_))
    ));
    assert!(check_grow_target(&inputs, &ok, "out", "/home/u/out", &prefixes, 10, false, plenty, true, true).is_ok());
}

#[test]
fn streamed_steps_give_the_built_archive() {
    let entries = vec![file("t/a", 3), dir("t/empty"), file("t/sub/b", 3)];
    let contents = vec![b"aaa".to_vec(), Vec::new(), b"bbb".to_vec()];
    let whole =
        write_archive(&entries, &contents, 150_000, b"XYZZY-", &NoProgress).unwrap();

    let mut streamed = Vec::new();
    let mut chunk = Vec::new();
    let mut builder = ArchiveBuilder::start(&mut chunk);
    streamed.extend_from_slice(&chunk);
    for (e, c) in entries.iter().zip(&contents) {
        chunk.clear();
        builder.add_entry(&mut chunk, e, c).unwrap();
        streamed.extend_from_slice(&chunk);
    }
    let mut remaining = 150_000u64;
    let mut chunks = 0;
    while remaining > 0 {
        let n = padding_chunk(6, remaining);
        chunk.clear();
        write_padding(&mut chunk, b"XYZZY-", n, &NoProgress);
        streamed.extend_from_slice(&chunk);
        remaining -= n;
        chunks += 1;
    }
    assert_eq!(chunks, 3);
    chunk.clear();
    builder.finish(&mut chunk);
    streamed.extend_from_slice(&chunk);
    assert_eq!(streamed, whole);
}

#[test]
fn builder_refuses_changed_file_and_keeps_state() {
    let mut out = Vec::new();
    let mut builder = ArchiveBuilder::start(&mut out);
    assert_eq!(out, HEADER_MAGIC.to_vec());
    assert!(builder.add_entry(&mut out, &file("a", 3), b"aa").is_err());
    assert_eq!(out.len(), 8);
    builder.add_entry(&mut out, &file("a", 3), b"aaa").unwrap();
    assert_eq!(&out[8..], b"aaa");
}

#[test]
fn padding_chunks_are_whole_blocks() {
    assert_eq!(padding_chunk(6, 10), 10);
    assert_eq!(padding_chunk(6, 1_000_000), (65536 / 6) * 6);
    assert_eq!(padding_chunk(70000, 1_000_000), 70000);
    assert_eq!(padding_chunk(19, 0), 0);
}
