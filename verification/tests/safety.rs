use fa10::safety::{
    check_batch_limit, check_free_space, check_path_allowed, check_size_cap, protected_prefixes,
    rebuild_normalized,
    safe_extract_path, MAX_UNCONFIRMED_BATCH, MAX_UNCONFIRMED_OUTPUT, MIN_FREE_BYTES,
};
use fa10::Fa10Error;
use std::path::Path;

fn allowed(path: &str) -> bool {
    check_path_allowed(path, path, &protected_prefixes(Some("/home/user"))).is_ok()
}

#[test]
fn blocks_system_paths() {
    let prefixes = protected_prefixes(None);
    assert!(check_path_allowed("/etc/passwd", "/etc/passwd", &prefixes).is_err());
    assert!(check_path_allowed("/usr/bin/whatever", "/usr/bin/whatever", &prefixes).is_err());
}

#[test]
fn normal_paths_are_allowed() {
    assert!(allowed("/tmp/fa10_safety_probe.txt"));
    assert!(allowed("/home/user/data/file.bin"));
    assert!(allowed("/usrlocal/file"));
}

#[test]
fn home_library_is_protected() {
    assert!(!allowed("/home/user/Library/Caches"));
    assert!(!allowed("/etc"));
    match check_path_allowed("x", "/sys/kernel", &protected_prefixes(None)) {
        Err(Fa10Error::ProtectedPath(p)) => assert_eq!(p, "x"),
        other => panic!("unexpected {other:?}"),
    }
}

#[test]
fn size_cap_logic() {
    assert!(check_size_cap(MAX_UNCONFIRMED_OUTPUT, false).is_ok());
    assert!(check_size_cap(MAX_UNCONFIRMED_OUTPUT + 1, false).is_err());
    assert!(check_size_cap(MAX_UNCONFIRMED_OUTPUT + 1, true).is_ok());
}

#[test]
fn batch_limit_logic() {
    assert!(check_batch_limit(MAX_UNCONFIRMED_BATCH, false).is_ok());
    assert!(check_batch_limit(MAX_UNCONFIRMED_BATCH + 1, false).is_err());
    assert!(check_batch_limit(MAX_UNCONFIRMED_BATCH + 1, true).is_ok());
}

#[test]
fn free_space_floor() {
    assert!(check_free_space(100, MIN_FREE_BYTES + 100).is_ok());
    match check_free_space(101, MIN_FREE_BYTES + 100) {
        Err(Fa10Error::InsufficientSpace { needed, available, min_free }) => {
            assert_eq!((needed, available, min_free), (101, MIN_FREE_BYTES + 100, MIN_FREE_BYTES));
        }
        other => panic!("unexpected {other:?}"),
    }
    // The sum saturates instead of overflowing.
    assert!(check_free_space(u64::MAX, u64::MAX - 1).is_err());
    assert!(check_free_space(u64::MAX, u64::MAX).is_ok());
}

#[test]
fn safe_extract_path_allows_nested() {
    let root = Path::new("/tmp/out");
    assert_eq!(
        safe_extract_path("/tmp/out", "foo/bar/baz.txt").unwrap(),
        root.join("foo").join("bar").join("baz.txt").to_str().unwrap()
    );
    // Redundant `.` and leading slash collapse safely.
    assert_eq!(
        safe_extract_path("/tmp/out", "foo/./baz.txt").unwrap(),
        root.join("foo").join("baz.txt").to_str().unwrap()
    );
}

#[test]
fn safe_extract_path_rejects_escapes() {
    for bad in [
        "../evil",
        "foo/../../evil",
        "/etc/passwd",
        "C:\\Windows\\system32",
        "foo\\..\\bar",
        "",
    ] {
        assert!(
            safe_extract_path("/tmp/out", bad).is_err(),
            "should reject {bad:?}"
        );
    }
}

#[test]
fn safe_extract_path_rejects_drive_and_nul() {
    match safe_extract_path("/tmp/out", "a/c:/b") {
        Err(Fa10Error::UnsafeEntryPath(p)) => assert_eq!(p, "a/c:/b"),
        other => panic!("unexpected {other:?}"),
    }
    assert!(safe_extract_path("/tmp/out", "a\0b").is_err());
    assert_eq!(safe_extract_path("/tmp/out/", "a//b").unwrap(), "/tmp/out/a/b");
    assert_eq!(safe_extract_path("out", "x").unwrap(), "out/x");
}

fn names(v: &[&str]) -> Vec<String> {
    v.iter().map(|s| s.to_string()).collect()
}

#[test]
fn parent_names_cannot_bypass_the_blocklist() {
    let resolved = rebuild_normalized("/", &names(&["nonexistent_dir", "..", "etc", "passwd"]));
    assert_eq!(resolved, "/etc/passwd");
    let prefixes = protected_prefixes(None);
    assert!(check_path_allowed("/nonexistent_dir/../etc/passwd", &resolved, &prefixes).is_err());
}

#[test]
fn rebuild_resolves_lexically() {
    assert_eq!(rebuild_normalized("/tmp", &names(&["a", ".", "b", ".."])), "/tmp/a");
    assert_eq!(rebuild_normalized("/", &names(&["..", ".."])), "/");
    assert_eq!(rebuild_normalized("/home/u/../v", &names(&[])), "/home/v");
    assert_eq!(rebuild_normalized("/srv//data/", &names(&["x"])), "/srv/data/x");
}
