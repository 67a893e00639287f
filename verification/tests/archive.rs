use fa10::archive::{
    base_name, check_walk_depth, collect_entries, empty_dir_entry, join_stored,
    neither_file_nor_dir, PendingEntry, Visited, MAX_DEPTH,
};
use fa10::format::EntryKind;
use fa10::Fa10Error;

fn file(stored: &str, size: u64) -> PendingEntry {
    PendingEntry {
        kind: EntryKind::File,
        stored_path: stored.to_string(),
        fs_path: format!("/src/{stored}"),
        size,
    }
}

#[test]
fn base_name_is_final_component() {
    assert_eq!(base_name("/tmp/dir/file.txt"), "file.txt");
    assert_eq!(base_name("relative/dir/"), "dir");
    assert_eq!(base_name("a/./"), "a");
    assert_eq!(base_name("."), "");
    assert_eq!(base_name("/"), "");
    assert_eq!(base_name("a/.."), "");
}

#[test]
fn join_stored_nests_under_prefix() {
    assert_eq!(join_stored("", "x.txt"), "x.txt");
    assert_eq!(join_stored("proj/sub", "x.txt"), "proj/sub/x.txt");
}

#[test]
fn collect_entries_sorts_by_path() {
    let inputs = vec!["proj".to_string()];
    let found = vec![file("proj/b", 2), file("proj/a/z", 1), file("proj/a", 3), file("proj/B", 4)];
    let sorted = collect_entries(&inputs, found).unwrap();
    let paths: Vec<&str> = sorted.iter().map(|e| e.stored_path.as_str()).collect();
    assert_eq!(paths, vec!["proj/B", "proj/a", "proj/a/z", "proj/b"]);
    assert_eq!(sorted[1].size, 3);
}

#[test]
fn collect_entries_same_tree_any_order_same_list() {
    let inputs = vec!["t".to_string()];
    let a = collect_entries(&inputs, vec![file("t/a", 3), file("t/sub/b", 3)]).unwrap();
    let b = collect_entries(&inputs, vec![file("t/sub/b", 3), file("t/a", 3)]).unwrap();
    let pa: Vec<&str> = a.iter().map(|e| e.stored_path.as_str()).collect();
    let pb: Vec<&str> = b.iter().map(|e| e.stored_path.as_str()).collect();
    assert_eq!(pa, pb);
}

#[test]
fn collect_entries_rejects_duplicates_and_no_inputs() {
    let inputs = vec!["x/dup.txt".to_string(), "y/dup.txt".to_string()];
    match collect_entries(&inputs, vec![file("dup.txt", 1), file("other", 1), file("dup.txt", 1)]) {
        Err(Fa10Error::DuplicateEntry(p)) => assert_eq!(p, "dup.txt"),
        other => panic!("unexpected {other:?}"),
    }
    assert!(matches!(collect_entries(&vec![], vec![]), Err(Fa10Error::NoInputs)));
    assert_eq!(collect_entries(&inputs, vec![]).unwrap().len(), 0);
}

#[test]
fn walk_helpers() {
    assert!(check_walk_depth("d", MAX_DEPTH).is_ok());
    match check_walk_depth("d/loop", MAX_DEPTH + 1) {
        Err(Fa10Error::SymlinkCycle(p)) => assert_eq!(p, "d/loop"),
        other => panic!("unexpected {other:?}"),
    }
    match neither_file_nor_dir("/dev/null") {
        Fa10Error::BadFormat(m) => assert_eq!(m, "/dev/null is neither a file nor a directory"),
        other => panic!("unexpected {other:?}"),
    }
    let e = empty_dir_entry("data/emptydir", "/src/data/emptydir", 0).unwrap();
    assert!(e.kind == EntryKind::EmptyDir);
    assert_eq!(e.stored_path, "data/emptydir");
    assert_eq!(e.size, 0);
    assert!(empty_dir_entry("data", "/src/data", 2).is_none());
    assert!(empty_dir_entry("", ".", 0).is_none());
}

#[test]
fn visited_breaks_cycles() {
    let mut v = Visited::new();
    assert!(v.insert("/a"));
    assert!(v.insert("/a/b"));
    assert!(!v.insert("/a"));
    assert!(!v.insert("/a/b"));
    assert!(v.insert("/c"));
}
