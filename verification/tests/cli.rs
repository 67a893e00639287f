use fa10::cli::{implicit_grow_at, is_global_flag_token, is_subcommand_token, InfoArgs, RestoreArgs, ThemedArgs};

fn args(a: &[&str]) -> Vec<String> {
    a.iter().map(|s| s.to_string()).collect()
}

#[test]
fn bare_file_implies_grow() {
    assert_eq!(implicit_grow_at(&args(&["fa10", "report.csv"])), Some(1));
    assert_eq!(implicit_grow_at(&args(&["fa10", "-q", "report.csv"])), Some(2));
    assert_eq!(implicit_grow_at(&args(&["fa10", "-qv", "--verbose", "--multiplier", "3", "f"])), Some(3));
    assert_eq!(implicit_grow_at(&args(&["fa10", "-q", "--pattern", "ZZZ-", "f"])), Some(2));
}

#[test]
fn subcommands_and_help_need_no_grow() {
    assert_eq!(implicit_grow_at(&args(&["fa10", "-q", "cake", "f"])), None);
    assert_eq!(implicit_grow_at(&args(&["fa10", "inflate", "cake"])), None);
    assert_eq!(implicit_grow_at(&args(&["fa10", "--help"])), None);
    assert_eq!(implicit_grow_at(&args(&["fa10", "-V"])), None);
    assert_eq!(implicit_grow_at(&args(&["fa10"])), None);
    assert_eq!(implicit_grow_at(&args(&["fa10", "-q"])), None);
}

#[test]
fn token_classes() {
    for t in ["inflate", "grow", "restore", "info", "cake", "feast", "buffet", "diet", "slim", "help"] {
        assert!(is_subcommand_token(t));
    }
    assert!(!is_subcommand_token("Cake"));
    assert!(is_global_flag_token("-q"));
    assert!(is_global_flag_token("-vqv"));
    assert!(is_global_flag_token("--quiet"));
    assert!(!is_global_flag_token("-"));
    assert!(!is_global_flag_token("-qx"));
    assert!(!is_global_flag_token("--q"));
}

#[test]
fn argument_structs_hold_values() {
    let t = ThemedArgs {
        files: args(&["a"]),
        output: None,
        pattern: Some("ZZ".to_string()),
        in_place: false,
        confirm: false,
        verify: true,
        batch: false,
    };
    assert_eq!(t.files.len(), 1);
    let r = RestoreArgs { files: args(&["a.fa10"]), output: None, skip_verify: false, force: true };
    assert!(r.force);
    let i = InfoArgs { file: "a.fa10".to_string() };
    assert_eq!(i.file, "a.fa10");
}
