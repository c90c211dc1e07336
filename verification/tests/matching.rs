use rm_progress::procinfo::{exe_matches, is_rooted, parse_pid};
use rm_progress::progress::{build_table, filter_flags, split_cmdline, ArgTable};

fn table(cwd: &str, args: &[&str]) -> ArgTable {
    let owned: Vec<String> = args.iter().map(|s| s.to_string()).collect();
    build_table(cwd, &owned).expect("normalizable path")
}

#[test]
fn split_cmdline_on_nul() {
    let fields = split_cmdline("a\0--recursive\0y\0");
    assert_eq!(fields, vec!["a", "--recursive", "y"]);
}

#[test]
fn split_cmdline_keeps_interior_empty_fields() {
    assert_eq!(split_cmdline("a\0\0b"), vec!["a", "", "b"]);
    assert_eq!(split_cmdline(""), Vec::<String>::new());
    assert_eq!(split_cmdline("\0"), vec![""]);
}

#[test]
fn flags_are_filtered() {
    let args: Vec<String> = vec!["x".into(), "--recursive".into(), "y".into(), "--".into()];
    assert_eq!(filter_flags(&args), vec!["x", "y"]);
}

#[test]
fn most_specific_ancestor_wins() {
    // entries: "/a" at index 0, "/a/b" at index 1
    let t = table("/", &["a", "a/b"]);
    assert_eq!(t.match_descriptor("/a/b/c"), Some(1));
    assert_eq!(t.match_descriptor("/a/x"), Some(0));
}

#[test]
fn unrelated_descriptor_has_no_match() {
    let t = table("/", &["a", "a/b"]);
    assert_eq!(t.match_descriptor("/etc/passwd"), None);
}

#[test]
fn scenario_flags_and_nesting() {
    // cwd /home/u, cmdline ["/home/u/x", "y", "--recursive"]
    let raw = split_cmdline("/home/u/x\0y\0--recursive\0");
    let args = filter_flags(&raw);
    let t = build_table("/home/u", &args).expect("normalizable path");
    assert_eq!(t.total(), 2);
    assert_eq!(t.match_descriptor("/home/u/y/file.txt"), Some(1));
    assert_eq!(t.match_descriptor("/home/u/x"), Some(0));
    assert_eq!(t.match_descriptor("/etc/passwd"), None);
}

#[test]
fn scenario_parent_in_argument() {
    // cmdline ["../z"] with cwd /home/u normalizes to /home/z
    let t = table("/home/u", &["../z"]);
    assert_eq!(t.entries[0].render(), "/home/z");
    assert_eq!(t.match_descriptor("/home/z"), Some(0));
}

#[test]
fn scenario_escape_aborts() {
    // cmdline ["../../escape"] with cwd /home ascends past the root
    let owned: Vec<String> = vec!["../../escape".to_string()];
    assert!(build_table("/home", &owned).is_err());
}

#[test]
fn later_duplicate_argument_wins() {
    let t = table("/h", &["x", "y", "x"]);
    assert_eq!(t.match_descriptor("/h/x"), Some(2));
    assert_eq!(t.match_descriptor("/h/y"), Some(1));
}

#[test]
fn descriptor_parent_component_is_literal() {
    // a descriptor path with a literal ".." never equals a normalized entry
    let t = table("/", &["a"]);
    assert_eq!(t.match_descriptor("/a/b/.."), Some(0));
}

#[test]
fn pid_names_are_nonempty_digit_strings() {
    assert_eq!(parse_pid("123"), Some(123));
    assert_eq!(parse_pid("0042"), Some(42));
    assert_eq!(parse_pid(""), None);
    assert_eq!(parse_pid("12a"), None);
    assert_eq!(parse_pid("self"), None);
    assert_eq!(parse_pid("4294967295"), Some(u32::MAX));
    assert_eq!(parse_pid("4294967296"), None);
}

#[test]
fn enumeration_keeps_only_matching_executables() {
    assert!(exe_matches("/usr/bin/rm", "/usr/bin/rm"));
    assert!(exe_matches("/usr/bin/rm", "rm"));
    assert!(!exe_matches("/usr/bin/cat", "rm"));
    assert!(!exe_matches("rm", "/usr/bin/rm"));
}

#[test]
fn only_rooted_descriptor_targets_count() {
    assert!(is_rooted("/dev/null"));
    assert!(!is_rooted("socket:[1234]"));
    assert!(!is_rooted(""));
}
