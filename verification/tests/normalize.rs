use rm_progress::lex::{join_paths, normalize_lexically, parse_components, NormalizeError};

fn rendered(p: &str) -> String {
    normalize_lexically(p).expect("normalizable path").render()
}

#[test]
fn relative_parent_collapses() {
    assert_eq!(rendered("a/b/../c"), "a/c");
}

#[test]
fn absolute_parent_collapses() {
    assert_eq!(rendered("/a/b/../c"), "/a/c");
}

#[test]
fn dot_segments_dropped() {
    assert_eq!(rendered("/a/./b/."), "/a/b");
    assert_eq!(rendered("./a"), "a");
    assert_eq!(rendered("."), "");
}

#[test]
fn empty_path_stays_empty() {
    assert_eq!(rendered(""), "");
}

#[test]
fn bare_root_stays_root() {
    assert_eq!(rendered("/"), "/");
}

#[test]
fn repeated_separators_collapse() {
    assert_eq!(rendered("//a///b/"), "/a/b");
}

#[test]
fn relative_collapse_to_empty() {
    assert_eq!(rendered("a/.."), "");
}

#[test]
fn normalization_is_idempotent() {
    for p in ["/a/b/../c", "a/b/../c", "./x/y/..", "/", "", "."] {
        let once = rendered(p);
        assert_eq!(rendered(&once), once);
    }
}

#[test]
fn no_dot_components_in_result() {
    let out = rendered("/a/../b/./c/../d");
    assert_eq!(out, "/b/d");
    assert!(!out.split('/').any(|s| s == "." || s == ".."));
}

#[test]
fn unrooted_leading_parent_fails() {
    assert_eq!(normalize_lexically("..").err(), Some(NormalizeError));
    assert_eq!(normalize_lexically("../x").err(), Some(NormalizeError));
    assert_eq!(normalize_lexically("./..").err(), Some(NormalizeError));
}

#[test]
fn ascending_past_root_fails() {
    assert_eq!(normalize_lexically("/..").err(), Some(NormalizeError));
    assert_eq!(normalize_lexically("/a/../../b").err(), Some(NormalizeError));
}

#[test]
fn join_inserts_separator() {
    assert_eq!(join_paths("/home/u", "y"), "/home/u/y");
    assert_eq!(join_paths("/", "y"), "/y");
    assert_eq!(join_paths("/home/u", "/etc"), "/etc");
}

#[test]
fn join_then_normalize_concatenates_components() {
    let joined = join_paths("/home/u", "a/../b");
    assert_eq!(rendered(&joined), "/home/u/b");
    let joined = join_paths("/home/u", "../z");
    assert_eq!(rendered(&joined), "/home/z");
}

#[test]
fn parse_components_keeps_parent_literally() {
    let p = parse_components("/a/../b");
    let names: Vec<&str> = p.names.iter().map(|s| s.as_str()).collect();
    assert_eq!(names, vec!["a", "..", "b"]);
}
