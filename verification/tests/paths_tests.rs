//! The byte-path operations at their edges.

use dirman::paths::{basename, contains_sub, join, le_bytes, parent_dir, split_name, under_strict};

fn b(s: &str) -> Vec<u8> {
    s.as_bytes().to_vec()
}

#[test]
fn basename_takes_the_final_component() {
    assert_eq!(basename(b"/r/src/main.rs"), b("main.rs"));
    assert_eq!(basename(b"main.rs"), b("main.rs"));
    assert_eq!(basename(b"/r/src/"), b(""));
}

#[test]
fn split_name_divides_stem_and_extension() {
    let (stem, ext) = split_name(b"main.rs");
    assert_eq!(stem, b("main"));
    assert_eq!(ext, b("rs"));
}

#[test]
fn split_name_keeps_a_leading_dot_in_the_stem() {
    let (stem, ext) = split_name(b".bashrc");
    assert_eq!(stem, b(".bashrc"));
    assert_eq!(ext, b(""));
}

#[test]
fn split_name_takes_the_last_dot() {
    let (stem, ext) = split_name(b"archive.tar.gz");
    assert_eq!(stem, b("archive.tar"));
    assert_eq!(ext, b("gz"));
}

#[test]
fn split_name_without_dot_has_empty_extension() {
    let (stem, ext) = split_name(b"Makefile");
    assert_eq!(stem, b("Makefile"));
    assert_eq!(ext, b(""));
}

#[test]
fn parent_dir_stops_at_the_last_separator() {
    assert_eq!(parent_dir(b"/r/src/main.rs"), Some(b("/r/src")));
    assert_eq!(parent_dir(b"/main.rs"), Some(b("/")));
    assert_eq!(parent_dir(b"main.rs"), None);
}

#[test]
fn join_inserts_one_separator() {
    assert_eq!(join(b"/r/src", b"main.rs"), b("/r/src/main.rs"));
    assert_eq!(join(b"/", b"main.rs"), b("/main.rs"));
}

#[test]
fn under_strict_respects_component_boundaries() {
    assert!(under_strict(b"/r/foo/x", b"/r/foo"));
    assert!(!under_strict(b"/r/foobar/x", b"/r/foo"));
    assert!(!under_strict(b"/r/foo", b"/r/foo"));
    assert!(under_strict(b"/a", b"/"));
}

#[test]
fn contains_sub_finds_runs_anywhere() {
    assert!(contains_sub(b"/r/src/main.rs", b"src"));
    assert!(contains_sub(b"abc", b""));
    assert!(!contains_sub(b"abc", b"abcd"));
}

#[test]
fn le_bytes_is_lexicographic() {
    assert!(le_bytes(b"abc", b"abd"));
    assert!(le_bytes(b"ab", b"abc"));
    assert!(!le_bytes(b"abd", b"abc"));
    assert!(le_bytes(b"", b"a"));
    assert!(le_bytes(b"abc", b"abc"));
}
