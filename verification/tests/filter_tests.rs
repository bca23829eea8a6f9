//! The inclusion filter, rule by rule.

use dirman::filter::InclusionFilter;

fn b(s: &str) -> Vec<u8> {
    s.as_bytes().to_vec()
}

fn set(items: &[&str]) -> Vec<Vec<u8>> {
    items.iter().map(|s| b(s)).collect()
}

fn none() -> Vec<Vec<u8>> {
    Vec::new()
}

#[test]
fn permissive_accepts_files_and_directories() {
    let f = InclusionFilter::permissive();
    assert!(f.accepts(b"/r", b"/r/src", true));
    assert!(f.accepts(b"/r", b"/r/src/main.rs", false));
    assert!(f.accepts(b"/r", b"/r", true));
}

#[test]
fn ignored_component_rejects_directory_and_everything_beneath() {
    let f = InclusionFilter::new(none(), none(), set(&["docs"]), none(), none());
    assert!(!f.accepts(b"/r", b"/r/docs", true));
    assert!(!f.accepts(b"/r", b"/r/docs/readme.md", false));
    assert!(f.accepts(b"/r", b"/r/src", true));
    assert!(f.accepts(b"/r", b"/r/src/main.rs", false));
}

#[test]
fn ignored_component_matches_case_insensitively() {
    let f = InclusionFilter::new(none(), none(), set(&["Docs"]), none(), none());
    assert!(!f.accepts(b"/r", b"/r/DOCS/readme.md", false));
    assert!(!f.accepts(b"/r", b"/r/docs", true));
}

#[test]
fn ignored_component_never_fires_on_the_root_itself() {
    let f = InclusionFilter::new(none(), none(), set(&["r"]), none(), none());
    assert!(f.accepts(b"/x/r", b"/x/r", true));
    assert!(!f.accepts(b"/x/r", b"/x/r/r", true));
}

#[test]
fn component_match_is_whole_component_not_substring() {
    let f = InclusionFilter::new(none(), none(), set(&["doc"]), none(), none());
    assert!(f.accepts(b"/r", b"/r/docs/readme.md", false));
    assert!(!f.accepts(b"/r", b"/r/doc/readme.md", false));
}

#[test]
fn target_extension_constrains_files_only() {
    let f = InclusionFilter::new(set(&[".rs"]), none(), none(), none(), none());
    assert!(f.accepts(b"/r", b"/r/a.rs", false));
    assert!(!f.accepts(b"/r", b"/r/a.txt", false));
    assert!(f.accepts(b"/r", b"/r/anydir", true));
}

#[test]
fn target_extension_with_or_without_leading_dot() {
    let with_dot = InclusionFilter::new(set(&[".RS"]), none(), none(), none(), none());
    let bare = InclusionFilter::new(set(&["rs"]), none(), none(), none(), none());
    assert!(with_dot.accepts(b"/r", b"/r/a.rs", false));
    assert!(bare.accepts(b"/r", b"/r/A.RS", false));
}

#[test]
fn exact_filename_matches_full_lowered_name() {
    let f = InclusionFilter::new(none(), set(&["Makefile"]), none(), none(), none());
    assert!(f.accepts(b"/r", b"/r/makefile", false));
    assert!(f.accepts(b"/r", b"/r/MAKEFILE", false));
    assert!(!f.accepts(b"/r", b"/r/makefile.txt", false));
}

#[test]
fn extension_and_exact_name_criteria_are_or_ed() {
    let f = InclusionFilter::new(set(&["rs"]), set(&["makefile"]), none(), none(), none());
    assert!(f.accepts(b"/r", b"/r/a.rs", false));
    assert!(f.accepts(b"/r", b"/r/Makefile", false));
    assert!(!f.accepts(b"/r", b"/r/a.txt", false));
}

#[test]
fn whitelist_requires_some_substring() {
    let f = InclusionFilter::new(none(), none(), none(), none(), set(&["test"]));
    assert!(f.accepts(b"/r", b"/r/my_test.rs", false));
    assert!(f.accepts(b"/r", b"/r/TESTER", false));
    assert!(!f.accepts(b"/r", b"/r/main.rs", false));
}

#[test]
fn blacklist_rejects_any_substring() {
    let f = InclusionFilter::new(none(), none(), none(), set(&["tmp"]), none());
    assert!(!f.accepts(b"/r", b"/r/a.tmp", false));
    assert!(!f.accepts(b"/r", b"/r/TMP_file", false));
    assert!(f.accepts(b"/r", b"/r/a.rs", false));
}

#[test]
fn blacklist_outweighs_whitelist() {
    let f = InclusionFilter::new(none(), none(), none(), set(&["old"]), set(&["test"]));
    assert!(!f.accepts(b"/r", b"/r/old_test.rs", false));
    assert!(f.accepts(b"/r", b"/r/new_test.rs", false));
}

#[test]
fn entry_outside_the_root_is_accepted() {
    let f = InclusionFilter::new(none(), none(), set(&["elsewhere"]), none(), none());
    assert!(f.accepts(b"/r", b"/elsewhere/file", false));
}
