//! The index end to end: population through the filter, queries,
//! mutations with their bookkeeping, and the rendered tree.

use dirman::entries::RawEntry;
use dirman::filter::InclusionFilter;
use dirman::index::{DirectoryIndex, IndexError};

fn b(s: &str) -> Vec<u8> {
    s.as_bytes().to_vec()
}

fn set(items: &[&str]) -> Vec<Vec<u8>> {
    items.iter().map(|s| b(s)).collect()
}

fn none() -> Vec<Vec<u8>> {
    Vec::new()
}

fn dir(path: &str) -> RawEntry {
    RawEntry::new(b(path), true, 0)
}

fn file(path: &str, size: u64) -> RawEntry {
    RawEntry::new(b(path), false, size)
}

/// A populated index over `/r` with a small tree.
fn sample() -> DirectoryIndex {
    let mut ix = DirectoryIndex::new(b("/r"), InclusionFilter::permissive());
    let entries = vec![
        dir("/r/src"),
        file("/r/src/main.rs", 10),
        file("/r/src/lib.rs", 20),
        dir("/r/docs"),
        file("/r/docs/readme.md", 30),
        dir("/r/docs/img"),
        file("/r/docs/img/logo.png", 40),
        file("/r/top", 5),
    ];
    ix.populate(&entries);
    ix
}

#[test]
fn populate_filters_ignored_components() {
    let filter = InclusionFilter::new(none(), none(), set(&["docs"]), none(), none());
    let mut ix = DirectoryIndex::new(b("/r"), filter);
    let entries = vec![
        dir("/r/src"),
        file("/r/src/main.rs", 10),
        dir("/r/docs"),
        file("/r/docs/readme.md", 30),
    ];
    ix.populate(&entries);
    assert_eq!(ix.files.len(), 1);
    assert_eq!(ix.files[0].path, b("/r/src/main.rs"));
    assert_eq!(ix.files[0].name, b("main"));
    assert_eq!(ix.files[0].extension, b("rs"));
    assert_eq!(ix.directories.len(), 1);
    assert_eq!(ix.directories[0].path, b("/r/src"));
    assert_eq!(ix.extensions, vec![b("rs")]);
}

#[test]
fn populate_respects_target_criteria() {
    let filter = InclusionFilter::new(set(&[".rs"]), set(&["makefile"]), none(), none(), none());
    let mut ix = DirectoryIndex::new(b("/r"), filter);
    let entries = vec![
        file("/r/main.rs", 1),
        file("/r/readme.md", 2),
        file("/r/Makefile", 3),
    ];
    ix.populate(&entries);
    assert_eq!(ix.files.len(), 2);
    assert_eq!(ix.files[0].path, b("/r/Makefile"));
    assert_eq!(ix.files[1].path, b("/r/main.rs"));
}

#[test]
fn populate_sorts_and_collects_extensions() {
    let ix = sample();
    let paths: Vec<&Vec<u8>> = ix.files.iter().map(|f| &f.path).collect();
    let mut sorted = paths.clone();
    sorted.sort();
    assert_eq!(paths, sorted);
    assert_eq!(ix.extensions, vec![b("md"), b("png"), b("rs")]);
    assert_eq!(ix.directories.len(), 3);
    assert_eq!(ix.files.len(), 5);
}

#[test]
fn populate_skips_the_root_and_entries_outside_it() {
    let mut ix = DirectoryIndex::new(b("/r"), InclusionFilter::permissive());
    let entries = vec![dir("/r"), file("/elsewhere/f.txt", 1), file("/r/a.txt", 2)];
    ix.populate(&entries);
    assert_eq!(ix.directories.len(), 0);
    assert_eq!(ix.files.len(), 1);
    assert_eq!(ix.files[0].path, b("/r/a.txt"));
}

#[test]
fn populate_twice_yields_identical_collections() {
    let entries = vec![
        dir("/r/src"),
        file("/r/src/main.rs", 10),
        file("/r/b.txt", 7),
        file("/r/a.txt", 3),
    ];
    let mut one = DirectoryIndex::new(b("/r"), InclusionFilter::permissive());
    one.populate(&entries);
    let mut two = DirectoryIndex::new(b("/r"), InclusionFilter::permissive());
    two.populate(&entries);
    assert_eq!(one.files.len(), two.files.len());
    for (f, g) in one.files.iter().zip(two.files.iter()) {
        assert_eq!(f.path, g.path);
        assert_eq!(f.size, g.size);
    }
    assert_eq!(one.directories.len(), two.directories.len());
    for (d, e) in one.directories.iter().zip(two.directories.iter()) {
        assert_eq!(d.path, e.path);
    }
    assert_eq!(one.extensions, two.extensions);
}

#[test]
fn find_files_applies_all_constraints() {
    let ix = sample();
    let hits = ix.find_files(Some(&b("main")), None, None, false);
    assert_eq!(hits.len(), 1);
    assert_eq!(hits[0].path, b("/r/src/main.rs"));

    let hits = ix.find_files(None, Some(&b("docs")), None, false);
    assert_eq!(hits.len(), 2);

    let hits = ix.find_files(None, None, Some(&b("rs")), false);
    assert_eq!(hits.len(), 2);

    let hits = ix.find_files(Some(&b("main")), Some(&b("src")), Some(&b("rs")), false);
    assert_eq!(hits.len(), 1);

    let hits = ix.find_files(Some(&b("main")), None, Some(&b("md")), false);
    assert_eq!(hits.len(), 0);
}

#[test]
fn find_files_first_only_stops_at_the_first_match() {
    let ix = sample();
    let hits = ix.find_files(None, None, Some(&b("rs")), true);
    assert_eq!(hits.len(), 1);
    assert_eq!(hits[0].path, b("/r/src/lib.rs"));
}

#[test]
fn find_file_errors_when_nothing_matches() {
    let ix = sample();
    match ix.find_file(Some(&b("absent")), None, None) {
        Err(IndexError::NoMatchingFile) => {}
        _ => panic!("expected NoMatchingFile"),
    }
}

#[test]
fn find_directories_by_name_and_sub_path() {
    let ix = sample();
    let hits = ix.find_directories(Some(&b("img")), None, false);
    assert_eq!(hits.len(), 1);
    assert_eq!(hits[0].path, b("/r/docs/img"));

    let hits = ix.find_directories(None, Some(&b("docs")), false);
    assert_eq!(hits.len(), 2);
}

#[test]
fn rename_round_trips_through_find_file() {
    let mut ix = sample();
    let (old_path, new_path) = ix
        .plan_rename_file(&b("entry.rs"), Some(&b("main")), None, None)
        .unwrap();
    assert_eq!(old_path, b("/r/src/main.rs"));
    assert_eq!(new_path, b("/r/src/entry.rs"));
    ix.apply_file_move(&old_path, &new_path);

    let renamed = ix.find_file(Some(&b("entry")), None, None).unwrap();
    assert_eq!(renamed.path, b("/r/src/entry.rs"));
    assert_eq!(renamed.name, b("entry"));
    assert_eq!(renamed.extension, b("rs"));
    assert_eq!(renamed.size, 10);

    match ix.find_file(Some(&b("main")), None, None) {
        Err(IndexError::NoMatchingFile) => {}
        _ => panic!("old name still found"),
    }
}

#[test]
fn rename_fails_without_a_parent_component() {
    let mut ix = DirectoryIndex::new(b("/r"), InclusionFilter::permissive());
    ix.record_file(b("stray"), 1);
    match ix.plan_rename_file(&b("new"), Some(&b("stray")), None, None) {
        Err(IndexError::MalformedPath) => {}
        _ => panic!("expected MalformedPath"),
    }
}

#[test]
fn create_file_plan_and_record() {
    let mut ix = DirectoryIndex::new(b("/r"), InclusionFilter::permissive());
    let (dir_path, file_path) = ix.plan_create_file(&b("out"), &b("result"), Some(&b("txt")));
    assert_eq!(dir_path, b("/r/out"));
    assert_eq!(file_path, b("/r/out/result.txt"));
    ix.record_file(file_path, 5);
    let found = ix.find_file(Some(&b("result")), None, None).unwrap();
    assert_eq!(found.path, b("/r/out/result.txt"));
    assert_eq!(found.size, 5);
    assert_eq!(ix.extensions, vec![b("txt")]);
}

#[test]
fn create_file_strips_leading_dots_from_the_extension() {
    let ix = DirectoryIndex::new(b("/r"), InclusionFilter::permissive());
    let (_, with_dot) = ix.plan_create_file(&b("out"), &b("a"), Some(&b(".txt")));
    assert_eq!(with_dot, b("/r/out/a.txt"));
    let (_, bare) = ix.plan_create_file(&b("out"), &b("a"), None);
    assert_eq!(bare, b("/r/out/a"));
}

#[test]
fn record_directory_is_idempotent_by_path() {
    let mut ix = DirectoryIndex::new(b("/r"), InclusionFilter::permissive());
    ix.record_directory(b("/r/out"));
    ix.record_directory(b("/r/out"));
    assert_eq!(ix.directories.len(), 1);
    assert_eq!(ix.directories[0].name, b("out"));
}

#[test]
fn remove_files_drops_records_and_orphaned_extensions() {
    let mut ix = sample();
    let gone = vec![b("/r/src/main.rs"), b("/r/src/lib.rs")];
    ix.remove_files(&gone);
    assert_eq!(ix.files.len(), 3);
    assert!(ix.find_files(None, None, Some(&b("rs")), false).is_empty());
    assert_eq!(ix.extensions, vec![b("md"), b("png")]);
}

#[test]
fn cascade_delete_removes_everything_beneath() {
    let mut ix = sample();
    let dirs_before = ix.directories.len();
    let files_before = ix.files.len();
    ix.remove_directories_cascade(&vec![b("/r/docs")]);
    // /r/docs held one subdirectory and two files: with the directory
    // itself, four records go.
    assert_eq!(ix.directories.len(), dirs_before - 2);
    assert_eq!(ix.files.len(), files_before - 2);
    assert!(ix.find_files(None, Some(&b("/r/docs")), None, false).is_empty());
    assert!(ix.find_directories(None, Some(&b("/r/docs")), false).is_empty());
    assert_eq!(ix.extensions, vec![b("rs")]);
}

#[test]
fn move_files_plan_renames_into_the_destination() {
    let ix = sample();
    let pairs = ix
        .plan_move_files(None, None, Some(&b("rs")), Some(&b("docs")), None, None)
        .unwrap();
    assert_eq!(pairs.len(), 2);
    assert_eq!(pairs[0].0, b("/r/src/lib.rs"));
    assert_eq!(pairs[0].1, b("/r/docs/lib.rs"));
    assert_eq!(pairs[1].0, b("/r/src/main.rs"));
    assert_eq!(pairs[1].1, b("/r/docs/main.rs"));
}

#[test]
fn move_files_with_no_destination_is_a_validation_failure() {
    let ix = sample();
    let before_files = ix.files.len();
    let before_dirs = ix.directories.len();
    match ix.plan_move_files(None, None, Some(&b("rs")), Some(&b("nowhere")), None, None) {
        Err(IndexError::DestinationNotUnique) => {}
        _ => panic!("expected DestinationNotUnique"),
    }
    assert_eq!(ix.files.len(), before_files);
    assert_eq!(ix.directories.len(), before_dirs);
}

#[test]
fn move_files_with_no_sources_is_a_no_op() {
    let ix = sample();
    let pairs = ix
        .plan_move_files(Some(&b("absent")), None, None, Some(&b("docs")), None, None)
        .unwrap();
    assert!(pairs.is_empty());
}

#[test]
fn move_file_applies_one_rename() {
    let mut ix = sample();
    let (old_path, new_path) = ix
        .plan_move_file(Some(&b("top")), None, None, Some(&b("src")), None)
        .unwrap();
    assert_eq!(old_path, b("/r/top"));
    assert_eq!(new_path, b("/r/src/top"));
    ix.apply_file_move(&old_path, &new_path);
    let moved = ix.find_file(Some(&b("top")), None, None).unwrap();
    assert_eq!(moved.path, b("/r/src/top"));
    assert_eq!(moved.size, 5);
}

#[test]
fn move_directory_rewrites_the_subtree_paths() {
    let mut ix = sample();
    ix.record_directory(b("/r/dest"));
    let pairs = ix
        .plan_move_directories(Some(&b("docs")), None, Some(&b("dest")), None)
        .unwrap();
    assert_eq!(pairs.len(), 1);
    assert_eq!(pairs[0].0, b("/r/docs"));
    assert_eq!(pairs[0].1, b("/r/dest/docs"));
    ix.apply_move_directory(&pairs[0].0, &pairs[0].1);

    let moved = ix.find_file(Some(&b("logo")), None, None).unwrap();
    assert_eq!(moved.path, b("/r/dest/docs/img/logo.png"));
    assert!(ix.find_files(None, Some(&b("/r/docs/")), None, false).is_empty());
    let img = ix.find_directories(Some(&b("img")), None, false);
    assert_eq!(img.len(), 1);
    assert_eq!(img[0].path, b("/r/dest/docs/img"));
    let root_doc = ix.find_directories(Some(&b("docs")), None, false);
    assert_eq!(root_doc.len(), 1);
    assert_eq!(root_doc[0].path, b("/r/dest/docs"));
}

#[test]
fn move_directory_leaves_similarly_prefixed_siblings_alone() {
    let mut ix = DirectoryIndex::new(b("/r"), InclusionFilter::permissive());
    let entries = vec![
        dir("/r/foo"),
        dir("/r/foobar"),
        file("/r/foo/x.txt", 1),
        file("/r/foobar/y.txt", 2),
        dir("/r/dest"),
    ];
    ix.populate(&entries);
    ix.apply_move_directory(&b("/r/foo"), &b("/r/dest/foo"));
    let untouched = ix.find_file(Some(&b("y")), None, None).unwrap();
    assert_eq!(untouched.path, b("/r/foobar/y.txt"));
    let moved = ix.find_file(Some(&b("x")), None, None).unwrap();
    assert_eq!(moved.path, b("/r/dest/foo/x.txt"));
}

#[test]
fn compare_to_is_the_symmetric_difference_of_file_paths() {
    let mut one = DirectoryIndex::new(b("/r"), InclusionFilter::permissive());
    one.populate(&vec![file("/r/a", 1), file("/r/b", 2)]);
    let mut two = DirectoryIndex::new(b("/r"), InclusionFilter::permissive());
    two.populate(&vec![file("/r/b", 2), file("/r/c", 3)]);
    let mut diff = one.compare_to(&two);
    diff.sort();
    assert_eq!(diff, vec![b("/r/a"), b("/r/c")]);
    assert!(one.compare_to(&one).is_empty());
}

#[test]
fn find_text_matches_skips_unreadable_files() {
    let ix = sample();
    let mut contents: Vec<Option<Vec<u8>>> = Vec::new();
    for f in ix.files.iter() {
        if f.extension == b("rs") {
            contents.push(Some(b("fn needle() {}")));
        } else if f.extension == b("md") {
            contents.push(None);
        } else {
            contents.push(Some(b("nothing here")));
        }
    }
    let hits = ix.find_text_matches(&contents, &b("needle"));
    assert_eq!(hits.len(), 2);
    assert_eq!(hits[0].extension, b("rs"));
    assert_eq!(hits[1].extension, b("rs"));
}

#[test]
fn render_tree_nests_children_under_their_parents() {
    let mut ix = DirectoryIndex::new(b("/r"), InclusionFilter::permissive());
    let entries = vec![
        dir("/r/a"),
        file("/r/a/x.md", 1),
        file("/r/top.txt", 2),
    ];
    ix.populate(&entries);
    let text = ix.render_tree();
    let expected = "r/\n  a/\n    x.md\n  top.txt\n";
    assert_eq!(String::from_utf8(text).unwrap(), expected);
}

#[test]
fn render_tree_drops_the_extension_dot_when_empty() {
    let mut ix = DirectoryIndex::new(b("/r"), InclusionFilter::permissive());
    ix.populate(&vec![file("/r/Makefile", 1)]);
    let text = ix.render_tree();
    assert_eq!(String::from_utf8(text).unwrap(), "r/\n  Makefile\n");
}

#[test]
fn find_directories_first_only_stops_at_the_first_match() {
    let ix = sample();
    let hits = ix.find_directories(None, Some(&b("docs")), true);
    assert_eq!(hits.len(), 1);
    assert_eq!(hits[0].path, b("/r/docs"));
}

#[test]
fn move_directories_with_no_sources_is_a_no_op() {
    let ix = sample();
    let pairs = ix
        .plan_move_directories(Some(&b("absent")), None, Some(&b("docs")), None)
        .unwrap();
    assert!(pairs.is_empty());
}

#[test]
fn move_file_without_a_match_is_a_validation_failure() {
    let ix = sample();
    match ix.plan_move_file(Some(&b("absent")), None, None, Some(&b("docs")), None) {
        Err(IndexError::NoMatchingFile) => {}
        _ => panic!("expected NoMatchingFile"),
    }
}

#[test]
fn compare_to_with_nothing_in_common_lists_everything() {
    let mut one = DirectoryIndex::new(b("/r"), InclusionFilter::permissive());
    one.populate(&vec![file("/r/a", 1)]);
    let two = DirectoryIndex::new(b("/r"), InclusionFilter::permissive());
    let diff = one.compare_to(&two);
    assert_eq!(diff, vec![b("/r/a")]);
}

#[test]
fn apply_file_move_without_the_old_path_changes_nothing() {
    let mut ix = sample();
    let before: Vec<Vec<u8>> = ix.files.iter().map(|f| f.path.clone()).collect();
    ix.apply_file_move(&b("/r/absent"), &b("/r/elsewhere"));
    let after: Vec<Vec<u8>> = ix.files.iter().map(|f| f.path.clone()).collect();
    assert_eq!(before, after);
}

#[test]
fn record_file_reuses_a_known_extension() {
    let mut ix = sample();
    ix.record_file(b("/r/new.rs"), 9);
    assert_eq!(ix.extensions, vec![b("md"), b("png"), b("rs")]);
    ix.record_file(b("/r/new.zz"), 9);
    assert_eq!(ix.extensions, vec![b("md"), b("png"), b("rs"), b("zz")]);
}
