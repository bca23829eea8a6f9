//! The directory index: flat, path-keyed collections of file and
//! directory records beneath a canonical root, plus the registry of
//! extensions seen.
//!
//! Population filters a walk's entries through the [`InclusionFilter`]
//! and leaves both collections sorted by path. Queries are pure reads.
//! Mutations come in two halves: a `plan_*` function that resolves
//! targets and computes the filesystem operation to perform, and an
//! `apply_*`/`record_*`/`remove_*` function that updates the collections
//! once the caller has carried that operation out on disk — the
//! filesystem moves first, the index second, and a failed filesystem
//! call leaves the index untouched.

use vstd::prelude::*;

use crate::entries::{DirectoryEntry, DirView, FileEntry, FileView, RawEntry, RawView};
use crate::filter::{accepted, seq_views, set_has, FilterView, InclusionFilter};
use crate::paths::{basename, has_parent, join, join_seq, parent_dir, parent_of, subvec};
use crate::paths::{
    basename_of, contains_seq, contains_sub, eq_bytes, is_strict_under, is_under, le_bytes,
    lemma_lex_total, lemma_lex_trans, lex_le, under_strict,
};
use crate::sorting::{
    dir_views, dpaths, file_views, fpaths, lex_lt, sort_dirs, sort_files, sorted_seqs,
    sorted_strict,
};

verus! {

broadcast use vstd::seq_lib::group_to_multiset_ensures;

/// The mathematical values of a walk's entries.
pub open spec fn raw_views(s: Seq<RawEntry>) -> Seq<RawView> {
    s.map_values(|e: RawEntry| e@)
}

/// The mathematical value of a [`DirectoryIndex`].
pub ghost struct IndexView {
    pub directories: Seq<DirView>,
    pub files: Seq<FileView>,
    pub extensions: Seq<Seq<u8>>,
    pub root_path: Seq<u8>,
    pub filter: FilterView,
}

impl IndexView {
    /// The extension registry holds exactly the non-empty extensions of
    /// the indexed files, each once, in lexicographic order.
    pub open spec fn registry_ok(self) -> bool {
        &&& sorted_strict(self.extensions)
        &&& forall|x: Seq<u8>|
            self.extensions.contains(x) <==> (x.len() > 0 && exists|i: int|
                0 <= i < self.files.len() && #[trigger] self.files[i].extension == x)
    }

    /// Every record's derived fields agree with its path, and the
    /// registry is consistent with the files.
    pub open spec fn wf(self) -> bool {
        &&& forall|i: int| 0 <= i < self.files.len() ==> (#[trigger] self.files[i]).wf()
        &&& forall|i: int|
            0 <= i < self.directories.len() ==> (#[trigger] self.directories[i]).wf()
        &&& self.registry_ok()
    }
}

/// Whether a walk entry is recorded as a directory: it is a directory
/// strictly beneath the root and the filter accepts it.
pub open spec fn records_dir(e: RawView, root: Seq<u8>, f: FilterView) -> bool {
    e.is_dir && is_strict_under(e.path, root) && accepted(f, root, e.path, true)
}

/// Whether a walk entry is recorded as a file: it is a file strictly
/// beneath the root and the filter accepts it.
pub open spec fn records_file(e: RawView, root: Seq<u8>, f: FilterView) -> bool {
    !e.is_dir && is_strict_under(e.path, root) && accepted(f, root, e.path, false)
}

/// The directory records a walk yields, in walk order.
pub open spec fn dirs_of(entries: Seq<RawView>, root: Seq<u8>, f: FilterView) -> Seq<DirView>
    decreases entries.len(),
{
    if entries.len() == 0 {
        Seq::empty()
    } else {
        let rest = dirs_of(entries.drop_last(), root, f);
        let e = entries.last();
        if records_dir(e, root, f) {
            rest.push(DirView { path: e.path, name: basename_of(e.path) })
        } else {
            rest
        }
    }
}

/// The file records a walk yields, in walk order.
pub open spec fn files_of(entries: Seq<RawView>, root: Seq<u8>, f: FilterView) -> Seq<FileView>
    decreases entries.len(),
{
    if entries.len() == 0 {
        Seq::empty()
    } else {
        let rest = files_of(entries.drop_last(), root, f);
        let e = entries.last();
        if records_file(e, root, f) {
            rest.push(
                FileView {
                    path: e.path,
                    name: crate::paths::file_stem_of(e.path),
                    extension: crate::paths::file_ext_of(e.path),
                    size: e.size,
                },
            )
        } else {
            rest
        }
    }
}

/// Inserts `x` into a strictly sorted list of byte strings, keeping it
/// strictly sorted; present strings stay single.
fn insert_sorted(exts: &mut Vec<Vec<u8>>, x: &Vec<u8>)
    requires
        sorted_strict(seq_views(old(exts)@)),
    ensures
        sorted_strict(seq_views(final(exts)@)),
        forall|y: Seq<u8>|
            seq_views(final(exts)@).contains(y) <==> (seq_views(old(exts)@).contains(y) || y
                == x@),
{
    let ghost pre = exts@;
    let mut i: usize = 0;
    while i < exts.len() && le_bytes(exts[i].as_slice(), x.as_slice()) && !eq_bytes(
        exts[i].as_slice(),
        x.as_slice(),
    )
        invariant
            i <= exts@.len(),
            exts@ == pre,
            forall|j: int| 0 <= j < i ==> lex_lt(#[trigger] seq_views(pre)[j], x@),
        decreases exts@.len() - i,
    {
        proof {
            assert(seq_views(pre)[i as int] == pre[i as int]@);
        }
        i = i + 1;
    }
    if i < exts.len() && eq_bytes(exts[i].as_slice(), x.as_slice()) {
        proof {
            assert(seq_views(pre)[i as int] == x@);
            assert(seq_views(pre).contains(x@));
        }
        return ;
    }
    proof {
        if i < exts@.len() {
            assert(seq_views(pre)[i as int] == pre[i as int]@);
            lemma_lex_total(pre[i as int]@, x@);
            assert(lex_lt(x@, seq_views(pre)[i as int]));
        }
    }
    let xc = x.clone();
    proof {
        assert(xc@ =~= x@);
    }
    exts.insert(i, xc);
    proof {
        let new = seq_views(exts@);
        let old_s = seq_views(pre);
        assert(exts@ == pre.insert(i as int, xc));
        pre.insert_ensures(i as int, xc);
        assert forall|j: int| 0 <= j < new.len() implies new[j] == (if j < i {
            old_s[j]
        } else if j == i {
            x@
        } else {
            old_s[j - 1]
        }) by {
            assert(new[j] == exts@[j]@);
            if j < i {
                assert(exts@[j] == pre[j]);
                assert(old_s[j] == pre[j]@);
            } else if j > i {
                assert(exts@[j] == pre[j - 1]);
                assert(old_s[j - 1] == pre[j - 1]@);
            }
        }
        assert forall|a: int, b: int| 0 <= a < b < new.len() implies lex_lt(new[a], new[b]) by {
            if a < i && b < i {
            } else if a < i && b == i {
                assert(lex_lt(new[a], x@));
            } else if a < i && b > i {
                assert(lex_lt(old_s[a], old_s[b - 1]));
            } else if a == i && b > i {
                if b - 1 == i {
                    assert(lex_lt(x@, old_s[i as int]));
                } else {
                    assert(lex_lt(old_s[i as int], old_s[b - 1]));
                    assert(lex_lt(x@, old_s[i as int]));
                    lemma_lex_trans(x@, old_s[i as int], old_s[b - 1]);
                    assert(lex_le(x@, old_s[b - 1]));
                    if x@ == old_s[b - 1] {
                        crate::paths::lemma_lex_antisym(old_s[i as int], old_s[b - 1]);
                    }
                }
            } else {
                assert(lex_lt(old_s[a - 1], old_s[b - 1]));
            }
        }
        assert forall|y: Seq<u8>|
            new.contains(y) <==> (old_s.contains(y) || y == x@) by {
            if new.contains(y) {
                let k = choose|k: int| 0 <= k < new.len() && new[k] == y;
                if k < i {
                    assert(old_s[k] == y);
                    assert(old_s.contains(y));
                } else if k > i {
                    assert(old_s[k - 1] == y);
                    assert(old_s.contains(y));
                }
            }
            if old_s.contains(y) {
                let k = choose|k: int| 0 <= k < old_s.len() && old_s[k] == y;
                if k < i {
                    assert(new[k] == y);
                } else {
                    assert(new[k + 1] == y);
                }
                assert(new.contains(y));
            }
            if y == x@ {
                assert(new[i as int] == y);
                assert(new.contains(y));
            }
        }
    }
}

/// The registry for a file collection: every non-empty extension, once,
/// in lexicographic order.
fn collect_extensions(files: &Vec<FileEntry>) -> (r: Vec<Vec<u8>>)
    ensures
        sorted_strict(seq_views(r@)),
        forall|x: Seq<u8>|
            seq_views(r@).contains(x) <==> (x.len() > 0 && exists|i: int|
                0 <= i < file_views(files@).len() && #[trigger] file_views(
                    files@,
                )[i].extension == x),
{
    let mut out: Vec<Vec<u8>> = Vec::new();
    let mut i: usize = 0;
    proof {
        assert(seq_views(out@) =~= Seq::<Seq<u8>>::empty());
    }
    while i < files.len()
        invariant
            i <= files@.len(),
            sorted_strict(seq_views(out@)),
            forall|x: Seq<u8>|
                seq_views(out@).contains(x) <==> (x.len() > 0 && exists|j: int|
                    0 <= j < i && #[trigger] file_views(files@)[j].extension == x),
        decreases files@.len() - i,
    {
        let ghost out_pre = out@;
        if files[i].extension.len() > 0 {
            insert_sorted(&mut out, &files[i].extension);
        }
        proof {
            assert(file_views(files@)[i as int].extension == files@[i as int]@.extension);
            assert forall|x: Seq<u8>|
                seq_views(out@).contains(x) <==> (x.len() > 0 && exists|j: int|
                    0 <= j < i + 1 && #[trigger] file_views(files@)[j].extension == x) by {
                if seq_views(out@).contains(x) {
                    if seq_views(out_pre).contains(x) {
                    } else {
                        assert(x == files@[i as int]@.extension);
                        assert(file_views(files@)[i as int].extension == x);
                    }
                }
                if x.len() > 0 && exists|j: int|
                    0 <= j < i + 1 && #[trigger] file_views(files@)[j].extension == x {
                    let j = choose|j: int|
                        0 <= j < i + 1 && #[trigger] file_views(files@)[j].extension == x;
                    if j < i {
                        assert(seq_views(out_pre).contains(x));
                    } else {
                        assert(files@[i as int]@.extension == x);
                        assert(files@[i as int].extension@.len() > 0);
                    }
                }
            }
        }
        i = i + 1;
    }
    out
}

/// The in-memory index of one directory subtree.
pub struct DirectoryIndex {
    pub directories: Vec<DirectoryEntry>,
    pub files: Vec<FileEntry>,
    pub extensions: Vec<Vec<u8>>,
    pub root_path: Vec<u8>,
    pub filter: InclusionFilter,
}

impl View for DirectoryIndex {
    type V = IndexView;

    open spec fn view(&self) -> IndexView {
        IndexView {
            directories: dir_views(self.directories@),
            files: file_views(self.files@),
            extensions: seq_views(self.extensions@),
            root_path: self.root_path@,
            filter: self.filter@,
        }
    }
}

impl DirectoryIndex {
    /// An empty index over the canonical root `root_path`. The caller
    /// populates it with the entries of a walk.
    pub fn new(root_path: Vec<u8>, filter: InclusionFilter) -> (r: DirectoryIndex)
        ensures
            r@.root_path == root_path@,
            r@.filter == filter@,
            r@.directories.len() == 0,
            r@.files.len() == 0,
            r@.extensions.len() == 0,
            r@.wf(),
    {
        let r = DirectoryIndex {
            directories: Vec::new(),
            files: Vec::new(),
            extensions: Vec::new(),
            root_path,
            filter,
        };
        proof {
            assert(dir_views(r.directories@) =~= Seq::<DirView>::empty());
            assert(file_views(r.files@) =~= Seq::<FileView>::empty());
            assert(seq_views(r.extensions@) =~= Seq::<Seq<u8>>::empty());
        }
        r
    }

    /// Replaces the collections with what a walk's entries yield: each
    /// entry strictly beneath the root that the filter accepts becomes a
    /// record, directories and files are sorted by path, and the
    /// extension registry is rebuilt. The root itself and entries
    /// outside it are never recorded.
    pub fn populate(&mut self, entries: &Vec<RawEntry>)
        ensures
            final(self)@.root_path == old(self)@.root_path,
            final(self)@.filter == old(self)@.filter,
            final(self)@.wf(),
            sorted_seqs(dpaths(final(self)@.directories)),
            sorted_seqs(fpaths(final(self)@.files)),
            final(self)@.directories.to_multiset() == dirs_of(
                raw_views(entries@),
                old(self)@.root_path,
                old(self)@.filter,
            ).to_multiset(),
            final(self)@.files.to_multiset() == files_of(
                raw_views(entries@),
                old(self)@.root_path,
                old(self)@.filter,
            ).to_multiset(),
            dpaths(final(self)@.directories).to_multiset() == dpaths(
                dirs_of(raw_views(entries@), old(self)@.root_path, old(self)@.filter),
            ).to_multiset(),
            fpaths(final(self)@.files).to_multiset() == fpaths(
                files_of(raw_views(entries@), old(self)@.root_path, old(self)@.filter),
            ).to_multiset(),
    {
        let ghost root = self.root_path@;
        let ghost f = self.filter@;
        let ghost all = raw_views(entries@);
        let mut dirs: Vec<DirectoryEntry> = Vec::new();
        let mut files: Vec<FileEntry> = Vec::new();
        let mut i: usize = 0;
        proof {
            assert(all.take(0) =~= Seq::<RawView>::empty());
            assert(dir_views(dirs@) =~= Seq::<DirView>::empty());
            assert(file_views(files@) =~= Seq::<FileView>::empty());
        }
        while i < entries.len()
            invariant
                i <= entries@.len(),
                all == raw_views(entries@),
                root == self.root_path@,
                f == self.filter@,
                dir_views(dirs@) == dirs_of(all.take(i as int), root, f),
                file_views(files@) == files_of(all.take(i as int), root, f),
            decreases entries@.len() - i,
        {
            let ghost dirs_pre = dirs@;
            let ghost files_pre = files@;
            let e = &entries[i];
            let under = under_strict(e.path.as_slice(), self.root_path.as_slice());
            if under && e.is_dir {
                if self.filter.accepts(self.root_path.as_slice(), e.path.as_slice(), true) {
                    let p = e.path.clone();
                    proof {
                        assert(p@ =~= e.path@);
                    }
                    dirs.push(DirectoryEntry::new(p));
                }
            } else if under {
                if self.filter.accepts(self.root_path.as_slice(), e.path.as_slice(), false) {
                    let p = e.path.clone();
                    proof {
                        assert(p@ =~= e.path@);
                    }
                    files.push(FileEntry::new(p, e.size));
                }
            }
            proof {
                let now = all.take(i + 1);
                assert(now.drop_last() =~= all.take(i as int));
                assert(now.last() == all[i as int]);
                assert(all[i as int] == entries@[i as int]@);
                if records_dir(all[i as int], root, f) {
                    assert(dir_views(dirs@) =~= dir_views(dirs_pre).push(
                        dirs@.last()@,
                    ));
                    assert(dirs@.last()@ == DirView {
                        path: all[i as int].path,
                        name: basename_of(all[i as int].path),
                    });
                } else {
                    assert(dirs@ == dirs_pre);
                }
                if records_file(all[i as int], root, f) {
                    assert(file_views(files@) =~= file_views(files_pre).push(
                        files@.last()@,
                    ));
                    assert(files@.last()@ == FileView {
                        path: all[i as int].path,
                        name: crate::paths::file_stem_of(all[i as int].path),
                        extension: crate::paths::file_ext_of(all[i as int].path),
                        size: all[i as int].size,
                    });
                } else {
                    assert(files@ == files_pre);
                }
                assert(dir_views(dirs@) == dirs_of(now, root, f));
                assert(file_views(files@) == files_of(now, root, f));
            }
            i = i + 1;
        }
        proof {
            assert(all.take(entries@.len() as int) =~= all);
        }
        let dirs = sort_dirs(dirs);
        let files = sort_files(files);
        let exts = collect_extensions(&files);
        proof {
            assert forall|k: int| 0 <= k < file_views(files@).len() implies (#[trigger]
            file_views(files@)[k]).wf() by {
                assert(file_views(files@).contains(file_views(files@)[k]));
                assert(file_views(files@).to_multiset().count(file_views(files@)[k]) > 0);
                assert(files_of(all, root, f).to_multiset().count(file_views(files@)[k]) > 0);
                assert(files_of(all, root, f).contains(file_views(files@)[k]));
                lemma_files_of_wf(all, root, f);
            }
            assert forall|k: int| 0 <= k < dir_views(dirs@).len() implies (#[trigger]
            dir_views(dirs@)[k]).wf() by {
                assert(dir_views(dirs@).contains(dir_views(dirs@)[k]));
                assert(dir_views(dirs@).to_multiset().count(dir_views(dirs@)[k]) > 0);
                assert(dirs_of(all, root, f).to_multiset().count(dir_views(dirs@)[k]) > 0);
                assert(dirs_of(all, root, f).contains(dir_views(dirs@)[k]));
                lemma_dirs_of_wf(all, root, f);
            }
        }
        self.directories = dirs;
        self.files = files;
        self.extensions = exts;
        proof {
            assert forall|x: Seq<u8>| #[trigger]
                self@.extensions.contains(x) implies x.len() > 0 && (exists|i: int|
                0 <= i < self@.files.len() && #[trigger] self@.files[i].extension == x) by {
                assert(seq_views(self.extensions@).contains(x));
                let i = choose|i: int|
                    0 <= i < file_views(self.files@).len() && #[trigger] file_views(
                        self.files@,
                    )[i].extension == x;
                assert(self@.files[i].extension == x);
            }
            assert forall|x: Seq<u8>|
                x.len() > 0 && (exists|i: int|
                    0 <= i < self@.files.len() && #[trigger] self@.files[i].extension
                        == x) implies #[trigger] self@.extensions.contains(x) by {
                let i = choose|i: int|
                    0 <= i < self@.files.len() && self@.files[i].extension == x;
                assert(file_views(self.files@)[i].extension == x);
                assert(seq_views(self.extensions@).contains(x));
            }
        }
    }
}

/// Every record `files_of` yields has its fields derived from its path.
pub proof fn lemma_files_of_wf(entries: Seq<RawView>, root: Seq<u8>, f: FilterView)
    ensures
        forall|k: int|
            0 <= k < files_of(entries, root, f).len() ==> (#[trigger] files_of(
                entries,
                root,
                f,
            )[k]).wf(),
    decreases entries.len(),
{
    if entries.len() > 0 {
        lemma_files_of_wf(entries.drop_last(), root, f);
        let rest = files_of(entries.drop_last(), root, f);
        let whole = files_of(entries, root, f);
        assert forall|k: int| 0 <= k < whole.len() implies (#[trigger] whole[k]).wf() by {
            if k < rest.len() {
                assert(whole[k] == rest[k]);
            }
        }
    }
}

/// Every record `dirs_of` yields has its name derived from its path.
pub proof fn lemma_dirs_of_wf(entries: Seq<RawView>, root: Seq<u8>, f: FilterView)
    ensures
        forall|k: int|
            0 <= k < dirs_of(entries, root, f).len() ==> (#[trigger] dirs_of(
                entries,
                root,
                f,
            )[k]).wf(),
    decreases entries.len(),
{
    if entries.len() > 0 {
        lemma_dirs_of_wf(entries.drop_last(), root, f);
        let rest = dirs_of(entries.drop_last(), root, f);
        let whole = dirs_of(entries, root, f);
        assert forall|k: int| 0 <= k < whole.len() implies (#[trigger] whole[k]).wf() by {
            if k < rest.len() {
                assert(whole[k] == rest[k]);
            }
        }
    }
}

/// A failure surfaced by a query or a mutation plan: the validation
/// failures of the index itself, as distinct from the filesystem errors
/// the caller meets when carrying a plan out.
#[derive(Clone, Copy, Debug, PartialEq, Eq, Structural)]
pub enum IndexError {
    /// A lookup that had to yield exactly one file found none.
    NoMatchingFile,
    /// A destination lookup found no directory or more than one.
    DestinationNotUnique,
    /// A path without the component the operation needs.
    MalformedPath,
}

/// The constraints of a file query, spec side: each given constraint
/// must hold, absent ones always match.
pub open spec fn file_matches(
    fv: FileView,
    name: Option<Seq<u8>>,
    sub_path: Option<Seq<u8>>,
    extension: Option<Seq<u8>>,
) -> bool {
    &&& (name is Some ==> fv.name == name.unwrap())
    &&& (sub_path is Some ==> contains_seq(fv.path, sub_path.unwrap()))
    &&& (extension is Some ==> fv.extension == extension.unwrap())
}

/// The constraints of a directory query, spec side.
pub open spec fn dir_matches(dv: DirView, name: Option<Seq<u8>>, sub_path: Option<Seq<u8>>) -> bool {
    &&& (name is Some ==> dv.name == name.unwrap())
    &&& (sub_path is Some ==> contains_seq(dv.path, sub_path.unwrap()))
}

/// The mathematical value of an optional byte-string argument.
pub open spec fn opt_view(o: Option<&Vec<u8>>) -> Option<Seq<u8>> {
    match o {
        Some(v) => Some(v@),
        None => None,
    }
}

/// The files of `files` that satisfy the query, in index order.
pub open spec fn matching_files(
    files: Seq<FileView>,
    name: Option<Seq<u8>>,
    sub_path: Option<Seq<u8>>,
    extension: Option<Seq<u8>>,
) -> Seq<FileView> {
    files.filter(|fv: FileView| file_matches(fv, name, sub_path, extension))
}

/// The directories of `dirs` that satisfy the query, in index order.
pub open spec fn matching_dirs(
    dirs: Seq<DirView>,
    name: Option<Seq<u8>>,
    sub_path: Option<Seq<u8>>,
) -> Seq<DirView> {
    dirs.filter(|dv: DirView| dir_matches(dv, name, sub_path))
}

/// Whether the file query has a match, satisfied first at index `k`.
pub open spec fn first_file_match_at(
    files: Seq<FileView>,
    name: Option<Seq<u8>>,
    sub_path: Option<Seq<u8>>,
    extension: Option<Seq<u8>>,
    k: int,
) -> bool {
    &&& 0 <= k < files.len()
    &&& file_matches(files[k], name, sub_path, extension)
    &&& forall|j: int| 0 <= j < k ==> !file_matches(#[trigger] files[j], name, sub_path, extension)
}

/// Whether the directory query has a match, satisfied first at index `k`.
pub open spec fn first_dir_match_at(
    dirs: Seq<DirView>,
    name: Option<Seq<u8>>,
    sub_path: Option<Seq<u8>>,
    k: int,
) -> bool {
    &&& 0 <= k < dirs.len()
    &&& dir_matches(dirs[k], name, sub_path)
    &&& forall|j: int| 0 <= j < k ==> !dir_matches(#[trigger] dirs[j], name, sub_path)
}

/// Whether the file record satisfies the query.
fn entry_matches(
    f: &FileEntry,
    name: Option<&Vec<u8>>,
    sub_path: Option<&Vec<u8>>,
    extension: Option<&Vec<u8>>,
) -> (r: bool)
    ensures
        r == file_matches(f@, opt_view(name), opt_view(sub_path), opt_view(extension)),
{
    let name_ok = match name {
        Some(n) => eq_bytes(f.name.as_slice(), n.as_slice()),
        None => true,
    };
    let sub_ok = match sub_path {
        Some(sp) => contains_sub(f.path.as_slice(), sp.as_slice()),
        None => true,
    };
    let ext_ok = match extension {
        Some(e) => eq_bytes(f.extension.as_slice(), e.as_slice()),
        None => true,
    };
    name_ok && sub_ok && ext_ok
}

/// Whether the directory record satisfies the query.
fn dir_entry_matches(d: &DirectoryEntry, name: Option<&Vec<u8>>, sub_path: Option<&Vec<u8>>) -> (r:
    bool)
    ensures
        r == dir_matches(d@, opt_view(name), opt_view(sub_path)),
{
    let name_ok = match name {
        Some(n) => eq_bytes(d.name.as_slice(), n.as_slice()),
        None => true,
    };
    let sub_ok = match sub_path {
        Some(sp) => contains_sub(d.path.as_slice(), sp.as_slice()),
        None => true,
    };
    name_ok && sub_ok
}

impl DirectoryIndex {
    /// The files satisfying all the given constraints, in index order;
    /// with `first_only`, at most the first of them.
    pub fn find_files(
        &self,
        name: Option<&Vec<u8>>,
        sub_path: Option<&Vec<u8>>,
        extension: Option<&Vec<u8>>,
        first_only: bool,
    ) -> (r: Vec<FileEntry>)
        ensures
            !first_only ==> file_views(r@) == matching_files(
                self@.files,
                opt_view(name),
                opt_view(sub_path),
                opt_view(extension),
            ),
            first_only && (forall|k: int|
                0 <= k < self@.files.len() ==> !file_matches(
                    #[trigger] self@.files[k],
                    opt_view(name),
                    opt_view(sub_path),
                    opt_view(extension),
                )) ==> r@.len() == 0,
            first_only ==> forall|k: int|
                #[trigger] first_file_match_at(
                    self@.files,
                    opt_view(name),
                    opt_view(sub_path),
                    opt_view(extension),
                    k,
                ) ==> file_views(r@) == seq![self@.files[k]],
    {
        let ghost nv = opt_view(name);
        let ghost sv = opt_view(sub_path);
        let ghost ev = opt_view(extension);
        if first_only {
            let mut r: Vec<FileEntry> = Vec::new();
            match self.find_file(name, sub_path, extension) {
                Ok(f) => {
                    r.push(f);
                    proof {
                        let k0 = choose|k0: int| #[trigger]
                            first_file_match_at(self@.files, nv, sv, ev, k0) && r@[0]@
                                == self@.files[k0];
                        assert(file_views(r@) =~= seq![self@.files[k0]]);
                        assert forall|k: int| #[trigger]
                            first_file_match_at(self@.files, nv, sv, ev, k) implies file_views(
                            r@,
                        ) == seq![self@.files[k]] by {
                            if k < k0 {
                                assert(!file_matches(self@.files[k], nv, sv, ev));
                            }
                            if k > k0 {
                                assert(!file_matches(self@.files[k0], nv, sv, ev));
                            }
                        }
                    }
                },
                Err(_) => {
                    proof {
                        assert forall|k: int| #[trigger]
                            first_file_match_at(self@.files, nv, sv, ev, k) implies file_views(
                            r@,
                        ) == seq![self@.files[k]] by {
                            assert(file_matches(self@.files[k], nv, sv, ev));
                        }
                    }
                },
            }
            return r;
        }
        let mut r: Vec<FileEntry> = Vec::new();
        let mut i: usize = 0;
        proof {
            reveal(Seq::filter);
            assert(self@.files.take(0) =~= Seq::<FileView>::empty());
            assert(file_views(r@) =~= Seq::<FileView>::empty());
            assert(matching_files(self@.files.take(0), nv, sv, ev) =~= Seq::<FileView>::empty());
        }
        while i < self.files.len()
            invariant
                i <= self@.files.len(),
                self@.files.len() == self.files@.len(),
                nv == opt_view(name),
                sv == opt_view(sub_path),
                ev == opt_view(extension),
                file_views(r@) == matching_files(self@.files.take(i as int), nv, sv, ev),
            decreases self@.files.len() - i,
        {
            let ghost r_pre = r@;
            if entry_matches(&self.files[i], name, sub_path, extension) {
                r.push(self.files[i].clone());
            }
            proof {
                reveal(Seq::filter);
                let now = self@.files.take(i + 1);
                assert(now.drop_last() =~= self@.files.take(i as int));
                assert(now.last() == self@.files[i as int]);
                if file_matches(self@.files[i as int], nv, sv, ev) {
                    assert(file_views(r@) =~= file_views(r_pre).push(self@.files[i as int]));
                } else {
                    assert(file_views(r@) == file_views(r_pre));
                }
                assert(file_views(r@) == matching_files(now, nv, sv, ev));
            }
            i = i + 1;
        }
        proof {
            assert(self@.files.take(self@.files.len() as int) =~= self@.files);
        }
        r
    }

    /// The single file satisfying the constraints, in index order the
    /// first; `NoMatchingFile` when none does.
    pub fn find_file(
        &self,
        name: Option<&Vec<u8>>,
        sub_path: Option<&Vec<u8>>,
        extension: Option<&Vec<u8>>,
    ) -> (r: Result<FileEntry, IndexError>)
        ensures
            match r {
                Ok(f) => exists|k: int|
                    #[trigger] first_file_match_at(
                        self@.files,
                        opt_view(name),
                        opt_view(sub_path),
                        opt_view(extension),
                        k,
                    ) && f@ == self@.files[k],
                Err(e) => e == IndexError::NoMatchingFile && forall|k: int|
                    0 <= k < self@.files.len() ==> !file_matches(
                        #[trigger] self@.files[k],
                        opt_view(name),
                        opt_view(sub_path),
                        opt_view(extension),
                    ),
            },
    {
        let ghost nv = opt_view(name);
        let ghost sv = opt_view(sub_path);
        let ghost ev = opt_view(extension);
        let mut i: usize = 0;
        while i < self.files.len()
            invariant
                i <= self@.files.len(),
                self@.files.len() == self.files@.len(),
                nv == opt_view(name),
                sv == opt_view(sub_path),
                ev == opt_view(extension),
                forall|j: int| 0 <= j < i ==> !file_matches(#[trigger] self@.files[j], nv, sv, ev),
            decreases self@.files.len() - i,
        {
            if entry_matches(&self.files[i], name, sub_path, extension) {
                let found = self.files[i].clone();
                proof {
                    assert(first_file_match_at(self@.files, nv, sv, ev, i as int));
                }
                return Ok(found);
            }
            i = i + 1;
        }
        Err(IndexError::NoMatchingFile)
    }

    /// The directories satisfying all the given constraints, in index
    /// order; with `first_only`, at most the first of them.
    pub fn find_directories(
        &self,
        name: Option<&Vec<u8>>,
        sub_path: Option<&Vec<u8>>,
        first_only: bool,
    ) -> (r: Vec<DirectoryEntry>)
        ensures
            !first_only ==> dir_views(r@) == matching_dirs(
                self@.directories,
                opt_view(name),
                opt_view(sub_path),
            ),
            first_only && (forall|k: int|
                0 <= k < self@.directories.len() ==> !dir_matches(
                    #[trigger] self@.directories[k],
                    opt_view(name),
                    opt_view(sub_path),
                )) ==> r@.len() == 0,
            first_only ==> forall|k: int|
                #[trigger] first_dir_match_at(
                    self@.directories,
                    opt_view(name),
                    opt_view(sub_path),
                    k,
                ) ==> dir_views(r@) == seq![self@.directories[k]],
    {
        let ghost nv = opt_view(name);
        let ghost sv = opt_view(sub_path);
        if first_only {
            let mut r: Vec<DirectoryEntry> = Vec::new();
            let mut i: usize = 0;
            while i < self.directories.len()
                invariant
                    first_only,
                    i <= self@.directories.len(),
                    self@.directories.len() == self.directories@.len(),
                    nv == opt_view(name),
                    sv == opt_view(sub_path),
                    r@.len() == 0,
                    forall|j: int|
                        0 <= j < i ==> !dir_matches(#[trigger] self@.directories[j], nv, sv),
                decreases self@.directories.len() - i,
            {
                if dir_entry_matches(&self.directories[i], name, sub_path) {
                    r.push(self.directories[i].clone());
                    proof {
                        assert(dir_views(r@) =~= seq![self@.directories[i as int]]);
                        assert(first_dir_match_at(self@.directories, nv, sv, i as int));
                        assert forall|k: int| #[trigger]
                            first_dir_match_at(self@.directories, nv, sv, k) implies dir_views(
                            r@,
                        ) == seq![self@.directories[k]] by {
                            if k < i {
                                assert(dir_matches(self@.directories[k], nv, sv));
                            }
                            if k > i {
                                assert(!dir_matches(self@.directories[i as int], nv, sv));
                            }
                        }
                    }
                    return r;
                }
                i = i + 1;
            }
            proof {
                assert forall|k: int| #[trigger]
                    first_dir_match_at(self@.directories, nv, sv, k) implies dir_views(r@)
                    == seq![self@.directories[k]] by {
                    assert(dir_matches(self@.directories[k], nv, sv));
                }
            }
            return r;
        }
        let mut r: Vec<DirectoryEntry> = Vec::new();
        let mut i: usize = 0;
        proof {
            reveal(Seq::filter);
            assert(self@.directories.take(0) =~= Seq::<DirView>::empty());
            assert(dir_views(r@) =~= Seq::<DirView>::empty());
            assert(matching_dirs(self@.directories.take(0), nv, sv) =~= Seq::<DirView>::empty());
        }
        while i < self.directories.len()
            invariant
                i <= self@.directories.len(),
                self@.directories.len() == self.directories@.len(),
                nv == opt_view(name),
                sv == opt_view(sub_path),
                dir_views(r@) == matching_dirs(self@.directories.take(i as int), nv, sv),
            decreases self@.directories.len() - i,
        {
            let ghost r_pre = r@;
            if dir_entry_matches(&self.directories[i], name, sub_path) {
                r.push(self.directories[i].clone());
            }
            proof {
                reveal(Seq::filter);
                let now = self@.directories.take(i + 1);
                assert(now.drop_last() =~= self@.directories.take(i as int));
                assert(now.last() == self@.directories[i as int]);
                if dir_matches(self@.directories[i as int], nv, sv) {
                    assert(dir_views(r@) =~= dir_views(r_pre).push(self@.directories[i as int]));
                } else {
                    assert(dir_views(r@) == dir_views(r_pre));
                }
                assert(dir_views(r@) == matching_dirs(now, nv, sv));
            }
            i = i + 1;
        }
        proof {
            assert(self@.directories.take(self@.directories.len() as int) =~= self@.directories);
        }
        r
    }

    /// Whether some indexed file has exactly the path `p`.
    pub fn has_file_path(&self, p: &[u8]) -> (r: bool)
        ensures
            r == exists|i: int| 0 <= i < self@.files.len() && (#[trigger] self@.files[i]).path == p@,
    {
        let mut i: usize = 0;
        while i < self.files.len()
            invariant
                i <= self@.files.len(),
                self@.files.len() == self.files@.len(),
                forall|j: int| 0 <= j < i ==> (#[trigger] self@.files[j]).path != p@,
            decreases self@.files.len() - i,
        {
            if eq_bytes(self.files[i].path.as_slice(), p) {
                proof {
                    assert(self@.files[i as int].path == p@);
                }
                return true;
            }
            i = i + 1;
        }
        false
    }

    /// The symmetric difference of two indexes by file path: every path
    /// indexed by exactly one of the two.
    pub fn compare_to(&self, other: &DirectoryIndex) -> (r: Vec<Vec<u8>>)
        ensures
            forall|x: Seq<u8>|
                #[trigger] seq_views(r@).contains(x) <==> ((exists|i: int|
                    0 <= i < self@.files.len() && (#[trigger] self@.files[i]).path == x) != (
                exists|i: int|
                    0 <= i < other@.files.len() && (#[trigger] other@.files[i]).path == x)),
    {
        let mut r: Vec<Vec<u8>> = Vec::new();
        let mut i: usize = 0;
        proof {
            assert(seq_views(r@) =~= Seq::<Seq<u8>>::empty());
        }
        while i < self.files.len()
            invariant
                i <= self@.files.len(),
                self@.files.len() == self.files@.len(),
                forall|x: Seq<u8>|
                    #[trigger] seq_views(r@).contains(x) ==> ((exists|j: int|
                        0 <= j < self@.files.len() && (#[trigger] self@.files[j]).path == x)
                        && !(exists|j: int|
                        0 <= j < other@.files.len() && (#[trigger] other@.files[j]).path == x)),
                forall|j: int|
                    0 <= j < i && !(exists|k: int|
                        0 <= k < other@.files.len() && (#[trigger] other@.files[k]).path == (
                        #[trigger] self@.files[j]).path) ==> seq_views(r@).contains(
                        self@.files[j].path,
                    ),
            decreases self@.files.len() - i,
        {
            let ghost r_pre = r@;
            let present = other.has_file_path(self.files[i].path.as_slice());
            if !present {
                let p = self.files[i].path.clone();
                proof {
                    assert(p@ =~= self.files[i as int].path@);
                }
                r.push(p);
                proof {
                    assert(seq_views(r@) =~= seq_views(r_pre).push(self@.files[i as int].path));
                    assert forall|x: Seq<u8>| #[trigger]
                        seq_views(r@).contains(x) implies seq_views(r_pre).contains(x) || x
                        == self@.files[i as int].path by {
                        let m = choose|m: int| 0 <= m < seq_views(r@).len() && seq_views(r@)[m] == x;
                        if m < seq_views(r_pre).len() {
                            assert(seq_views(r_pre)[m] == x);
                        }
                    }
                    assert forall|x: Seq<u8>|
                        seq_views(r_pre).contains(x) implies #[trigger] seq_views(r@).contains(
                        x,
                    ) by {
                        let m = choose|m: int|
                            0 <= m < seq_views(r_pre).len() && seq_views(r_pre)[m] == x;
                        assert(seq_views(r@)[m] == x);
                    }
                }
            }
            proof {
                assert forall|j: int|
                    0 <= j < i + 1 && !(exists|k: int|
                        0 <= k < other@.files.len() && (#[trigger] other@.files[k]).path == (
                        #[trigger] self@.files[j]).path) implies seq_views(r@).contains(
                    self@.files[j].path,
                ) by {
                    if j < i {
                        assert(seq_views(r_pre).contains(self@.files[j].path));
                        let m = choose|m: int|
                            0 <= m < seq_views(r_pre).len() && seq_views(r_pre)[m]
                                == self@.files[j].path;
                        assert(seq_views(r@)[m] == self@.files[j].path);
                    } else {
                        assert(!present);
                        assert(seq_views(r@)[seq_views(r@).len() - 1]
                            == self@.files[i as int].path);
                    }
                }
            }
            i = i + 1;
        }
        let ghost r_half = r@;
        let mut k: usize = 0;
        while k < other.files.len()
            invariant
                k <= other@.files.len(),
                other@.files.len() == other.files@.len(),
                forall|x: Seq<u8>|
                    #[trigger] seq_views(r@).contains(x) <==> (seq_views(r_half).contains(x) || (
                    exists|j: int|
                        0 <= j < k && (#[trigger] other@.files[j]).path == x && !(exists|l: int|
                            0 <= l < self@.files.len() && (#[trigger] self@.files[l]).path == x))),
            decreases other@.files.len() - k,
        {
            let ghost r_pre = r@;
            let present = self.has_file_path(other.files[k].path.as_slice());
            if !present {
                let p = other.files[k].path.clone();
                proof {
                    assert(p@ =~= other.files[k as int].path@);
                }
                r.push(p);
            }
            proof {
                if !present {
                    assert(seq_views(r@) =~= seq_views(r_pre).push(other@.files[k as int].path));
                }
                assert forall|x: Seq<u8>| #[trigger]
                    seq_views(r@).contains(x) implies (seq_views(r_half).contains(x) || (exists|
                j: int|
                    0 <= j < k + 1 && (#[trigger] other@.files[j]).path == x && !(exists|l: int|
                        0 <= l < self@.files.len() && (#[trigger] self@.files[l]).path
                            == x))) by {
                    let m = choose|m: int| 0 <= m < seq_views(r@).len() && seq_views(r@)[m] == x;
                    if m < seq_views(r_pre).len() {
                        assert(seq_views(r_pre)[m] == x);
                        assert(seq_views(r_pre).contains(x));
                    } else {
                        assert(!present);
                        assert(x == other@.files[k as int].path);
                    }
                }
                assert forall|x: Seq<u8>|
                    (seq_views(r_half).contains(x) || (exists|j: int|
                        0 <= j < k + 1 && (#[trigger] other@.files[j]).path == x && !(exists|
                        l: int|
                            0 <= l < self@.files.len() && (#[trigger] self@.files[l]).path
                                == x))) implies #[trigger] seq_views(r@).contains(x) by {
                    if seq_views(r_half).contains(x) {
                        assert(seq_views(r_pre).contains(x));
                        let m = choose|m: int|
                            0 <= m < seq_views(r_pre).len() && seq_views(r_pre)[m] == x;
                        assert(seq_views(r@)[m] == x);
                    } else {
                        let j = choose|j: int|
                            0 <= j < k + 1 && (#[trigger] other@.files[j]).path == x && !(exists|
                            l: int|
                                0 <= l < self@.files.len() && (#[trigger] self@.files[l]).path
                                    == x);
                        if j < k {
                            assert(seq_views(r_pre).contains(x));
                            let m = choose|m: int|
                                0 <= m < seq_views(r_pre).len() && seq_views(r_pre)[m] == x;
                            assert(seq_views(r@)[m] == x);
                        } else {
                            assert(!present);
                            assert(seq_views(r@)[seq_views(r@).len() - 1] == x);
                        }
                    }
                }
            }
            k = k + 1;
        }
        r
    }
}

/// The file name `create_file` builds: the stem, then a dot and the
/// extension with its leading dots stripped, when one is given and
/// non-empty.
pub open spec fn create_basename(stem: Seq<u8>, ext: Option<Seq<u8>>) -> Seq<u8> {
    match ext {
        Some(e) => if e.len() > 0 {
            stem + seq![crate::DOT] + crate::filter::strip_dots(e)
        } else {
            stem
        },
        None => stem,
    }
}

impl DirectoryIndex {
    /// The paths a file creation will touch: the directory
    /// `root/dir_sub_path`, created as needed, and the file inside it.
    /// The caller performs both filesystem steps, then records the file
    /// with the size it read back.
    pub fn plan_create_file(
        &self,
        dir_sub_path: &Vec<u8>,
        file_stem: &Vec<u8>,
        file_extension: Option<&Vec<u8>>,
    ) -> (r: (Vec<u8>, Vec<u8>))
        ensures
            r.0@ == join_seq(self@.root_path, dir_sub_path@),
            r.1@ == join_seq(r.0@, create_basename(file_stem@, opt_view(file_extension))),
    {
        let dir_path = join(self.root_path.as_slice(), dir_sub_path.as_slice());
        let base: Vec<u8> = match file_extension {
            Some(e) => {
                if e.len() > 0 {
                    let stripped = crate::filter::strip_dots_vec(e.as_slice());
                    let mut b = file_stem.clone();
                    proof {
                        assert(b@ =~= file_stem@);
                    }
                    b.push(crate::DOT);
                    b.extend_from_slice(stripped.as_slice());
                    proof {
                        assert(b@ =~= create_basename(file_stem@, opt_view(file_extension)));
                    }
                    b
                } else {
                    let b = file_stem.clone();
                    proof {
                        assert(b@ =~= file_stem@);
                    }
                    b
                }
            },
            None => {
                let b = file_stem.clone();
                proof {
                    assert(b@ =~= file_stem@);
                }
                b
            },
        };
        let file_path = join(dir_path.as_slice(), base.as_slice());
        (dir_path, file_path)
    }

    /// Appends the record of a file the caller has just created on disk,
    /// and registers its extension if it is new. The caller supplies the
    /// size it read from the fresh file's metadata.
    pub fn record_file(&mut self, path: Vec<u8>, size: u64)
        requires
            old(self)@.wf(),
        ensures
            final(self)@.wf(),
            final(self)@.files == old(self)@.files.push(
                FileView {
                    path: path@,
                    name: crate::paths::file_stem_of(path@),
                    extension: crate::paths::file_ext_of(path@),
                    size,
                },
            ),
            final(self)@.directories == old(self)@.directories,
            final(self)@.root_path == old(self)@.root_path,
            final(self)@.filter == old(self)@.filter,
            forall|x: Seq<u8>|
                final(self)@.extensions.contains(x) <==> (old(self)@.extensions.contains(x) || (
                x == crate::paths::file_ext_of(path@) && x.len() > 0)),
    {
        let ghost pv = path@;
        let entry = FileEntry::new(path, size);
        let ghost ev = entry@;
        if entry.extension.len() > 0 {
            let e = entry.extension.clone();
            proof {
                assert(e@ =~= entry.extension@);
            }
            insert_sorted(&mut self.extensions, &e);
        }
        self.files.push(entry);
        proof {
            assert(file_views(self.files@) =~= file_views(old(self).files@).push(ev));
            assert(ev == FileView {
                path: pv,
                name: crate::paths::file_stem_of(pv),
                extension: crate::paths::file_ext_of(pv),
                size,
            });
            assert forall|i: int|
                0 <= i < self@.files.len() implies (#[trigger] self@.files[i]).wf() by {
                if i < old(self)@.files.len() {
                    assert(self@.files[i] == old(self)@.files[i]);
                } else {
                    assert(self@.files[i] == ev);
                }
            }
            assert(self@.directories == old(self)@.directories);
            if ev.extension.len() == 0 {
                assert(self@.extensions == old(self)@.extensions);
            }
            assert forall|x: Seq<u8>| #[trigger]
                self@.extensions.contains(x) implies (x.len() > 0 && exists|i: int|
                0 <= i < self@.files.len() && #[trigger] self@.files[i].extension == x) by {
                if old(self)@.extensions.contains(x) {
                    let i = choose|i: int|
                        0 <= i < old(self)@.files.len() && #[trigger] old(
                            self,
                        )@.files[i].extension == x;
                    assert(self@.files[i].extension == x);
                } else {
                    assert(x == ev.extension);
                    assert(self@.files[self@.files.len() - 1].extension == x);
                }
            }
            assert forall|x: Seq<u8>|
                (x.len() > 0 && exists|i: int|
                    0 <= i < self@.files.len() && #[trigger] self@.files[i].extension
                        == x) implies #[trigger] self@.extensions.contains(x) by {
                let i = choose|i: int|
                    0 <= i < self@.files.len() && #[trigger] self@.files[i].extension == x;
                if i < old(self)@.files.len() {
                    assert(old(self)@.files[i].extension == x);
                    assert(old(self)@.extensions.contains(x));
                } else {
                    assert(x == ev.extension);
                }
            }
        }
    }

    /// Appends the record of a directory the caller has just created on
    /// disk, unless one with that exact path is already indexed.
    pub fn record_directory(&mut self, path: Vec<u8>)
        requires
            old(self)@.wf(),
        ensures
            final(self)@.wf(),
            final(self)@.files == old(self)@.files,
            final(self)@.extensions == old(self)@.extensions,
            final(self)@.root_path == old(self)@.root_path,
            final(self)@.filter == old(self)@.filter,
            (exists|i: int|
                0 <= i < old(self)@.directories.len() && (#[trigger] old(
                    self,
                )@.directories[i]).path == path@) ==> final(self)@.directories == old(
                self,
            )@.directories,
            !(exists|i: int|
                0 <= i < old(self)@.directories.len() && (#[trigger] old(
                    self,
                )@.directories[i]).path == path@) ==> final(self)@.directories == old(
                self,
            )@.directories.push(DirView { path: path@, name: basename_of(path@) }),
    {
        let mut i: usize = 0;
        while i < self.directories.len()
            invariant
                i <= self@.directories.len(),
                self@.directories.len() == self.directories@.len(),
                self@ == old(self)@,
                old(self)@.wf(),
                forall|j: int| 0 <= j < i ==> (#[trigger] self@.directories[j]).path != path@,
            decreases self@.directories.len() - i,
        {
            if eq_bytes(self.directories[i].path.as_slice(), path.as_slice()) {
                proof {
                    assert(self@.directories[i as int].path == path@);
                }
                return ;
            }
            i = i + 1;
        }
        let ghost pv = path@;
        let entry = DirectoryEntry::new(path);
        let ghost ev = entry@;
        self.directories.push(entry);
        proof {
            assert(dir_views(self.directories@) =~= dir_views(old(self).directories@).push(ev));
            assert(ev == DirView { path: pv, name: basename_of(pv) });
            assert forall|i: int|
                0 <= i < self@.directories.len() implies (
                #[trigger] self@.directories[i]).wf() by {
                if i < old(self)@.directories.len() {
                    assert(self@.directories[i] == old(self)@.directories[i]);
                } else {
                    assert(self@.directories[i] == ev);
                }
            }
            assert(self@.files == old(self)@.files);
            assert(self@.extensions == old(self)@.extensions);
        }
    }
}

/// Whether `p` is one of the paths of `gone`, or lies beneath one.
pub open spec fn under_any(p: Seq<u8>, gone: Seq<Seq<u8>>) -> bool {
    exists|i: int| 0 <= i < gone.len() && is_under(p, gone[i])
}

/// The files whose paths are not in `gone`, in index order.
pub open spec fn files_without(files: Seq<FileView>, gone: Seq<Seq<u8>>) -> Seq<FileView> {
    files.filter(|f: FileView| !set_has(gone, f.path))
}

/// The files not at or beneath any of the paths of `gone`, in index
/// order.
pub open spec fn files_outside(files: Seq<FileView>, gone: Seq<Seq<u8>>) -> Seq<FileView> {
    files.filter(|f: FileView| !under_any(f.path, gone))
}

/// The directories not at or beneath any of the paths of `gone`, in
/// index order.
pub open spec fn dirs_outside(dirs: Seq<DirView>, gone: Seq<Seq<u8>>) -> Seq<DirView> {
    dirs.filter(|d: DirView| !under_any(d.path, gone))
}

/// Whether `p` equals one of the byte strings of `set`.
fn path_in_set(p: &[u8], set: &Vec<Vec<u8>>) -> (r: bool)
    ensures
        r == set_has(seq_views(set@), p@),
{
    let mut i: usize = 0;
    while i < set.len()
        invariant
            i <= set@.len(),
            forall|j: int| 0 <= j < i ==> #[trigger] seq_views(set@)[j] != p@,
        decreases set@.len() - i,
    {
        proof {
            assert(seq_views(set@)[i as int] == set@[i as int]@);
        }
        if eq_bytes(set[i].as_slice(), p) {
            return true;
        }
        i = i + 1;
    }
    false
}

/// Whether `p` is one of the paths of `set`, or lies beneath one.
fn path_under_set(p: &[u8], set: &Vec<Vec<u8>>) -> (r: bool)
    ensures
        r == under_any(p@, seq_views(set@)),
{
    let mut i: usize = 0;
    while i < set.len()
        invariant
            i <= set@.len(),
            forall|j: int| 0 <= j < i ==> !is_under(p@, #[trigger] seq_views(set@)[j]),
        decreases set@.len() - i,
    {
        proof {
            assert(seq_views(set@)[i as int] == set@[i as int]@);
        }
        if eq_bytes(set[i].as_slice(), p) || under_strict(p, set[i].as_slice()) {
            return true;
        }
        i = i + 1;
    }
    false
}

impl DirectoryIndex {
    /// Drops the records of the files the caller has deleted from disk,
    /// given by exact path, and rebuilds the extension registry.
    pub fn remove_files(&mut self, paths: &Vec<Vec<u8>>)
        requires
            old(self)@.wf(),
        ensures
            final(self)@.wf(),
            final(self)@.files == files_without(old(self)@.files, seq_views(paths@)),
            final(self)@.directories == old(self)@.directories,
            final(self)@.root_path == old(self)@.root_path,
            final(self)@.filter == old(self)@.filter,
    {
        let ghost gone = seq_views(paths@);
        let mut kept: Vec<FileEntry> = Vec::new();
        let mut i: usize = 0;
        proof {
            reveal(Seq::filter);
            assert(self@.files.take(0) =~= Seq::<FileView>::empty());
            assert(file_views(kept@) =~= Seq::<FileView>::empty());
            assert(files_without(self@.files.take(0), gone) =~= Seq::<FileView>::empty());
        }
        while i < self.files.len()
            invariant
                i <= self@.files.len(),
                self@.files.len() == self.files@.len(),
                old(self)@.wf(),
                self@ == old(self)@,
                gone == seq_views(paths@),
                file_views(kept@) == files_without(self@.files.take(i as int), gone),
                forall|k: int|
                    0 <= k < file_views(kept@).len() ==> (#[trigger] file_views(kept@)[k]).wf(),
            decreases self@.files.len() - i,
        {
            let ghost kept_pre = kept@;
            if !path_in_set(self.files[i].path.as_slice(), paths) {
                kept.push(self.files[i].clone());
            }
            proof {
                reveal(Seq::filter);
                let now = self@.files.take(i + 1);
                assert(now.drop_last() =~= self@.files.take(i as int));
                assert(now.last() == self@.files[i as int]);
                if !set_has(gone, self@.files[i as int].path) {
                    assert(file_views(kept@) =~= file_views(kept_pre).push(
                        self@.files[i as int],
                    ));
                } else {
                    assert(file_views(kept@) == file_views(kept_pre));
                }
                assert(file_views(kept@) == files_without(now, gone));
            }
            i = i + 1;
        }
        proof {
            assert(self@.files.take(self@.files.len() as int) =~= self@.files);
        }
        let exts = collect_extensions(&kept);
        self.files = kept;
        self.extensions = exts;
        proof {
            assert(self@.directories == old(self)@.directories);
        }
    }

    /// Drops the records of the directories the caller has recursively
    /// deleted from disk, cascading to every file and directory at or
    /// beneath any deleted path, and rebuilds the extension registry.
    pub fn remove_directories_cascade(&mut self, dir_paths: &Vec<Vec<u8>>)
        requires
            old(self)@.wf(),
        ensures
            final(self)@.wf(),
            final(self)@.directories == dirs_outside(
                old(self)@.directories,
                seq_views(dir_paths@),
            ),
            final(self)@.files == files_outside(old(self)@.files, seq_views(dir_paths@)),
            final(self)@.root_path == old(self)@.root_path,
            final(self)@.filter == old(self)@.filter,
    {
        let ghost gone = seq_views(dir_paths@);
        let mut kept_dirs: Vec<DirectoryEntry> = Vec::new();
        let mut i: usize = 0;
        proof {
            reveal(Seq::filter);
            assert(self@.directories.take(0) =~= Seq::<DirView>::empty());
            assert(dir_views(kept_dirs@) =~= Seq::<DirView>::empty());
            assert(dirs_outside(self@.directories.take(0), gone) =~= Seq::<DirView>::empty());
        }
        while i < self.directories.len()
            invariant
                i <= self@.directories.len(),
                self@.directories.len() == self.directories@.len(),
                old(self)@.wf(),
                self@ == old(self)@,
                gone == seq_views(dir_paths@),
                dir_views(kept_dirs@) == dirs_outside(self@.directories.take(i as int), gone),
                forall|k: int|
                    0 <= k < dir_views(kept_dirs@).len() ==> (#[trigger] dir_views(
                        kept_dirs@,
                    )[k]).wf(),
            decreases self@.directories.len() - i,
        {
            let ghost kept_pre = kept_dirs@;
            if !path_under_set(self.directories[i].path.as_slice(), dir_paths) {
                kept_dirs.push(self.directories[i].clone());
            }
            proof {
                reveal(Seq::filter);
                let now = self@.directories.take(i + 1);
                assert(now.drop_last() =~= self@.directories.take(i as int));
                assert(now.last() == self@.directories[i as int]);
                if !under_any(self@.directories[i as int].path, gone) {
                    assert(dir_views(kept_dirs@) =~= dir_views(kept_pre).push(
                        self@.directories[i as int],
                    ));
                } else {
                    assert(dir_views(kept_dirs@) == dir_views(kept_pre));
                }
                assert(dir_views(kept_dirs@) == dirs_outside(now, gone));
            }
            i = i + 1;
        }
        let mut kept_files: Vec<FileEntry> = Vec::new();
        let mut j: usize = 0;
        proof {
            reveal(Seq::filter);
            assert(self@.directories.take(self@.directories.len() as int) =~= self@.directories);
            assert(self@.files.take(0) =~= Seq::<FileView>::empty());
            assert(file_views(kept_files@) =~= Seq::<FileView>::empty());
            assert(files_outside(self@.files.take(0), gone) =~= Seq::<FileView>::empty());
        }
        while j < self.files.len()
            invariant
                j <= self@.files.len(),
                self@.files.len() == self.files@.len(),
                old(self)@.wf(),
                self@ == old(self)@,
                gone == seq_views(dir_paths@),
                file_views(kept_files@) == files_outside(self@.files.take(j as int), gone),
                forall|k: int|
                    0 <= k < file_views(kept_files@).len() ==> (#[trigger] file_views(
                        kept_files@,
                    )[k]).wf(),
            decreases self@.files.len() - j,
        {
            let ghost kept_pre = kept_files@;
            if !path_under_set(self.files[j].path.as_slice(), dir_paths) {
                kept_files.push(self.files[j].clone());
            }
            proof {
                reveal(Seq::filter);
                let now = self@.files.take(j + 1);
                assert(now.drop_last() =~= self@.files.take(j as int));
                assert(now.last() == self@.files[j as int]);
                if !under_any(self@.files[j as int].path, gone) {
                    assert(file_views(kept_files@) =~= file_views(kept_pre).push(
                        self@.files[j as int],
                    ));
                } else {
                    assert(file_views(kept_files@) == file_views(kept_pre));
                }
                assert(file_views(kept_files@) == files_outside(now, gone));
            }
            j = j + 1;
        }
        proof {
            assert(self@.files.take(self@.files.len() as int) =~= self@.files);
        }
        let exts = collect_extensions(&kept_files);
        self.directories = kept_dirs;
        self.files = kept_files;
        self.extensions = exts;
    }
}

/// Whether the first record with path `p` stands at index `k`.
pub open spec fn first_path_at(files: Seq<FileView>, p: Seq<u8>, k: int) -> bool {
    &&& 0 <= k < files.len()
    &&& files[k].path == p
    &&& forall|j: int| 0 <= j < k ==> (#[trigger] files[j]).path != p
}

/// The record of a file after its path changed to `np`: stem and
/// extension follow the new final component, the size is carried over.
pub open spec fn moved_view(f: FileView, np: Seq<u8>) -> FileView {
    FileView {
        path: np,
        name: crate::paths::file_stem_of(np),
        extension: crate::paths::file_ext_of(np),
        size: f.size,
    }
}

impl DirectoryIndex {
    /// The filesystem rename a file rename needs: resolves the single
    /// target through the same constraints as [`Self::find_file`], and
    /// keeps the file in its parent directory under the new full name.
    /// Fails with `NoMatchingFile` when nothing matches and with
    /// `MalformedPath` when the target's path has no parent.
    pub fn plan_rename_file(
        &self,
        new_full_name: &Vec<u8>,
        name: Option<&Vec<u8>>,
        sub_path: Option<&Vec<u8>>,
        extension: Option<&Vec<u8>>,
    ) -> (r: Result<(Vec<u8>, Vec<u8>), IndexError>)
        ensures
            match r {
                Ok(pair) => exists|k: int|
                    #[trigger] first_file_match_at(
                        self@.files,
                        opt_view(name),
                        opt_view(sub_path),
                        opt_view(extension),
                        k,
                    ) && pair.0@ == self@.files[k].path && has_parent(self@.files[k].path)
                        && pair.1@ == join_seq(parent_of(self@.files[k].path), new_full_name@),
                Err(e) => (e == IndexError::NoMatchingFile && (forall|k: int|
                    0 <= k < self@.files.len() ==> !file_matches(
                        #[trigger] self@.files[k],
                        opt_view(name),
                        opt_view(sub_path),
                        opt_view(extension),
                    ))) || (e == IndexError::MalformedPath && (exists|k: int|
                    #[trigger] first_file_match_at(
                        self@.files,
                        opt_view(name),
                        opt_view(sub_path),
                        opt_view(extension),
                        k,
                    ) && !has_parent(self@.files[k].path))),
            },
    {
        let target = match self.find_file(name, sub_path, extension) {
            Ok(f) => f,
            Err(_) => {
                return Err(IndexError::NoMatchingFile);
            },
        };
        match parent_dir(target.path.as_slice()) {
            Some(parent) => {
                let new_path = join(parent.as_slice(), new_full_name.as_slice());
                Ok((target.path, new_path))
            },
            None => Err(IndexError::MalformedPath),
        }
    }

    /// Rewrites the record of the file the caller has just renamed or
    /// moved on disk: the first record whose path is `old_path` takes
    /// the path `new_path`, with stem and extension re-derived and the
    /// size carried over; the registry is rebuilt.
    pub fn apply_file_move(&mut self, old_path: &Vec<u8>, new_path: &Vec<u8>)
        requires
            old(self)@.wf(),
        ensures
            final(self)@.wf(),
            final(self)@.directories == old(self)@.directories,
            final(self)@.root_path == old(self)@.root_path,
            final(self)@.filter == old(self)@.filter,
            forall|k: int|
                #[trigger] first_path_at(old(self)@.files, old_path@, k) ==> final(self)@.files
                    == old(self)@.files.update(k, moved_view(old(self)@.files[k], new_path@)),
            (forall|k: int|
                0 <= k < old(self)@.files.len() && (#[trigger] old(self)@.files[k]).path
                    != old_path@) ==> final(self)@.files == old(self)@.files,
    {
        let mut i: usize = 0;
        let n = self.files.len();
        while i < n
            invariant
                i <= n,
                n == self@.files.len(),
                self@.files.len() == self.files@.len(),
                old(self)@.wf(),
                self@ == old(self)@,
                forall|j: int| 0 <= j < i ==> (#[trigger] self@.files[j]).path != old_path@,
            decreases n - i,
        {
            if eq_bytes(self.files[i].path.as_slice(), old_path.as_slice()) {
                let size = self.files[i].size;
                let np = new_path.clone();
                proof {
                    assert(np@ =~= new_path@);
                }
                let entry = FileEntry::new(np, size);
                let ghost ev = entry@;
                self.files[i] = entry;
                let exts = collect_extensions(&self.files);
                self.extensions = exts;
                proof {
                    assert(file_views(self.files@) =~= file_views(old(self).files@).update(
                        i as int,
                        ev,
                    ));
                    assert(first_path_at(old(self)@.files, old_path@, i as int));
                    assert(ev == moved_view(old(self)@.files[i as int], new_path@));
                    assert forall|k: int| #[trigger]
                        first_path_at(old(self)@.files, old_path@, k) implies k == i as int by {
                        if k < i {
                            assert(old(self)@.files[k].path == old_path@);
                        }
                        if k > i {
                            assert(old(self)@.files[i as int].path != old_path@);
                        }
                    }
                    assert forall|k: int|
                        0 <= k < self@.files.len() implies (#[trigger] self@.files[k]).wf() by {
                        if k != i {
                            assert(self@.files[k] == old(self)@.files[k]);
                        } else {
                            assert(self@.files[k] == ev);
                        }
                    }
                    assert(self@.directories == old(self)@.directories);
                    assert forall|x: Seq<u8>| #[trigger]
                        self@.extensions.contains(x) implies x.len() > 0 && (exists|k: int|
                        0 <= k < self@.files.len() && #[trigger] self@.files[k].extension
                            == x) by {
                        assert(seq_views(self.extensions@).contains(x));
                        let k = choose|k: int|
                            0 <= k < file_views(self.files@).len() && #[trigger] file_views(
                                self.files@,
                            )[k].extension == x;
                        assert(self@.files[k].extension == x);
                    }
                    assert forall|x: Seq<u8>|
                        x.len() > 0 && (exists|k: int|
                            0 <= k < self@.files.len() && #[trigger] self@.files[k].extension
                                == x) implies #[trigger] self@.extensions.contains(x) by {
                        let k = choose|k: int|
                            0 <= k < self@.files.len() && self@.files[k].extension == x;
                        assert(file_views(self.files@)[k].extension == x);
                        assert(seq_views(self.extensions@).contains(x));
                    }
                }
                return ;
            }
            i = i + 1;
        }
    }
}

/// The record of a directory after the subtree root `d` moved to `nd`:
/// a record at `d` takes the path `nd` and its new final component; one
/// strictly beneath `d` has the prefix rewritten, component-wise, and
/// keeps its name.
pub open spec fn dir_after_move(v: DirView, d: Seq<u8>, nd: Seq<u8>) -> DirView {
    if v.path == d {
        DirView { path: nd, name: basename_of(nd) }
    } else if is_strict_under(v.path, d) {
        DirView { path: nd + v.path.skip(d.len() as int), name: v.name }
    } else {
        v
    }
}

/// The record of a file after the subtree root `d` moved to `nd`: one
/// strictly beneath `d` has the prefix rewritten, component-wise, and
/// keeps its name, extension and size.
pub open spec fn file_after_move(v: FileView, d: Seq<u8>, nd: Seq<u8>) -> FileView {
    if is_strict_under(v.path, d) {
        FileView {
            path: nd + v.path.skip(d.len() as int),
            name: v.name,
            extension: v.extension,
            size: v.size,
        }
    } else {
        v
    }
}

impl DirectoryIndex {
    /// Rewrites the records beneath a directory the caller has just
    /// moved on disk from `old_path` to `new_path`: the directory's own
    /// record takes the new path and name, and every record strictly
    /// beneath it has the prefix replaced on a component boundary, so a
    /// sibling whose path merely starts with the same bytes is left
    /// alone.
    pub fn apply_move_directory(&mut self, old_path: &Vec<u8>, new_path: &Vec<u8>)
        requires
            old(self)@.wf(),
            old_path@.len() > 0,
            old_path@[old_path@.len() - 1] != crate::SEP,
        ensures
            final(self)@.wf(),
            final(self)@.root_path == old(self)@.root_path,
            final(self)@.filter == old(self)@.filter,
            final(self)@.extensions == old(self)@.extensions,
            final(self)@.directories.len() == old(self)@.directories.len(),
            forall|k: int|
                0 <= k < old(self)@.directories.len() ==> final(self)@.directories[k]
                    == dir_after_move(
                    #[trigger] old(self)@.directories[k],
                    old_path@,
                    new_path@,
                ),
            final(self)@.files.len() == old(self)@.files.len(),
            forall|k: int|
                0 <= k < old(self)@.files.len() ==> final(self)@.files[k] == file_after_move(
                    #[trigger] old(self)@.files[k],
                    old_path@,
                    new_path@,
                ),
    {
        let n = self.directories.len();
        let mut k: usize = 0;
        while k < n
            invariant
                k <= n,
                n == self@.directories.len(),
                n == old(self)@.directories.len(),
                self@.directories.len() == self.directories@.len(),
                old(self)@.wf(),
                old_path@.len() > 0,
                old_path@[old_path@.len() - 1] != crate::SEP,
                self@.files == old(self)@.files,
                self@.extensions == old(self)@.extensions,
                self@.root_path == old(self)@.root_path,
                self@.filter == old(self)@.filter,
                forall|j: int|
                    0 <= j < k ==> self@.directories[j] == dir_after_move(
                        #[trigger] old(self)@.directories[j],
                        old_path@,
                        new_path@,
                    ),
                forall|j: int|
                    k <= j < n ==> self@.directories[j] == #[trigger] old(
                        self,
                    )@.directories[j],
                forall|j: int|
                    0 <= j < k ==> (#[trigger] self@.directories[j]).wf(),
            decreases n - k,
        {
            let ghost pre = self@.directories;
            if eq_bytes(self.directories[k].path.as_slice(), old_path.as_slice()) {
                let np = new_path.clone();
                proof {
                    assert(np@ =~= new_path@);
                }
                let entry = DirectoryEntry::new(np);
                self.directories[k] = entry;
            } else if under_strict(self.directories[k].path.as_slice(), old_path.as_slice()) {
                let mut np = new_path.clone();
                proof {
                    assert(np@ =~= new_path@);
                }
                let pl = self.directories[k].path.len();
                let suffix = subvec(self.directories[k].path.as_slice(), old_path.len(), pl);
                np.extend_from_slice(suffix.as_slice());
                let nm = self.directories[k].name.clone();
                proof {
                    assert(nm@ =~= self.directories@[k as int].name@);
                    assert(np@ == new_path@ + old(self)@.directories[k as int].path.skip(
                        old_path@.len() as int,
                    ));
                    crate::paths::lemma_rewrite_basename(
                        old(self)@.directories[k as int].path,
                        old_path@,
                        new_path@,
                    );
                }
                let entry = DirectoryEntry { path: np, name: nm };
                self.directories[k] = entry;
            }
            proof {
                assert forall|j: int|
                    0 <= j < k + 1 implies self@.directories[j] == dir_after_move(
                    #[trigger] old(self)@.directories[j],
                    old_path@,
                    new_path@,
                ) by {
                    if j < k {
                        assert(self@.directories[j] == pre[j]);
                    }
                }
                assert forall|j: int|
                    0 <= j < k + 1 implies (#[trigger] self@.directories[j]).wf() by {
                    if j < k {
                        assert(self@.directories[j] == pre[j]);
                    } else {
                        assert(old(self)@.directories[j].wf());
                    }
                }
            }
            k = k + 1;
        }
        let m = self.files.len();
        let mut k: usize = 0;
        while k < m
            invariant
                k <= m,
                m == self@.files.len(),
                m == old(self)@.files.len(),
                self@.files.len() == self.files@.len(),
                old(self)@.wf(),
                old_path@.len() > 0,
                old_path@[old_path@.len() - 1] != crate::SEP,
                self@.extensions == old(self)@.extensions,
                self@.root_path == old(self)@.root_path,
                self@.filter == old(self)@.filter,
                self@.directories.len() == old(self)@.directories.len(),
                forall|j: int|
                    0 <= j < old(self)@.directories.len() ==> self@.directories[j]
                        == dir_after_move(
                        #[trigger] old(self)@.directories[j],
                        old_path@,
                        new_path@,
                    ),
                forall|j: int|
                    0 <= j < old(self)@.directories.len() ==> (
                    #[trigger] self@.directories[j]).wf(),
                forall|j: int|
                    0 <= j < k ==> self@.files[j] == file_after_move(
                        #[trigger] old(self)@.files[j],
                        old_path@,
                        new_path@,
                    ),
                forall|j: int| k <= j < m ==> self@.files[j] == #[trigger] old(self)@.files[j],
                forall|j: int| 0 <= j < k ==> (#[trigger] self@.files[j]).wf(),
                forall|j: int|
                    0 <= j < m ==> (#[trigger] self@.files[j]).extension == old(
                        self,
                    )@.files[j].extension,
            decreases m - k,
        {
            let ghost pre = self@.files;
            if under_strict(self.files[k].path.as_slice(), old_path.as_slice()) {
                let mut np = new_path.clone();
                proof {
                    assert(np@ =~= new_path@);
                }
                let pl = self.files[k].path.len();
                let suffix = subvec(self.files[k].path.as_slice(), old_path.len(), pl);
                np.extend_from_slice(suffix.as_slice());
                let nm = self.files[k].name.clone();
                let ne = self.files[k].extension.clone();
                let sz = self.files[k].size;
                proof {
                    assert(nm@ =~= self.files@[k as int].name@);
                    assert(ne@ =~= self.files@[k as int].extension@);
                    assert(np@ == new_path@ + old(self)@.files[k as int].path.skip(
                        old_path@.len() as int,
                    ));
                    crate::paths::lemma_rewrite_basename(
                        old(self)@.files[k as int].path,
                        old_path@,
                        new_path@,
                    );
                }
                let entry = FileEntry { path: np, name: nm, extension: ne, size: sz };
                self.files[k] = entry;
            }
            proof {
                assert forall|j: int|
                    0 <= j < k + 1 implies self@.files[j] == file_after_move(
                    #[trigger] old(self)@.files[j],
                    old_path@,
                    new_path@,
                ) by {
                    if j < k {
                        assert(self@.files[j] == pre[j]);
                    }
                }
                assert forall|j: int|
                    0 <= j < k + 1 implies (#[trigger] self@.files[j]).wf() by {
                    if j < k {
                        assert(self@.files[j] == pre[j]);
                    } else {
                        assert(old(self)@.files[j].wf());
                    }
                }
            }
            k = k + 1;
        }
        proof {
            assert forall|x: Seq<u8>| #[trigger]
                self@.extensions.contains(x) implies x.len() > 0 && (exists|i: int|
                0 <= i < self@.files.len() && #[trigger] self@.files[i].extension == x) by {
                assert(old(self)@.extensions.contains(x));
                let i = choose|i: int|
                    0 <= i < old(self)@.files.len() && #[trigger] old(self)@.files[i].extension
                        == x;
                assert(self@.files[i].extension == x);
            }
            assert forall|x: Seq<u8>|
                x.len() > 0 && (exists|i: int|
                    0 <= i < self@.files.len() && #[trigger] self@.files[i].extension
                        == x) implies #[trigger] self@.extensions.contains(x) by {
                let i = choose|i: int|
                    0 <= i < self@.files.len() && self@.files[i].extension == x;
                assert(old(self)@.files[i].extension == x);
                assert(old(self)@.extensions.contains(x));
            }
        }
    }
}

/// The mathematical value of an optional explicit record list.
pub open spec fn opt_files_view(o: Option<&Vec<FileEntry>>) -> Option<Seq<FileView>> {
    match o {
        Some(v) => Some(file_views(v@)),
        None => None,
    }
}

/// The source records of a batch operation: the caller's explicit list
/// when one is given, else the records matching the query.
pub open spec fn chosen_files(
    files: Seq<FileView>,
    explicit: Option<Seq<FileView>>,
    name: Option<Seq<u8>>,
    sub_path: Option<Seq<u8>>,
    extension: Option<Seq<u8>>,
) -> Seq<FileView> {
    match explicit {
        Some(list) => list,
        None => matching_files(files, name, sub_path, extension),
    }
}

/// The mathematical values of a vector of optional file contents.
pub open spec fn content_views(s: Seq<Option<Vec<u8>>>) -> Seq<Option<Seq<u8>>> {
    s.map_values(
        |o: Option<Vec<u8>>|
            match o {
                Some(v) => Some(v@),
                None => None,
            },
    )
}

/// The files whose contents hold `needle`; a file whose content could
/// not be read is skipped.
pub open spec fn text_hits(
    files: Seq<FileView>,
    contents: Seq<Option<Seq<u8>>>,
    needle: Seq<u8>,
) -> Seq<FileView>
    decreases files.len(),
{
    if files.len() == 0 {
        Seq::empty()
    } else {
        let rest = text_hits(files.drop_last(), contents.drop_last(), needle);
        if contents.last() is Some && contains_seq(contents.last().unwrap(), needle) {
            rest.push(files.last())
        } else {
            rest
        }
    }
}

/// Clones a record list.
fn clone_files(v: &Vec<FileEntry>) -> (r: Vec<FileEntry>)
    ensures
        file_views(r@) == file_views(v@),
{
    let mut out: Vec<FileEntry> = Vec::new();
    let mut i: usize = 0;
    while i < v.len()
        invariant
            i <= v@.len(),
            out@.len() == i,
            forall|j: int| 0 <= j < i ==> #[trigger] file_views(out@)[j] == file_views(v@)[j],
        decreases v@.len() - i,
    {
        let ghost out_pre = out@;
        let c = v[i].clone();
        let ghost cv = c@;
        out.push(c);
        proof {
            assert(file_views(out@) =~= file_views(out_pre).push(cv));
            assert forall|j: int|
                0 <= j < i + 1 implies #[trigger] file_views(out@)[j] == file_views(v@)[j] by {
                if j < i {
                    assert(file_views(out@)[j] == file_views(out_pre)[j]);
                }
            }
        }
        i = i + 1;
    }
    proof {
        assert(file_views(out@) =~= file_views(v@));
    }
    out
}

impl DirectoryIndex {
    /// The filesystem renames a batch move of files needs: each source
    /// file goes to the unique destination directory under its own file
    /// name. The sources are the explicit list when one is given, else
    /// every file matching the query; an empty source set yields an
    /// empty plan. Fails with `DestinationNotUnique` when not exactly
    /// one directory matches the destination query, and with
    /// `MalformedPath` when a source path has no final component.
    pub fn plan_move_files(
        &self,
        name: Option<&Vec<u8>>,
        sub_path: Option<&Vec<u8>>,
        extension: Option<&Vec<u8>>,
        dest_directory_name: Option<&Vec<u8>>,
        dest_sub_path: Option<&Vec<u8>>,
        files_to_move: Option<&Vec<FileEntry>>,
    ) -> (r: Result<Vec<(Vec<u8>, Vec<u8>)>, IndexError>)
        ensures
            ({
                let srcs = chosen_files(
                    self@.files,
                    opt_files_view(files_to_move),
                    opt_view(name),
                    opt_view(sub_path),
                    opt_view(extension),
                );
                let dsts = matching_dirs(
                    self@.directories,
                    opt_view(dest_directory_name),
                    opt_view(dest_sub_path),
                );
                match r {
                    Ok(pairs) => (srcs.len() == 0 && pairs@.len() == 0) || (srcs.len() > 0
                        && dsts.len() == 1 && pairs@.len() == srcs.len() && forall|i: int|
                        0 <= i < srcs.len() ==> (#[trigger] pairs@[i]).0@ == srcs[i].path
                            && basename_of(srcs[i].path).len() > 0 && pairs@[i].1@ == join_seq(
                            dsts[0].path,
                            basename_of(srcs[i].path),
                        )),
                    Err(e) => (e == IndexError::DestinationNotUnique && srcs.len() > 0
                        && dsts.len() != 1) || (e == IndexError::MalformedPath && srcs.len() > 0
                        && dsts.len() == 1 && exists|i: int|
                        0 <= i < srcs.len() && basename_of((#[trigger] srcs[i]).path).len()
                            == 0),
                }
            }),
    {
        let ghost srcs = chosen_files(
            self@.files,
            opt_files_view(files_to_move),
            opt_view(name),
            opt_view(sub_path),
            opt_view(extension),
        );
        let ghost dsts = matching_dirs(
            self@.directories,
            opt_view(dest_directory_name),
            opt_view(dest_sub_path),
        );
        let sources: Vec<FileEntry> = match files_to_move {
            Some(list) => clone_files(list),
            None => self.find_files(name, sub_path, extension, false),
        };
        if sources.len() == 0 {
            let empty: Vec<(Vec<u8>, Vec<u8>)> = Vec::new();
            return Ok(empty);
        }
        let dests = self.find_directories(dest_directory_name, dest_sub_path, false);
        if dests.len() != 1 {
            return Err(IndexError::DestinationNotUnique);
        }
        let mut pairs: Vec<(Vec<u8>, Vec<u8>)> = Vec::new();
        let mut i: usize = 0;
        while i < sources.len()
            invariant
                i <= sources@.len(),
                srcs == chosen_files(
                    self@.files,
                    opt_files_view(files_to_move),
                    opt_view(name),
                    opt_view(sub_path),
                    opt_view(extension),
                ),
                dsts == matching_dirs(
                    self@.directories,
                    opt_view(dest_directory_name),
                    opt_view(dest_sub_path),
                ),
                file_views(sources@) == srcs,
                dir_views(dests@) == dsts,
                dests@.len() == 1,
                srcs.len() > 0,
                pairs@.len() == i,
                forall|j: int|
                    0 <= j < i ==> (#[trigger] pairs@[j]).0@ == srcs[j].path && basename_of(
                        srcs[j].path,
                    ).len() > 0 && pairs@[j].1@ == join_seq(
                        dsts[0].path,
                        basename_of(srcs[j].path),
                    ),
            decreases sources@.len() - i,
        {
            proof {
                assert(srcs[i as int] == file_views(sources@)[i as int]);
                assert(dsts[0] == dir_views(dests@)[0]);
            }
            let base = basename(sources[i].path.as_slice());
            if base.len() == 0 {
                proof {
                    assert(basename_of(srcs[i as int].path).len() == 0);
                }
                return Err(IndexError::MalformedPath);
            }
            let np = join(dests[0].path.as_slice(), base.as_slice());
            let op = sources[i].path.clone();
            proof {
                assert(op@ =~= sources[i as int].path@);
            }
            let ghost opv = op@;
            let ghost npv = np@;
            let ghost pairs_pre = pairs@;
            pairs.push((op, np));
            proof {
                assert(base@ == basename_of(srcs[i as int].path));
                assert(npv == join_seq(dsts[0].path, basename_of(srcs[i as int].path)));
                assert(opv == srcs[i as int].path);
                assert forall|j: int|
                    0 <= j < i + 1 implies (#[trigger] pairs@[j]).0@ == srcs[j].path
                    && basename_of(srcs[j].path).len() > 0 && pairs@[j].1@ == join_seq(
                    dsts[0].path,
                    basename_of(srcs[j].path),
                ) by {
                    if j < i {
                        assert(pairs@[j] == pairs_pre[j]);
                    } else {
                        assert(pairs@[j].0@ == opv);
                        assert(pairs@[j].1@ == npv);
                    }
                }
            }
            i = i + 1;
        }
        Ok(pairs)
    }

    /// The filesystem rename a single-file move needs: resolves the
    /// first file matching the query and the unique destination
    /// directory. Fails with `NoMatchingFile` when nothing matches,
    /// `DestinationNotUnique` when not exactly one directory matches,
    /// and `MalformedPath` when the source path has no final component.
    pub fn plan_move_file(
        &self,
        name: Option<&Vec<u8>>,
        sub_path: Option<&Vec<u8>>,
        extension: Option<&Vec<u8>>,
        dest_directory_name: Option<&Vec<u8>>,
        dest_sub_path: Option<&Vec<u8>>,
    ) -> (r: Result<(Vec<u8>, Vec<u8>), IndexError>)
        ensures
            ({
                let dsts = matching_dirs(
                    self@.directories,
                    opt_view(dest_directory_name),
                    opt_view(dest_sub_path),
                );
                match r {
                    Ok(pair) => exists|k: int|
                        #[trigger] first_file_match_at(
                            self@.files,
                            opt_view(name),
                            opt_view(sub_path),
                            opt_view(extension),
                            k,
                        ) && dsts.len() == 1 && basename_of(self@.files[k].path).len() > 0
                            && pair.0@ == self@.files[k].path && pair.1@ == join_seq(
                            dsts[0].path,
                            basename_of(self@.files[k].path),
                        ),
                    Err(e) => (e == IndexError::NoMatchingFile && (forall|k: int|
                        0 <= k < self@.files.len() ==> !file_matches(
                            #[trigger] self@.files[k],
                            opt_view(name),
                            opt_view(sub_path),
                            opt_view(extension),
                        ))) || (e == IndexError::DestinationNotUnique && dsts.len() != 1 && (
                    exists|k: int|
                        0 <= k < self@.files.len() && file_matches(
                            #[trigger] self@.files[k],
                            opt_view(name),
                            opt_view(sub_path),
                            opt_view(extension),
                        ))) || (e == IndexError::MalformedPath && dsts.len() == 1 && (exists|
                    k: int|
                        #[trigger] first_file_match_at(
                            self@.files,
                            opt_view(name),
                            opt_view(sub_path),
                            opt_view(extension),
                            k,
                        ) && basename_of(self@.files[k].path).len() == 0)),
                }
            }),
    {
        let target = match self.find_file(name, sub_path, extension) {
            Ok(f) => f,
            Err(_) => {
                return Err(IndexError::NoMatchingFile);
            },
        };
        let dests = self.find_directories(dest_directory_name, dest_sub_path, false);
        if dests.len() != 1 {
            return Err(IndexError::DestinationNotUnique);
        }
        let base = basename(target.path.as_slice());
        if base.len() == 0 {
            return Err(IndexError::MalformedPath);
        }
        let np = join(dests[0].path.as_slice(), base.as_slice());
        Ok((target.path, np))
    }

    /// The filesystem renames a batch move of directories needs: each
    /// source directory goes beneath the unique destination parent
    /// under its own name. An empty source set yields an empty plan;
    /// the error cases are those of [`Self::plan_move_files`].
    pub fn plan_move_directories(
        &self,
        name: Option<&Vec<u8>>,
        sub_path: Option<&Vec<u8>>,
        dest_directory_name: Option<&Vec<u8>>,
        dest_sub_path: Option<&Vec<u8>>,
    ) -> (r: Result<Vec<(Vec<u8>, Vec<u8>)>, IndexError>)
        ensures
            ({
                let srcs = matching_dirs(self@.directories, opt_view(name), opt_view(sub_path));
                let dsts = matching_dirs(
                    self@.directories,
                    opt_view(dest_directory_name),
                    opt_view(dest_sub_path),
                );
                match r {
                    Ok(pairs) => (srcs.len() == 0 && pairs@.len() == 0) || (srcs.len() > 0
                        && dsts.len() == 1 && pairs@.len() == srcs.len() && forall|i: int|
                        0 <= i < srcs.len() ==> (#[trigger] pairs@[i]).0@ == srcs[i].path
                            && basename_of(srcs[i].path).len() > 0 && pairs@[i].1@ == join_seq(
                            dsts[0].path,
                            basename_of(srcs[i].path),
                        )),
                    Err(e) => (e == IndexError::DestinationNotUnique && srcs.len() > 0
                        && dsts.len() != 1) || (e == IndexError::MalformedPath && srcs.len() > 0
                        && dsts.len() == 1 && exists|i: int|
                        0 <= i < srcs.len() && basename_of((#[trigger] srcs[i]).path).len()
                            == 0),
                }
            }),
    {
        let ghost srcs = matching_dirs(self@.directories, opt_view(name), opt_view(sub_path));
        let ghost dsts = matching_dirs(
            self@.directories,
            opt_view(dest_directory_name),
            opt_view(dest_sub_path),
        );
        let sources = self.find_directories(name, sub_path, false);
        if sources.len() == 0 {
            let empty: Vec<(Vec<u8>, Vec<u8>)> = Vec::new();
            return Ok(empty);
        }
        let dests = self.find_directories(dest_directory_name, dest_sub_path, false);
        if dests.len() != 1 {
            return Err(IndexError::DestinationNotUnique);
        }
        let mut pairs: Vec<(Vec<u8>, Vec<u8>)> = Vec::new();
        let mut i: usize = 0;
        while i < sources.len()
            invariant
                i <= sources@.len(),
                srcs == matching_dirs(self@.directories, opt_view(name), opt_view(sub_path)),
                dsts == matching_dirs(
                    self@.directories,
                    opt_view(dest_directory_name),
                    opt_view(dest_sub_path),
                ),
                dir_views(sources@) == srcs,
                dir_views(dests@) == dsts,
                dests@.len() == 1,
                srcs.len() > 0,
                pairs@.len() == i,
                forall|j: int|
                    0 <= j < i ==> (#[trigger] pairs@[j]).0@ == srcs[j].path && basename_of(
                        srcs[j].path,
                    ).len() > 0 && pairs@[j].1@ == join_seq(
                        dsts[0].path,
                        basename_of(srcs[j].path),
                    ),
            decreases sources@.len() - i,
        {
            proof {
                assert(srcs[i as int] == dir_views(sources@)[i as int]);
                assert(dsts[0] == dir_views(dests@)[0]);
            }
            let base = basename(sources[i].path.as_slice());
            if base.len() == 0 {
                proof {
                    assert(basename_of(srcs[i as int].path).len() == 0);
                }
                return Err(IndexError::MalformedPath);
            }
            let np = join(dests[0].path.as_slice(), base.as_slice());
            let op = sources[i].path.clone();
            proof {
                assert(op@ =~= sources[i as int].path@);
            }
            let ghost opv = op@;
            let ghost npv = np@;
            let ghost pairs_pre = pairs@;
            pairs.push((op, np));
            proof {
                assert(base@ == basename_of(srcs[i as int].path));
                assert(npv == join_seq(dsts[0].path, basename_of(srcs[i as int].path)));
                assert(opv == srcs[i as int].path);
                assert forall|j: int|
                    0 <= j < i + 1 implies (#[trigger] pairs@[j]).0@ == srcs[j].path
                    && basename_of(srcs[j].path).len() > 0 && pairs@[j].1@ == join_seq(
                    dsts[0].path,
                    basename_of(srcs[j].path),
                ) by {
                    if j < i {
                        assert(pairs@[j] == pairs_pre[j]);
                    } else {
                        assert(pairs@[j].0@ == opv);
                        assert(pairs@[j].1@ == npv);
                    }
                }
            }
            i = i + 1;
        }
        Ok(pairs)
    }

    /// The files whose contents, as the caller read them, hold
    /// `needle`. The caller hands one entry per indexed file, `None`
    /// where the file could not be read; unreadable files are skipped.
    pub fn find_text_matches(
        &self,
        contents: &Vec<Option<Vec<u8>>>,
        needle: &Vec<u8>,
    ) -> (r: Vec<FileEntry>)
        requires
            contents@.len() == self@.files.len(),
        ensures
            file_views(r@) == text_hits(self@.files, content_views(contents@), needle@),
    {
        let ghost cv = content_views(contents@);
        let mut r: Vec<FileEntry> = Vec::new();
        let mut i: usize = 0;
        proof {
            assert(self@.files.take(0) =~= Seq::<FileView>::empty());
            assert(cv.take(0) =~= Seq::<Option<Seq<u8>>>::empty());
            assert(file_views(r@) =~= Seq::<FileView>::empty());
            assert(text_hits(self@.files.take(0), cv.take(0), needle@) =~= Seq::<
                FileView,
            >::empty());
        }
        while i < self.files.len()
            invariant
                i <= self@.files.len(),
                self@.files.len() == self.files@.len(),
                contents@.len() == self@.files.len(),
                cv == content_views(contents@),
                file_views(r@) == text_hits(self@.files.take(i as int), cv.take(i as int), needle@),
            decreases self@.files.len() - i,
        {
            let ghost r_pre = r@;
            let hit = match &contents[i] {
                Some(c) => contains_sub(c.as_slice(), needle.as_slice()),
                None => false,
            };
            if hit {
                r.push(self.files[i].clone());
            }
            proof {
                assert(cv[i as int] == (match contents@[i as int] {
                    Some(v) => Some(v@),
                    None => None,
                }));
                let nf = self@.files.take(i + 1);
                let nc = cv.take(i + 1);
                assert(nf.drop_last() =~= self@.files.take(i as int));
                assert(nc.drop_last() =~= cv.take(i as int));
                assert(nf.last() == self@.files[i as int]);
                assert(nc.last() == cv[i as int]);
                if hit {
                    assert(file_views(r@) =~= file_views(r_pre).push(self@.files[i as int]));
                } else {
                    assert(file_views(r@) == file_views(r_pre));
                }
                assert(file_views(r@) == text_hits(nf, nc, needle@));
            }
            i = i + 1;
        }
        proof {
            assert(self@.files.take(self@.files.len() as int) =~= self@.files);
            assert(cv.take(self@.files.len() as int) =~= cv);
        }
        r
    }
}

} // verus!
