//! The records the index keeps: one per file, one per directory.
//!
//! A record's `path` is its identity; `name` and `extension` are derived
//! from the path's final component and kept consistent with it, which the
//! well-formedness predicates below pin down.

use vstd::prelude::*;

use crate::paths::{basename, file_ext_of, file_stem_of, basename_of, split_name};

verus! {

/// The mathematical value of a [`FileEntry`].
pub ghost struct FileView {
    pub path: Seq<u8>,
    pub name: Seq<u8>,
    pub extension: Seq<u8>,
    pub size: u64,
}

impl FileView {
    /// `name` and `extension` agree with the final component of `path`.
    pub open spec fn wf(self) -> bool {
        self.name == file_stem_of(self.path) && self.extension == file_ext_of(self.path)
    }
}

/// One regular file: its canonical path, the stem and extension of its
/// file name, and its size in bytes as of the last refresh.
pub struct FileEntry {
    pub path: Vec<u8>,
    pub name: Vec<u8>,
    pub extension: Vec<u8>,
    pub size: u64,
}

impl View for FileEntry {
    type V = FileView;

    open spec fn view(&self) -> FileView {
        FileView { path: self.path@, name: self.name@, extension: self.extension@, size: self.size }
    }
}

impl Clone for FileEntry {
    fn clone(&self) -> (r: Self)
        ensures
            r@ == self@,
    {
        let r = FileEntry {
            path: self.path.clone(),
            name: self.name.clone(),
            extension: self.extension.clone(),
            size: self.size,
        };
        proof {
            assert(r.path@ =~= self.path@);
            assert(r.name@ =~= self.name@);
            assert(r.extension@ =~= self.extension@);
        }
        r
    }
}

impl FileEntry {
    /// Builds the record for the file at `path`, deriving stem and
    /// extension from the path's final component. The size is a snapshot
    /// the caller read from the filesystem.
    pub fn new(path: Vec<u8>, size: u64) -> (r: FileEntry)
        ensures
            r@.path == path@,
            r@.size == size,
            r@.wf(),
    {
        let base = basename(path.as_slice());
        let (name, extension) = split_name(base.as_slice());
        FileEntry { path, name, extension, size }
    }
}

/// The mathematical value of a [`DirectoryEntry`].
pub ghost struct DirView {
    pub path: Seq<u8>,
    pub name: Seq<u8>,
}

impl DirView {
    /// `name` is the final component of `path`.
    pub open spec fn wf(self) -> bool {
        self.name == basename_of(self.path)
    }
}

/// One directory: its canonical path and final component.
pub struct DirectoryEntry {
    pub path: Vec<u8>,
    pub name: Vec<u8>,
}

impl View for DirectoryEntry {
    type V = DirView;

    open spec fn view(&self) -> DirView {
        DirView { path: self.path@, name: self.name@ }
    }
}

impl Clone for DirectoryEntry {
    fn clone(&self) -> (r: Self)
        ensures
            r@ == self@,
    {
        let r = DirectoryEntry { path: self.path.clone(), name: self.name.clone() };
        proof {
            assert(r.path@ =~= self.path@);
            assert(r.name@ =~= self.name@);
        }
        r
    }
}

impl DirectoryEntry {
    /// Builds the record for the directory at `path`.
    pub fn new(path: Vec<u8>) -> (r: DirectoryEntry)
        ensures
            r@.path == path@,
            r@.wf(),
    {
        let name = basename(path.as_slice());
        DirectoryEntry { path, name }
    }
}

/// One entry of a filesystem walk, as the traversal reports it: the path,
/// whether it is a directory, and (for files) the size read from its
/// metadata.
pub struct RawEntry {
    pub path: Vec<u8>,
    pub is_dir: bool,
    pub size: u64,
}

/// The mathematical value of a [`RawEntry`].
pub ghost struct RawView {
    pub path: Seq<u8>,
    pub is_dir: bool,
    pub size: u64,
}

impl View for RawEntry {
    type V = RawView;

    open spec fn view(&self) -> RawView {
        RawView { path: self.path@, is_dir: self.is_dir, size: self.size }
    }
}

impl RawEntry {
    /// Packs up one walk entry.
    pub fn new(path: Vec<u8>, is_dir: bool, size: u64) -> (r: RawEntry)
        ensures
            r@.path == path@,
            r@.is_dir == is_dir,
            r@.size == size,
    {
        RawEntry { path, is_dir, size }
    }
}

} // verus!
