//! The derived textual view of the index: a recursive, depth-first
//! rendering of the tree, computed from the flat collections.
//!
//! Hierarchy is not stored; a record is a child of a node exactly when
//! its path's parent is the node's path. Each node's line is indented
//! two spaces per level and ends in `/`; a file shows as `name.extension`
//! or a bare `name`. Rendering reads the index and nothing else.

use vstd::prelude::*;

use crate::entries::{DirectoryEntry, DirView, FileEntry, FileView};
use crate::index::DirectoryIndex;
use crate::paths::{basename, basename_of, eq_bytes, has_parent, parent_dir, parent_of};
use crate::sorting::{dir_views, dpaths, file_views, fpaths, sort_dirs, sort_files, sorted_seqs};
use crate::{DOT, SEP};

verus! {

/// The newline byte.
pub const NL: u8 = 10;

/// The space byte.
pub const BLANK: u8 = 32;

/// Two spaces of indentation per level.
pub open spec fn indent(level: nat) -> Seq<u8>
    decreases level,
{
    if level == 0 {
        Seq::empty()
    } else {
        indent((level - 1) as nat) + seq![BLANK, BLANK]
    }
}

/// The name a node displays: its final path component, or the whole
/// path when that component is empty, as for a bare root.
pub open spec fn node_label(current: Seq<u8>) -> Seq<u8> {
    if basename_of(current).len() > 0 {
        basename_of(current)
    } else {
        current
    }
}

/// The name a file displays: `name.extension`, or the bare name when
/// the extension is empty.
pub open spec fn display_name(f: FileView) -> Seq<u8> {
    if f.extension.len() == 0 {
        f.name
    } else {
        f.name + seq![DOT] + f.extension
    }
}

/// The directories whose computed parent is `current`, in index order.
pub open spec fn child_dirs(dirs: Seq<DirView>, current: Seq<u8>) -> Seq<DirView> {
    dirs.filter(|d: DirView| has_parent(d.path) && parent_of(d.path) == current)
}

/// The files whose computed parent is `current`, in index order.
pub open spec fn child_files(files: Seq<FileView>, current: Seq<u8>) -> Seq<FileView> {
    files.filter(|f: FileView| has_parent(f.path) && parent_of(f.path) == current)
}

/// The lines of the files `fs`, each indented to `level`.
pub open spec fn spec_file_lines(fs: Seq<FileView>, level: nat) -> Seq<u8>
    decreases fs.len(),
{
    if fs.len() == 0 {
        Seq::empty()
    } else {
        spec_file_lines(fs.drop_last(), level) + indent(level) + display_name(fs.last()) + seq![
            NL,
        ]
    }
}

/// The rendering of the node at `current`: its own line, then its child
/// directories rendered recursively, then its child files. `fuel`
/// bounds the recursion depth; a child node's path is strictly longer
/// than its parent's, so any fuel beyond the longest directory path
/// renders the whole tree.
pub open spec fn spec_render_node(
    dirs: Seq<DirView>,
    files: Seq<FileView>,
    current: Seq<u8>,
    level: nat,
    fuel: nat,
) -> Seq<u8>
    decreases fuel, 0nat, 0nat,
{
    if fuel == 0 {
        Seq::empty()
    } else {
        indent(level) + node_label(current) + seq![SEP, NL] + spec_render_list(
            dirs,
            files,
            child_dirs(dirs, current),
            (level + 1) as nat,
            (fuel - 1) as nat,
        ) + spec_file_lines(child_files(files, current), (level + 1) as nat)
    }
}

/// The renderings of the nodes of `cs`, in order.
pub open spec fn spec_render_list(
    dirs: Seq<DirView>,
    files: Seq<FileView>,
    cs: Seq<DirView>,
    level: nat,
    fuel: nat,
) -> Seq<u8>
    decreases fuel, 1nat, cs.len(),
{
    if cs.len() == 0 {
        Seq::empty()
    } else {
        spec_render_list(dirs, files, cs.drop_last(), level, fuel) + spec_render_node(
            dirs,
            files,
            cs.last().path,
            level,
            fuel,
        )
    }
}

/// Two spaces per level.
fn indent_exec(level: usize) -> (r: Vec<u8>)
    ensures
        r@ == indent(level as nat),
{
    let mut out: Vec<u8> = Vec::new();
    let mut k: usize = 0;
    proof {
        assert(out@ =~= indent(0));
    }
    while k < level
        invariant
            k <= level,
            out@ == indent(k as nat),
        decreases level - k,
    {
        out.push(BLANK);
        out.push(BLANK);
        k = k + 1;
    }
    out
}

/// The rendering of the node at `current`, against the given
/// collections.
pub fn render_node(
    dirs: &Vec<DirectoryEntry>,
    files: &Vec<FileEntry>,
    current: &Vec<u8>,
    level: usize,
    fuel: usize,
) -> (r: Vec<u8>)
    requires
        level + fuel <= usize::MAX,
    ensures
        r@ == spec_render_node(
            dir_views(dirs@),
            file_views(files@),
            current@,
            level as nat,
            fuel as nat,
        ),
    decreases fuel,
{
    let mut out: Vec<u8> = Vec::new();
    if fuel == 0 {
        proof {
            assert(out@ =~= spec_render_node(
                dir_views(dirs@),
                file_views(files@),
                current@,
                level as nat,
                fuel as nat,
            ));
        }
        return out;
    }
    let ghost dv = dir_views(dirs@);
    let ghost fv = file_views(files@);
    let pad = indent_exec(level);
    out.extend_from_slice(pad.as_slice());
    let label = basename(current.as_slice());
    if label.len() > 0 {
        out.extend_from_slice(label.as_slice());
    } else {
        out.extend_from_slice(current.as_slice());
    }
    out.push(SEP);
    out.push(NL);
    let ghost line = indent(level as nat) + node_label(current@) + seq![SEP, NL];
    proof {
        assert(out@ =~= line);
        reveal(Seq::filter);
        assert(dv.take(0) =~= Seq::<DirView>::empty());
        assert(child_dirs(dv.take(0), current@) =~= Seq::<DirView>::empty());
        assert(out@ =~= line + spec_render_list(
            dv,
            fv,
            child_dirs(dv.take(0), current@),
            (level + 1) as nat,
            (fuel - 1) as nat,
        ));
    }
    let mut i: usize = 0;
    while i < dirs.len()
        invariant
            i <= dirs@.len(),
            level + fuel <= usize::MAX,
            fuel >= 1,
            dv == dir_views(dirs@),
            fv == file_views(files@),
            out@ == line + spec_render_list(
                dv,
                fv,
                child_dirs(dv.take(i as int), current@),
                (level + 1) as nat,
                (fuel - 1) as nat,
            ),
        decreases dirs@.len() - i,
    {
        let ghost out_pre = out@;
        let is_child = match parent_dir(dirs[i].path.as_slice()) {
            Some(p) => eq_bytes(p.as_slice(), current.as_slice()),
            None => false,
        };
        if is_child {
            let sub = render_node(dirs, files, &dirs[i].path, level + 1, fuel - 1);
            out.extend_from_slice(sub.as_slice());
        }
        proof {
            reveal(Seq::filter);
            let now = dv.take(i + 1);
            assert(now.drop_last() =~= dv.take(i as int));
            assert(now.last() == dv[i as int]);
            let cs_pre = child_dirs(dv.take(i as int), current@);
            let cs_now = child_dirs(now, current@);
            if has_parent(dv[i as int].path) && parent_of(dv[i as int].path) == current@ {
                assert(cs_now == cs_pre.push(dv[i as int]));
                assert(cs_now.drop_last() =~= cs_pre);
                assert(out@ =~= out_pre + spec_render_node(
                    dv,
                    fv,
                    dv[i as int].path,
                    (level + 1) as nat,
                    (fuel - 1) as nat,
                ));
            } else {
                assert(cs_now == cs_pre);
                assert(out@ == out_pre);
            }
            assert(out@ =~= line + spec_render_list(
                dv,
                fv,
                cs_now,
                (level + 1) as nat,
                (fuel - 1) as nat,
            ));
        }
        i = i + 1;
    }
    proof {
        assert(dv.take(dirs@.len() as int) =~= dv);
        reveal(Seq::filter);
        assert(fv.take(0) =~= Seq::<FileView>::empty());
        assert(child_files(fv.take(0), current@) =~= Seq::<FileView>::empty());
        assert(spec_file_lines(child_files(fv.take(0), current@), (level + 1) as nat) =~= Seq::<
            u8,
        >::empty());
    }
    let ghost mid = line + spec_render_list(
        dv,
        fv,
        child_dirs(dv, current@),
        (level + 1) as nat,
        (fuel - 1) as nat,
    );
    let mut j: usize = 0;
    while j < files.len()
        invariant
            j <= files@.len(),
            level + fuel <= usize::MAX,
            fuel >= 1,
            dv == dir_views(dirs@),
            fv == file_views(files@),
            out@ == mid + spec_file_lines(
                child_files(fv.take(j as int), current@),
                (level + 1) as nat,
            ),
        decreases files@.len() - j,
    {
        let ghost out_pre = out@;
        let is_child = match parent_dir(files[j].path.as_slice()) {
            Some(p) => eq_bytes(p.as_slice(), current.as_slice()),
            None => false,
        };
        if is_child {
            let pad2 = indent_exec(level + 1);
            out.extend_from_slice(pad2.as_slice());
            out.extend_from_slice(files[j].name.as_slice());
            if files[j].extension.len() > 0 {
                out.push(DOT);
                out.extend_from_slice(files[j].extension.as_slice());
            }
            out.push(NL);
        }
        proof {
            reveal(Seq::filter);
            let now = fv.take(j + 1);
            assert(now.drop_last() =~= fv.take(j as int));
            assert(now.last() == fv[j as int]);
            let cs_pre = child_files(fv.take(j as int), current@);
            let cs_now = child_files(now, current@);
            if has_parent(fv[j as int].path) && parent_of(fv[j as int].path) == current@ {
                assert(cs_now == cs_pre.push(fv[j as int]));
                assert(cs_now.drop_last() =~= cs_pre);
                assert(out@ =~= out_pre + indent((level + 1) as nat) + display_name(
                    fv[j as int],
                ) + seq![NL]);
            } else {
                assert(cs_now == cs_pre);
                assert(out@ == out_pre);
            }
            assert(out@ =~= mid + spec_file_lines(cs_now, (level + 1) as nat));
        }
        j = j + 1;
    }
    proof {
        assert(fv.take(files@.len() as int) =~= fv);
        assert(out@ =~= spec_render_node(dv, fv, current@, level as nat, fuel as nat));
    }
    out
}

impl DirectoryIndex {
    /// The rendered tree: the root node and, recursively, every indexed
    /// directory and file beneath it, children sorted by path, indented
    /// two spaces per level. The records are first sorted by path; the
    /// fuel bound exceeds every directory path's length, so the whole
    /// tree is rendered.
    pub fn render_tree(&self) -> (r: Vec<u8>)
        ensures
            exists|sd: Seq<DirView>, sf: Seq<FileView>, fuel: nat|
                {
                    &&& sd.to_multiset() == self@.directories.to_multiset()
                    &&& sf.to_multiset() == self@.files.to_multiset()
                    &&& sorted_seqs(dpaths(sd))
                    &&& sorted_seqs(fpaths(sf))
                    &&& fuel > 0
                    &&& (forall|k: int|
                        0 <= k < sd.len() ==> (#[trigger] sd[k]).path.len() + 2 <= fuel || fuel
                            == usize::MAX)
                    &&& r@ == spec_render_node(sd, sf, self@.root_path, 0, fuel)
                },
    {
        let dirs = sort_dirs(clone_dirs(&self.directories));
        let files = sort_files(clone_file_recs(&self.files));
        let mut max: usize = 0;
        let mut i: usize = 0;
        while i < dirs.len()
            invariant
                i <= dirs@.len(),
                forall|k: int| 0 <= k < i ==> (#[trigger] dir_views(dirs@)[k]).path.len() <= max,
            decreases dirs@.len() - i,
        {
            let pl = dirs[i].path.len();
            if pl > max {
                max = pl;
            }
            proof {
                assert(dir_views(dirs@)[i as int].path.len() == dirs@[i as int].path@.len());
            }
            i = i + 1;
        }
        let fuel = if max <= usize::MAX - 2 {
            max + 2
        } else {
            usize::MAX
        };
        let r = render_node(&dirs, &files, &self.root_path, 0, fuel);
        proof {
            let sd = dir_views(dirs@);
            let sf = file_views(files@);
            assert(forall|k: int|
                0 <= k < sd.len() ==> (#[trigger] sd[k]).path.len() + 2 <= fuel || fuel
                    == usize::MAX);
            assert(r@ == spec_render_node(sd, sf, self@.root_path, 0, fuel as nat));
        }
        r
    }
}

/// Clones a file record list.
fn clone_file_recs(v: &Vec<FileEntry>) -> (r: Vec<FileEntry>)
    ensures
        file_views(r@) == file_views(v@),
{
    let mut out: Vec<FileEntry> = Vec::new();
    let mut i: usize = 0;
    while i < v.len()
        invariant
            i <= v@.len(),
            out@.len() == i,
            forall|j: int| 0 <= j < i ==> #[trigger] file_views(out@)[j] == file_views(v@)[j],
        decreases v@.len() - i,
    {
        let ghost out_pre = out@;
        let c = v[i].clone();
        let ghost cv = c@;
        out.push(c);
        proof {
            assert(file_views(out@) =~= file_views(out_pre).push(cv));
            assert forall|j: int|
                0 <= j < i + 1 implies #[trigger] file_views(out@)[j] == file_views(v@)[j] by {
                if j < i {
                    assert(file_views(out@)[j] == file_views(out_pre)[j]);
                }
            }
        }
        i = i + 1;
    }
    proof {
        assert(file_views(out@) =~= file_views(v@));
    }
    out
}

/// Clones a directory record list.
fn clone_dirs(v: &Vec<DirectoryEntry>) -> (r: Vec<DirectoryEntry>)
    ensures
        dir_views(r@) == dir_views(v@),
{
    let mut out: Vec<DirectoryEntry> = Vec::new();
    let mut i: usize = 0;
    while i < v.len()
        invariant
            i <= v@.len(),
            out@.len() == i,
            forall|j: int| 0 <= j < i ==> #[trigger] dir_views(out@)[j] == dir_views(v@)[j],
        decreases v@.len() - i,
    {
        let ghost out_pre = out@;
        let c = v[i].clone();
        let ghost cv = c@;
        out.push(c);
        proof {
            assert(dir_views(out@) =~= dir_views(out_pre).push(cv));
            assert forall|j: int|
                0 <= j < i + 1 implies #[trigger] dir_views(out@)[j] == dir_views(v@)[j] by {
                if j < i {
                    assert(dir_views(out@)[j] == dir_views(out_pre)[j]);
                }
            }
        }
        i = i + 1;
    }
    proof {
        assert(dir_views(out@) =~= dir_views(v@));
    }
    out
}

} // verus!
