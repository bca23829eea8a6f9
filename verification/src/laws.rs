//! What holds of the index as a whole: the filter is respected by
//! everything population records, population is reproducible, deletion
//! cascades completely, renames round-trip through lookup, and a
//! subtree move rewrites exactly the paths beneath the moved root.
//!
//! Each statement here is proved from the contracts of the functions it
//! speaks about, over their mathematical models.

use vstd::prelude::*;

use crate::entries::{DirView, FileView};
use crate::filter::{accepted, ignored_component_in, passes_targets, FilterView};
use crate::index::{
    dirs_of, dirs_outside, file_after_move, file_matches, files_of, files_outside,
    first_file_match_at, first_path_at, moved_view, under_any, IndexView,
};
use crate::paths::{
    basename_of, file_ext_of, file_stem_of, has_component, has_parent, is_strict_under, is_under,
    join_seq, lower, parent_of, rel_to,
};
use crate::sorting::{dpaths, fpaths, lemma_sorted_strict_unique, lemma_sorted_unique, sorted_seqs};
use crate::SEP;

verus! {

broadcast use vstd::seq_lib::group_to_multiset_ensures;

/// Every file record a walk yields lies strictly beneath the root and
/// was accepted by the filter.
pub proof fn lemma_files_of_accepted(entries: Seq<crate::entries::RawView>, root: Seq<u8>, f: FilterView)
    ensures
        forall|k: int|
            0 <= k < files_of(entries, root, f).len() ==> is_strict_under(
                (#[trigger] files_of(entries, root, f)[k]).path,
                root,
            ) && accepted(f, root, files_of(entries, root, f)[k].path, false),
    decreases entries.len(),
{
    if entries.len() > 0 {
        lemma_files_of_accepted(entries.drop_last(), root, f);
        let rest = files_of(entries.drop_last(), root, f);
        let whole = files_of(entries, root, f);
        assert forall|k: int|
            0 <= k < whole.len() implies is_strict_under((#[trigger] whole[k]).path, root)
            && accepted(f, root, whole[k].path, false) by {
            if k < rest.len() {
                assert(whole[k] == rest[k]);
            }
        }
    }
}

/// Every directory record a walk yields lies strictly beneath the root
/// and was accepted by the filter.
pub proof fn lemma_dirs_of_accepted(entries: Seq<crate::entries::RawView>, root: Seq<u8>, f: FilterView)
    ensures
        forall|k: int|
            0 <= k < dirs_of(entries, root, f).len() ==> is_strict_under(
                (#[trigger] dirs_of(entries, root, f)[k]).path,
                root,
            ) && accepted(f, root, dirs_of(entries, root, f)[k].path, true),
    decreases entries.len(),
{
    if entries.len() > 0 {
        lemma_dirs_of_accepted(entries.drop_last(), root, f);
        let rest = dirs_of(entries.drop_last(), root, f);
        let whole = dirs_of(entries, root, f);
        assert forall|k: int|
            0 <= k < whole.len() implies is_strict_under((#[trigger] whole[k]).path, root)
            && accepted(f, root, whole[k].path, true) by {
            if k < rest.len() {
                assert(whole[k] == rest[k]);
            }
        }
    }
}

/// No record of a populated index has a path component, relative to the
/// root and lowered, among the configured ignored components — neither
/// a file nor a directory.
pub proof fn lemma_no_ignored_components(
    post: IndexView,
    entries: Seq<crate::entries::RawView>,
    root: Seq<u8>,
    f: FilterView,
)
    requires
        post.files.to_multiset() == files_of(entries, root, f).to_multiset(),
        post.directories.to_multiset() == dirs_of(entries, root, f).to_multiset(),
    ensures
        forall|k: int, i: int|
            0 <= k < post.files.len() && 0 <= i < f.ignore_path_components.len()
                ==> !has_component(
                lower(rel_to((#[trigger] post.files[k]).path, root)),
                #[trigger] f.ignore_path_components[i],
            ),
        forall|k: int, i: int|
            0 <= k < post.directories.len() && 0 <= i < f.ignore_path_components.len()
                ==> !has_component(
                lower(rel_to((#[trigger] post.directories[k]).path, root)),
                #[trigger] f.ignore_path_components[i],
            ),
{
    lemma_files_of_accepted(entries, root, f);
    lemma_dirs_of_accepted(entries, root, f);
    assert forall|k: int, i: int|
        0 <= k < post.files.len() && 0 <= i < f.ignore_path_components.len() implies !has_component(
        lower(rel_to((#[trigger] post.files[k]).path, root)),
        #[trigger] f.ignore_path_components[i],
    ) by {
        assert(post.files.contains(post.files[k]));
        assert(post.files.to_multiset().count(post.files[k]) > 0);
        assert(files_of(entries, root, f).to_multiset().count(post.files[k]) > 0);
        assert(files_of(entries, root, f).contains(post.files[k]));
        let j = choose|j: int|
            0 <= j < files_of(entries, root, f).len() && files_of(entries, root, f)[j]
                == post.files[k];
        assert(accepted(f, root, post.files[k].path, false));
        assert(!ignored_component_in(f, rel_to(post.files[k].path, root)));
    }
    assert forall|k: int, i: int|
        0 <= k < post.directories.len() && 0 <= i
            < f.ignore_path_components.len() implies !has_component(
        lower(rel_to((#[trigger] post.directories[k]).path, root)),
        #[trigger] f.ignore_path_components[i],
    ) by {
        assert(post.directories.contains(post.directories[k]));
        assert(post.directories.to_multiset().count(post.directories[k]) > 0);
        assert(dirs_of(entries, root, f).to_multiset().count(post.directories[k]) > 0);
        assert(dirs_of(entries, root, f).contains(post.directories[k]));
        let j = choose|j: int|
            0 <= j < dirs_of(entries, root, f).len() && dirs_of(entries, root, f)[j]
                == post.directories[k];
        assert(accepted(f, root, post.directories[k].path, true));
        assert(!ignored_component_in(f, rel_to(post.directories[k].path, root)));
    }
}

/// When extension or exact-name criteria are configured, every file a
/// populated index holds satisfies them: its lowered name passes the
/// target rules of the filter.
pub proof fn lemma_targets_respected(
    post: IndexView,
    entries: Seq<crate::entries::RawView>,
    root: Seq<u8>,
    f: FilterView,
)
    requires
        post.files.to_multiset() == files_of(entries, root, f).to_multiset(),
    ensures
        forall|k: int|
            0 <= k < post.files.len() ==> passes_targets(
                f,
                lower(basename_of((#[trigger] post.files[k]).path)),
            ),
{
    lemma_files_of_accepted(entries, root, f);
    assert forall|k: int|
        0 <= k < post.files.len() implies passes_targets(
        f,
        lower(basename_of((#[trigger] post.files[k]).path)),
    ) by {
        assert(post.files.contains(post.files[k]));
        assert(post.files.to_multiset().count(post.files[k]) > 0);
        assert(files_of(entries, root, f).to_multiset().count(post.files[k]) > 0);
        assert(files_of(entries, root, f).contains(post.files[k]));
        let j = choose|j: int|
            0 <= j < files_of(entries, root, f).len() && files_of(entries, root, f)[j]
                == post.files[k];
        assert(accepted(f, root, post.files[k].path, false));
    }
}

/// Populating twice over the same walk gives identical collections:
/// the sorted path sequences of directories and files, and the
/// extension registry, are each determined by the walk alone.
pub proof fn lemma_populate_deterministic(
    a: IndexView,
    b: IndexView,
    entries: Seq<crate::entries::RawView>,
    root: Seq<u8>,
    f: FilterView,
)
    requires
        a.wf(),
        b.wf(),
        sorted_seqs(fpaths(a.files)),
        sorted_seqs(fpaths(b.files)),
        sorted_seqs(dpaths(a.directories)),
        sorted_seqs(dpaths(b.directories)),
        a.files.to_multiset() == files_of(entries, root, f).to_multiset(),
        b.files.to_multiset() == files_of(entries, root, f).to_multiset(),
        fpaths(a.files).to_multiset() == fpaths(files_of(entries, root, f)).to_multiset(),
        fpaths(b.files).to_multiset() == fpaths(files_of(entries, root, f)).to_multiset(),
        dpaths(a.directories).to_multiset() == dpaths(dirs_of(entries, root, f)).to_multiset(),
        dpaths(b.directories).to_multiset() == dpaths(dirs_of(entries, root, f)).to_multiset(),
    ensures
        fpaths(a.files) == fpaths(b.files),
        dpaths(a.directories) == dpaths(b.directories),
        a.extensions == b.extensions,
{
    lemma_sorted_unique(fpaths(a.files), fpaths(b.files));
    lemma_sorted_unique(dpaths(a.directories), dpaths(b.directories));
    assert forall|x: Seq<u8>| a.extensions.contains(x) <==> b.extensions.contains(x) by {
        if a.extensions.contains(x) {
            let i = choose|i: int| 0 <= i < a.files.len() && #[trigger] a.files[i].extension == x;
            assert(a.files.contains(a.files[i]));
            assert(a.files.to_multiset().count(a.files[i]) > 0);
            assert(b.files.to_multiset().count(a.files[i]) > 0);
            assert(b.files.contains(a.files[i]));
            let j = choose|j: int| 0 <= j < b.files.len() && b.files[j] == a.files[i];
            assert(b.files[j].extension == x);
        }
        if b.extensions.contains(x) {
            let i = choose|i: int| 0 <= i < b.files.len() && #[trigger] b.files[i].extension == x;
            assert(b.files.contains(b.files[i]));
            assert(b.files.to_multiset().count(b.files[i]) > 0);
            assert(a.files.to_multiset().count(b.files[i]) > 0);
            assert(a.files.contains(b.files[i]));
            let j = choose|j: int| 0 <= j < a.files.len() && a.files[j] == b.files[i];
            assert(a.files[j].extension == x);
        }
    }
    lemma_sorted_strict_unique(a.extensions, b.extensions);
}

/// After a rename, looking the file up by its new stem finds the
/// renamed record, with path, name and extension agreeing with the new
/// full name; looking it up by the old stem finds nothing, provided the
/// stems were unique beforehand.
pub proof fn lemma_rename_round_trip(
    pre: Seq<FileView>,
    post: Seq<FileView>,
    k: int,
    old_path: Seq<u8>,
    new_path: Seq<u8>,
    new_full_name: Seq<u8>,
)
    requires
        forall|j: int| 0 <= j < pre.len() ==> (#[trigger] pre[j]).wf(),
        first_path_at(pre, old_path, k),
        post == pre.update(k, moved_view(pre[k], new_path)),
        has_parent(old_path),
        new_path == join_seq(parent_of(old_path), new_full_name),
        forall|j: int|
            0 <= j < pre.len() && j != k ==> (#[trigger] pre[j]).name != file_stem_of(new_path),
    ensures
        first_file_match_at(post, Some(file_stem_of(new_path)), None, None, k),
        post[k].path == new_path,
        post[k].name == file_stem_of(new_path),
        post[k].extension == file_ext_of(new_path),
        (pre[k].name != file_stem_of(new_path) && forall|j: int|
            0 <= j < pre.len() && j != k ==> (#[trigger] pre[j]).name != pre[k].name) ==> forall|
        j: int|
            0 <= j < post.len() ==> !file_matches(
                #[trigger] post[j],
                Some(pre[k].name),
                None,
                None,
            ),
{
    assert(post[k] == moved_view(pre[k], new_path));
    assert forall|j: int| 0 <= j < k implies !file_matches(
        #[trigger] post[j],
        Some(file_stem_of(new_path)),
        None,
        None,
    ) by {
        assert(post[j] == pre[j]);
    }
    if pre[k].name != file_stem_of(new_path) && forall|j: int|
        0 <= j < pre.len() && j != k ==> (#[trigger] pre[j]).name != pre[k].name {
        assert forall|j: int| 0 <= j < post.len() implies !file_matches(
            #[trigger] post[j],
            Some(pre[k].name),
            None,
            None,
        ) by {
            if j != k {
                assert(post[j] == pre[j]);
            }
        }
    }
}

/// How many directory records lie at or beneath `d`.
pub open spec fn count_dirs_under(dirs: Seq<DirView>, d: Seq<u8>) -> nat
    decreases dirs.len(),
{
    if dirs.len() == 0 {
        0
    } else {
        count_dirs_under(dirs.drop_last(), d) + (if is_under(dirs.last().path, d) {
            1nat
        } else {
            0nat
        })
    }
}

/// How many file records lie at or beneath `d`.
pub open spec fn count_files_under(files: Seq<FileView>, d: Seq<u8>) -> nat
    decreases files.len(),
{
    if files.len() == 0 {
        0
    } else {
        count_files_under(files.drop_last(), d) + (if is_under(files.last().path, d) {
            1nat
        } else {
            0nat
        })
    }
}

/// Deleting the directory at `d` removes exactly the records at or
/// beneath `d` — the directory itself, its subdirectories and its
/// files — and nothing that remains lies beneath `d`.
pub proof fn lemma_cascade_counts(dirs: Seq<DirView>, files: Seq<FileView>, d: Seq<u8>)
    ensures
        dirs_outside(dirs, seq![d]).len() + count_dirs_under(dirs, d) == dirs.len(),
        files_outside(files, seq![d]).len() + count_files_under(files, d) == files.len(),
        forall|k: int|
            0 <= k < dirs_outside(dirs, seq![d]).len() ==> !is_under(
                (#[trigger] dirs_outside(dirs, seq![d])[k]).path,
                d,
            ),
        forall|k: int|
            0 <= k < files_outside(files, seq![d]).len() ==> !is_under(
                (#[trigger] files_outside(files, seq![d])[k]).path,
                d,
            ),
    decreases dirs.len() + files.len(),
{
    reveal(Seq::filter);
    assert forall|p: Seq<u8>| under_any(p, seq![d]) == is_under(p, d) by {
        if under_any(p, seq![d]) {
            let i = choose|i: int| 0 <= i < seq![d].len() && is_under(p, seq![d][i]);
            assert(seq![d][i] == d);
        }
        if is_under(p, d) {
            assert(seq![d][0] == d);
            assert(under_any(p, seq![d]));
        }
    }
    if dirs.len() > 0 {
        lemma_cascade_counts(dirs.drop_last(), files, d);
        let rest = dirs_outside(dirs.drop_last(), seq![d]);
        let whole = dirs_outside(dirs, seq![d]);
        assert forall|k: int| 0 <= k < whole.len() implies !is_under(
            (#[trigger] whole[k]).path,
            d,
        ) by {
            if k < rest.len() {
                assert(whole[k] == rest[k]);
            }
        }
    } else if files.len() > 0 {
        lemma_cascade_counts(dirs, files.drop_last(), d);
        assert(dirs_outside(dirs, seq![d]) =~= Seq::<DirView>::empty());
        let rest = files_outside(files.drop_last(), seq![d]);
        let whole = files_outside(files, seq![d]);
        assert forall|k: int| 0 <= k < whole.len() implies !is_under(
            (#[trigger] whole[k]).path,
            d,
        ) by {
            if k < rest.len() {
                assert(whole[k] == rest[k]);
            }
        }
    } else {
        assert(dirs_outside(dirs, seq![d]) =~= Seq::<DirView>::empty());
        assert(files_outside(files, seq![d]) =~= Seq::<FileView>::empty());
    }
}

/// After a subtree move from `d` to `nd`, the file that stood at
/// `d/suffix` stands at `nd/suffix`, and its old path is held by no
/// record — provided paths were unique and the destination does not lie
/// on the moved subtree's own line.
pub proof fn lemma_move_updates_nested_file(
    pre: Seq<FileView>,
    post: Seq<FileView>,
    d: Seq<u8>,
    nd: Seq<u8>,
    k: int,
)
    requires
        post.len() == pre.len(),
        forall|j: int| 0 <= j < pre.len() ==> post[j] == file_after_move(#[trigger] pre[j], d, nd),
        0 <= k < pre.len(),
        is_strict_under(pre[k].path, d),
        d.len() > 0,
        d[d.len() - 1] != SEP,
        nd.len() > 0,
        nd[nd.len() - 1] != SEP,
        !is_under(nd, d),
        !is_under(d, nd),
        forall|j: int| 0 <= j < pre.len() && j != k ==> (#[trigger] pre[j]).path != pre[k].path,
    ensures
        post[k].path == nd + pre[k].path.skip(d.len() as int),
        forall|j: int| 0 <= j < post.len() ==> (#[trigger] post[j]).path != pre[k].path,
{
    assert(post[k] == file_after_move(pre[k], d, nd));
    assert forall|j: int| 0 <= j < post.len() implies (#[trigger] post[j]).path
        != pre[k].path by {
        assert(post[j] == file_after_move(pre[j], d, nd));
        if is_strict_under(pre[j].path, d) {
            let sj = pre[j].path.skip(d.len() as int);
            assert(sj[0] == pre[j].path[d.len() as int]);
            assert(sj[0] == SEP);
            let sk = pre[k].path.skip(d.len() as int);
            assert(sk[0] == pre[k].path[d.len() as int]);
            assert(sk[0] == SEP);
            if post[j].path == pre[k].path {
                let p = pre[k].path;
                assert(p == nd + sj);
                assert(p.subrange(0, nd.len() as int) =~= nd);
                assert(p.subrange(0, d.len() as int) == d);
                if nd.len() == d.len() {
                    assert(nd =~= d);
                    assert(false);
                } else if nd.len() < d.len() {
                    assert(d.subrange(0, nd.len() as int) =~= nd) by {
                        assert forall|m: int| 0 <= m < nd.len() implies d[m] == nd[m] by {
                            assert(d[m] == p[m]);
                        }
                    }
                    assert(d[nd.len() as int] == p[nd.len() as int]);
                    assert(p[nd.len() as int] == sj[0]);
                    assert(is_strict_under(d, nd));
                    assert(false);
                } else {
                    assert(nd.subrange(0, d.len() as int) =~= d) by {
                        assert forall|m: int| 0 <= m < d.len() implies nd[m] == d[m] by {
                            assert(nd[m] == p[m]);
                        }
                    }
                    assert(nd[d.len() as int] == p[d.len() as int]);
                    assert(p[d.len() as int] == sk[0]);
                    assert(is_strict_under(nd, d));
                    assert(false);
                }
            }
        } else {
            assert(post[j].path == pre[j].path);
            if j != k {
                assert(pre[j].path != pre[k].path);
            } else {
                assert(false);
            }
        }
    }
}

/// Two file collections sorted by path and holding the same records
/// are the same sequence, when no path occurs twice. With the sort's
/// own guarantees this pins the sorted collections — and with them the
/// rendered tree — for any index whose paths are unique.
pub proof fn lemma_sorted_files_unique(a: Seq<FileView>, b: Seq<FileView>)
    requires
        sorted_seqs(fpaths(a)),
        sorted_seqs(fpaths(b)),
        a.to_multiset() == b.to_multiset(),
        forall|i: int, j: int| 0 <= i < j < a.len() ==> a[i].path != a[j].path,
    ensures
        a == b,
    decreases a.len(),
{
    assert(a.len() == a.to_multiset().len());
    assert(b.len() == b.to_multiset().len());
    if a.len() == 0 {
        assert(a =~= b);
    } else {
        assert(a.contains(a[0]));
        assert(a.to_multiset().count(a[0]) > 0);
        assert(b.to_multiset().count(a[0]) > 0);
        assert(b.contains(a[0]));
        assert(b.contains(b[0]));
        assert(b.to_multiset().count(b[0]) > 0);
        assert(a.to_multiset().count(b[0]) > 0);
        assert(a.contains(b[0]));
        let ka = choose|k: int| 0 <= k < b.len() && b[k] == a[0];
        let kb = choose|k: int| 0 <= k < a.len() && a[k] == b[0];
        crate::paths::lemma_lex_refl(a[0].path);
        crate::paths::lemma_lex_refl(b[0].path);
        if ka > 0 {
            assert(crate::paths::lex_le(fpaths(b)[0], fpaths(b)[ka]));
        }
        if kb > 0 {
            assert(crate::paths::lex_le(fpaths(a)[0], fpaths(a)[kb]));
        }
        assert(crate::paths::lex_le(a[0].path, b[0].path));
        assert(crate::paths::lex_le(b[0].path, a[0].path));
        crate::paths::lemma_lex_antisym(a[0].path, b[0].path);
        assert(a[0].path == b[0].path);
        if kb > 0 {
            assert(a[0].path != a[kb].path);
            assert(false);
        }
        assert(a[0] == b[0]);
        assert(a.remove(0).to_multiset() == a.to_multiset().remove(a[0]));
        assert(b.remove(0).to_multiset() == b.to_multiset().remove(b[0]));
        assert(a.remove(0) =~= a.drop_first());
        assert(b.remove(0) =~= b.drop_first());
        assert(fpaths(a.drop_first()) =~= fpaths(a).drop_first());
        assert(fpaths(b.drop_first()) =~= fpaths(b).drop_first());
        lemma_sorted_files_unique(a.drop_first(), b.drop_first());
        assert forall|i: int| 0 <= i < a.len() implies a[i] == b[i] by {
            if i > 0 {
                assert(a.drop_first()[i - 1] == b.drop_first()[i - 1]);
            }
        }
        assert(a =~= b);
    }
}

/// Two directory collections sorted by path and holding the same
/// records are the same sequence, when no path occurs twice.
pub proof fn lemma_sorted_dirs_unique(a: Seq<DirView>, b: Seq<DirView>)
    requires
        sorted_seqs(dpaths(a)),
        sorted_seqs(dpaths(b)),
        a.to_multiset() == b.to_multiset(),
        forall|i: int, j: int| 0 <= i < j < a.len() ==> a[i].path != a[j].path,
    ensures
        a == b,
    decreases a.len(),
{
    assert(a.len() == a.to_multiset().len());
    assert(b.len() == b.to_multiset().len());
    if a.len() == 0 {
        assert(a =~= b);
    } else {
        assert(a.contains(a[0]));
        assert(a.to_multiset().count(a[0]) > 0);
        assert(b.to_multiset().count(a[0]) > 0);
        assert(b.contains(a[0]));
        assert(b.contains(b[0]));
        assert(b.to_multiset().count(b[0]) > 0);
        assert(a.to_multiset().count(b[0]) > 0);
        assert(a.contains(b[0]));
        let ka = choose|k: int| 0 <= k < b.len() && b[k] == a[0];
        let kb = choose|k: int| 0 <= k < a.len() && a[k] == b[0];
        crate::paths::lemma_lex_refl(a[0].path);
        crate::paths::lemma_lex_refl(b[0].path);
        if ka > 0 {
            assert(crate::paths::lex_le(dpaths(b)[0], dpaths(b)[ka]));
        }
        if kb > 0 {
            assert(crate::paths::lex_le(dpaths(a)[0], dpaths(a)[kb]));
        }
        assert(crate::paths::lex_le(a[0].path, b[0].path));
        assert(crate::paths::lex_le(b[0].path, a[0].path));
        crate::paths::lemma_lex_antisym(a[0].path, b[0].path);
        assert(a[0].path == b[0].path);
        if kb > 0 {
            assert(a[0].path != a[kb].path);
            assert(false);
        }
        assert(a[0] == b[0]);
        assert(a.remove(0).to_multiset() == a.to_multiset().remove(a[0]));
        assert(b.remove(0).to_multiset() == b.to_multiset().remove(b[0]));
        assert(a.remove(0) =~= a.drop_first());
        assert(b.remove(0) =~= b.drop_first());
        assert(dpaths(a.drop_first()) =~= dpaths(a).drop_first());
        assert(dpaths(b.drop_first()) =~= dpaths(b).drop_first());
        lemma_sorted_dirs_unique(a.drop_first(), b.drop_first());
        assert forall|i: int| 0 <= i < a.len() implies a[i] == b[i] by {
            if i > 0 {
                assert(a.drop_first()[i - 1] == b.drop_first()[i - 1]);
            }
        }
        assert(a =~= b);
    }
}

} // verus!
