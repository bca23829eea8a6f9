//! Sorting the index's collections by path.
//!
//! Population sorts directories and files by path so that repeated walks
//! of an unchanged tree give identical collections. The sorts here are
//! proved to keep exactly the records they were given (as a multiset)
//! and to leave the paths in lexicographic order; together with the
//! uniqueness lemmas at the bottom, a sorted collection is determined by
//! what it holds, which is what makes population reproducible.

use vstd::prelude::*;
use vstd::multiset::Multiset;

use crate::entries::{DirectoryEntry, DirView, FileEntry, FileView};
use crate::paths::{
    le_bytes, lemma_lex_antisym, lemma_lex_refl, lemma_lex_total, lemma_lex_trans, lex_le,
};

verus! {

broadcast use vstd::seq_lib::group_to_multiset_ensures;

/// Strictly-before in the lexicographic order.
pub open spec fn lex_lt(a: Seq<u8>, b: Seq<u8>) -> bool {
    lex_le(a, b) && a != b
}

/// The byte strings of `ps` are in lexicographic order.
pub open spec fn sorted_seqs(ps: Seq<Seq<u8>>) -> bool {
    forall|i: int, j: int| 0 <= i < j < ps.len() ==> lex_le(ps[i], ps[j])
}

/// The byte strings of `ps` are in strictly increasing lexicographic
/// order, so each occurs once.
pub open spec fn sorted_strict(ps: Seq<Seq<u8>>) -> bool {
    forall|i: int, j: int| 0 <= i < j < ps.len() ==> lex_lt(ps[i], ps[j])
}

/// The mathematical values of a file collection.
pub open spec fn file_views(s: Seq<FileEntry>) -> Seq<FileView> {
    s.map_values(|e: FileEntry| e@)
}

/// The mathematical values of a directory collection.
pub open spec fn dir_views(s: Seq<DirectoryEntry>) -> Seq<DirView> {
    s.map_values(|e: DirectoryEntry| e@)
}

/// The paths of a file collection.
pub open spec fn fpaths(s: Seq<FileView>) -> Seq<Seq<u8>> {
    s.map_values(|f: FileView| f.path)
}

/// The paths of a directory collection.
pub open spec fn dpaths(s: Seq<DirView>) -> Seq<Seq<u8>> {
    s.map_values(|d: DirView| d.path)
}

/// The index of a file whose path is lexicographically least.
fn min_file_index(v: &Vec<FileEntry>) -> (m: usize)
    requires
        v@.len() > 0,
    ensures
        m < v@.len(),
        forall|j: int| 0 <= j < v@.len() ==> lex_le(v@[m as int]@.path, v@[j]@.path),
{
    let mut m: usize = 0;
    let mut i: usize = 1;
    proof {
        lemma_lex_refl(v@[0]@.path);
    }
    while i < v.len()
        invariant
            m < i <= v@.len(),
            forall|j: int| 0 <= j < i ==> lex_le(v@[m as int]@.path, v@[j]@.path),
        decreases v@.len() - i,
    {
        if !le_bytes(v[m].path.as_slice(), v[i].path.as_slice()) {
            proof {
                lemma_lex_total(v@[m as int]@.path, v@[i as int]@.path);
                assert forall|j: int| 0 <= j < i + 1 implies lex_le(
                    v@[i as int]@.path,
                    v@[j]@.path,
                ) by {
                    if j < i {
                        lemma_lex_trans(v@[i as int]@.path, v@[m as int]@.path, v@[j]@.path);
                    } else {
                        lemma_lex_refl(v@[i as int]@.path);
                    }
                }
            }
            m = i;
        }
        i = i + 1;
    }
    m
}

/// The index of a directory whose path is lexicographically least.
fn min_dir_index(v: &Vec<DirectoryEntry>) -> (m: usize)
    requires
        v@.len() > 0,
    ensures
        m < v@.len(),
        forall|j: int| 0 <= j < v@.len() ==> lex_le(v@[m as int]@.path, v@[j]@.path),
{
    let mut m: usize = 0;
    let mut i: usize = 1;
    proof {
        lemma_lex_refl(v@[0]@.path);
    }
    while i < v.len()
        invariant
            m < i <= v@.len(),
            forall|j: int| 0 <= j < i ==> lex_le(v@[m as int]@.path, v@[j]@.path),
        decreases v@.len() - i,
    {
        if !le_bytes(v[m].path.as_slice(), v[i].path.as_slice()) {
            proof {
                lemma_lex_total(v@[m as int]@.path, v@[i as int]@.path);
                assert forall|j: int| 0 <= j < i + 1 implies lex_le(
                    v@[i as int]@.path,
                    v@[j]@.path,
                ) by {
                    if j < i {
                        lemma_lex_trans(v@[i as int]@.path, v@[m as int]@.path, v@[j]@.path);
                    } else {
                        lemma_lex_refl(v@[i as int]@.path);
                    }
                }
            }
            m = i;
        }
        i = i + 1;
    }
    m
}

/// Sorts a file collection by path. The records come out exactly as they
/// went in, reordered.
pub fn sort_files(v: Vec<FileEntry>) -> (r: Vec<FileEntry>)
    ensures
        file_views(r@).to_multiset() == file_views(v@).to_multiset(),
        fpaths(file_views(r@)).to_multiset() == fpaths(file_views(v@)).to_multiset(),
        sorted_seqs(fpaths(file_views(r@))),
{
    let ghost orig = v@;
    let mut v = v;
    let mut out: Vec<FileEntry> = Vec::new();
    proof {
        assert(file_views(out@) =~= Seq::<FileView>::empty());
        assert(file_views(out@).to_multiset() =~= Multiset::<FileView>::empty());
        assert(fpaths(file_views(out@)).to_multiset() =~= Multiset::<Seq<u8>>::empty());
        assert(file_views(out@).to_multiset().add(file_views(v@).to_multiset()) =~= file_views(
            orig,
        ).to_multiset());
        assert(fpaths(file_views(out@)).to_multiset().add(fpaths(file_views(v@)).to_multiset())
            =~= fpaths(file_views(orig)).to_multiset());
    }
    while v.len() > 0
        invariant
            file_views(out@).to_multiset().add(file_views(v@).to_multiset()) == file_views(
                orig,
            ).to_multiset(),
            fpaths(file_views(out@)).to_multiset().add(fpaths(file_views(v@)).to_multiset())
                == fpaths(file_views(orig)).to_multiset(),
            sorted_seqs(fpaths(file_views(out@))),
            forall|i: int, j: int|
                0 <= i < out@.len() && 0 <= j < v@.len() ==> lex_le(
                    out@[i]@.path,
                    v@[j]@.path,
                ),
        decreases v@.len(),
    {
        let m = min_file_index(&v);
        let ghost pre = v@;
        let ghost out_pre = out@;
        let e = v.remove(m);
        out.push(e);
        proof {
            pre.remove_ensures(m as int);
            assert(file_views(v@) =~= file_views(pre).remove(m as int));
            assert(fpaths(file_views(v@)) =~= fpaths(file_views(pre)).remove(m as int));
            assert(file_views(pre).remove(m as int).to_multiset() == file_views(
                pre,
            ).to_multiset().remove(file_views(pre)[m as int]));
            assert(fpaths(file_views(pre)).remove(m as int).to_multiset() == fpaths(
                file_views(pre),
            ).to_multiset().remove(fpaths(file_views(pre))[m as int]));
            assert(file_views(out@) =~= file_views(out_pre).push(e@));
            assert(fpaths(file_views(out@)) =~= fpaths(file_views(out_pre)).push(e@.path));
            assert(file_views(out@).to_multiset() == file_views(out_pre).to_multiset().insert(
                e@,
            ));
            assert(fpaths(file_views(out@)).to_multiset() == fpaths(
                file_views(out_pre),
            ).to_multiset().insert(e@.path));
            assert(file_views(out@).to_multiset().add(file_views(v@).to_multiset())
                =~= file_views(orig).to_multiset());
            assert(fpaths(file_views(out@)).to_multiset().add(
                fpaths(file_views(v@)).to_multiset(),
            ) =~= fpaths(file_views(orig)).to_multiset());
            assert forall|i: int, j: int|
                0 <= i < out@.len() && 0 <= j < v@.len() implies lex_le(
                out@[i]@.path,
                v@[j]@.path,
            ) by {
                let vj: int = if j < m { j } else { j + 1 };
                assert(v@[j] == pre[vj]);
                if i < out_pre.len() {
                    assert(lex_le(out_pre[i]@.path, pre[vj]@.path));
                } else {
                    assert(out@[i] == e);
                    assert(lex_le(pre[m as int]@.path, pre[vj]@.path));
                }
            }
            assert forall|i: int, j: int|
                0 <= i < j < fpaths(file_views(out@)).len() implies lex_le(
                fpaths(file_views(out@))[i],
                fpaths(file_views(out@))[j],
            ) by {
                if j < out_pre.len() {
                } else {
                    assert(out@[j] == e);
                    assert(e == pre[m as int]);
                    assert(lex_le(out_pre[i]@.path, pre[m as int]@.path));
                }
            }
        }
    }
    proof {
        assert(file_views(v@) =~= Seq::<FileView>::empty());
        assert(file_views(v@).to_multiset() =~= Multiset::<FileView>::empty());
        assert(fpaths(file_views(v@)).to_multiset() =~= Multiset::<Seq<u8>>::empty());
        assert(file_views(out@).to_multiset() =~= file_views(orig).to_multiset());
        assert(fpaths(file_views(out@)).to_multiset() =~= fpaths(file_views(orig)).to_multiset());
    }
    out
}

/// Sorts a directory collection by path. The records come out exactly as
/// they went in, reordered.
pub fn sort_dirs(v: Vec<DirectoryEntry>) -> (r: Vec<DirectoryEntry>)
    ensures
        dir_views(r@).to_multiset() == dir_views(v@).to_multiset(),
        dpaths(dir_views(r@)).to_multiset() == dpaths(dir_views(v@)).to_multiset(),
        sorted_seqs(dpaths(dir_views(r@))),
{
    let ghost orig = v@;
    let mut v = v;
    let mut out: Vec<DirectoryEntry> = Vec::new();
    proof {
        assert(dir_views(out@) =~= Seq::<DirView>::empty());
        assert(dir_views(out@).to_multiset() =~= Multiset::<DirView>::empty());
        assert(dpaths(dir_views(out@)).to_multiset() =~= Multiset::<Seq<u8>>::empty());
        assert(dir_views(out@).to_multiset().add(dir_views(v@).to_multiset()) =~= dir_views(
            orig,
        ).to_multiset());
        assert(dpaths(dir_views(out@)).to_multiset().add(dpaths(dir_views(v@)).to_multiset())
            =~= dpaths(dir_views(orig)).to_multiset());
    }
    while v.len() > 0
        invariant
            dir_views(out@).to_multiset().add(dir_views(v@).to_multiset()) == dir_views(
                orig,
            ).to_multiset(),
            dpaths(dir_views(out@)).to_multiset().add(dpaths(dir_views(v@)).to_multiset())
                == dpaths(dir_views(orig)).to_multiset(),
            sorted_seqs(dpaths(dir_views(out@))),
            forall|i: int, j: int|
                0 <= i < out@.len() && 0 <= j < v@.len() ==> lex_le(
                    out@[i]@.path,
                    v@[j]@.path,
                ),
        decreases v@.len(),
    {
        let m = min_dir_index(&v);
        let ghost pre = v@;
        let ghost out_pre = out@;
        let e = v.remove(m);
        out.push(e);
        proof {
            pre.remove_ensures(m as int);
            assert(dir_views(v@) =~= dir_views(pre).remove(m as int));
            assert(dpaths(dir_views(v@)) =~= dpaths(dir_views(pre)).remove(m as int));
            assert(dir_views(pre).remove(m as int).to_multiset() == dir_views(
                pre,
            ).to_multiset().remove(dir_views(pre)[m as int]));
            assert(dpaths(dir_views(pre)).remove(m as int).to_multiset() == dpaths(
                dir_views(pre),
            ).to_multiset().remove(dpaths(dir_views(pre))[m as int]));
            assert(dir_views(out@) =~= dir_views(out_pre).push(e@));
            assert(dpaths(dir_views(out@)) =~= dpaths(dir_views(out_pre)).push(e@.path));
            assert(dir_views(out@).to_multiset() == dir_views(out_pre).to_multiset().insert(e@));
            assert(dpaths(dir_views(out@)).to_multiset() == dpaths(
                dir_views(out_pre),
            ).to_multiset().insert(e@.path));
            assert(dir_views(out@).to_multiset().add(dir_views(v@).to_multiset()) =~= dir_views(
                orig,
            ).to_multiset());
            assert(dpaths(dir_views(out@)).to_multiset().add(
                dpaths(dir_views(v@)).to_multiset(),
            ) =~= dpaths(dir_views(orig)).to_multiset());
            assert forall|i: int, j: int|
                0 <= i < out@.len() && 0 <= j < v@.len() implies lex_le(
                out@[i]@.path,
                v@[j]@.path,
            ) by {
                let vj: int = if j < m { j } else { j + 1 };
                assert(v@[j] == pre[vj]);
                if i < out_pre.len() {
                    assert(lex_le(out_pre[i]@.path, pre[vj]@.path));
                } else {
                    assert(out@[i] == e);
                    assert(lex_le(pre[m as int]@.path, pre[vj]@.path));
                }
            }
            assert forall|i: int, j: int|
                0 <= i < j < dpaths(dir_views(out@)).len() implies lex_le(
                dpaths(dir_views(out@))[i],
                dpaths(dir_views(out@))[j],
            ) by {
                if j < out_pre.len() {
                } else {
                    assert(out@[j] == e);
                    assert(e == pre[m as int]);
                    assert(lex_le(out_pre[i]@.path, pre[m as int]@.path));
                }
            }
        }
    }
    proof {
        assert(dir_views(v@) =~= Seq::<DirView>::empty());
        assert(dir_views(v@).to_multiset() =~= Multiset::<DirView>::empty());
        assert(dpaths(dir_views(v@)).to_multiset() =~= Multiset::<Seq<u8>>::empty());
        assert(dir_views(out@).to_multiset() =~= dir_views(orig).to_multiset());
        assert(dpaths(dir_views(out@)).to_multiset() =~= dpaths(dir_views(orig)).to_multiset());
    }
    out
}

/// Two path sequences in lexicographic order holding the same multiset
/// of paths are the same sequence.
pub proof fn lemma_sorted_unique(a: Seq<Seq<u8>>, b: Seq<Seq<u8>>)
    requires
        sorted_seqs(a),
        sorted_seqs(b),
        a.to_multiset() == b.to_multiset(),
    ensures
        a == b,
    decreases a.len(),
{
    assert(a.len() == a.to_multiset().len());
    assert(b.len() == b.to_multiset().len());
    if a.len() == 0 {
        assert(a =~= b);
    } else {
        assert(a.contains(a[0]));
        assert(a.to_multiset().count(a[0]) > 0);
        assert(b.to_multiset().count(a[0]) > 0);
        assert(b.contains(a[0]));
        assert(b.contains(b[0]));
        assert(b.to_multiset().count(b[0]) > 0);
        assert(a.to_multiset().count(b[0]) > 0);
        assert(a.contains(b[0]));
        let ka = choose|k: int| 0 <= k < b.len() && b[k] == a[0];
        let kb = choose|k: int| 0 <= k < a.len() && a[k] == b[0];
        lemma_lex_refl(a[0]);
        lemma_lex_refl(b[0]);
        if ka > 0 {
            assert(lex_le(b[0], b[ka]));
        }
        if kb > 0 {
            assert(lex_le(a[0], a[kb]));
        }
        assert(lex_le(a[0], b[0]));
        assert(lex_le(b[0], a[0]));
        lemma_lex_antisym(a[0], b[0]);
        assert(a.remove(0).to_multiset() == a.to_multiset().remove(a[0]));
        assert(b.remove(0).to_multiset() == b.to_multiset().remove(b[0]));
        assert(a.remove(0) =~= a.drop_first());
        assert(b.remove(0) =~= b.drop_first());
        lemma_sorted_unique(a.drop_first(), b.drop_first());
        assert forall|i: int| 0 <= i < a.len() implies a[i] == b[i] by {
            if i > 0 {
                assert(a.drop_first()[i - 1] == b.drop_first()[i - 1]);
            }
        }
        assert(a =~= b);
    }
}

/// Two strictly sorted path sequences holding the same set of paths are
/// the same sequence.
pub proof fn lemma_sorted_strict_unique(a: Seq<Seq<u8>>, b: Seq<Seq<u8>>)
    requires
        sorted_strict(a),
        sorted_strict(b),
        forall|x: Seq<u8>| a.contains(x) <==> b.contains(x),
    ensures
        a == b,
    decreases a.len() + b.len(),
{
    if a.len() == 0 {
        if b.len() > 0 {
            assert(b.contains(b[0]));
            assert(false);
        }
        assert(a =~= b);
    } else if b.len() == 0 {
        assert(a.contains(a[0]));
        assert(false);
    } else {
        assert(a.contains(a[0]));
        assert(b.contains(a[0]));
        assert(b.contains(b[0]));
        assert(a.contains(b[0]));
        let ka = choose|k: int| 0 <= k < b.len() && b[k] == a[0];
        let kb = choose|k: int| 0 <= k < a.len() && a[k] == b[0];
        lemma_lex_refl(a[0]);
        lemma_lex_refl(b[0]);
        if ka > 0 {
            assert(lex_lt(b[0], b[ka]));
        }
        if kb > 0 {
            assert(lex_lt(a[0], a[kb]));
        }
        assert(lex_le(a[0], b[0]));
        assert(lex_le(b[0], a[0]));
        lemma_lex_antisym(a[0], b[0]);
        assert(a[0] == b[0]);
        assert forall|x: Seq<u8>| a.drop_first().contains(x) implies b.drop_first().contains(
            x,
        ) by {
            let k = choose|k: int| 0 <= k < a.drop_first().len() && a.drop_first()[k] == x;
            assert(a[k + 1] == x);
            assert(a.contains(x));
            let k2 = choose|k2: int| 0 <= k2 < b.len() && b[k2] == x;
            assert(lex_lt(a[0], a[k + 1]));
            if k2 == 0 {
                assert(x == b[0]);
                assert(false);
            }
            assert(b.drop_first()[k2 - 1] == x);
        }
        assert forall|x: Seq<u8>| b.drop_first().contains(x) implies a.drop_first().contains(
            x,
        ) by {
            let k = choose|k: int| 0 <= k < b.drop_first().len() && b.drop_first()[k] == x;
            assert(b[k + 1] == x);
            assert(b.contains(x));
            let k2 = choose|k2: int| 0 <= k2 < a.len() && a[k2] == x;
            assert(lex_lt(b[0], b[k + 1]));
            if k2 == 0 {
                assert(x == a[0]);
                assert(false);
            }
            assert(a.drop_first()[k2 - 1] == x);
        }
        lemma_sorted_strict_unique(a.drop_first(), b.drop_first());
        assert forall|i: int| 0 <= i < a.len() implies a[i] == b[i] by {
            if i > 0 {
                assert(a.drop_first()[i - 1] == b.drop_first()[i - 1]);
            }
        }
        assert(a =~= b);
    }
}

} // verus!
