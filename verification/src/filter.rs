//! The traversal-time predicate that decides, per filesystem entry,
//! whether the index records it.
//!
//! The rules fire in order, the first decisive one winning: an ignored
//! path component anywhere in the entry's path relative to the root
//! rejects it (this is what lets a walker prune whole subtrees);
//! directories are otherwise unfiltered; a file must then match the
//! configured extension or exact-name criteria if any are given, must
//! carry one of the whitelisted file-name substrings if any are given,
//! and must carry none of the blacklisted ones.
//!
//! All matching is case-insensitive: the configured strings are
//! normalised to ASCII lower case once, at construction, and each
//! entry's name is lowered the same way before comparison.

use vstd::prelude::*;

use crate::DOT;
use crate::paths::{
    basename, basename_of, contains_seq, contains_sub, eq_bytes, ext_of, has_component, has_part,
    is_strict_under, lower, rel_to, split_name, subvec, to_lower, under_strict,
};

verus! {

/// Whether the byte string `x` is one of the elements of `s`.
pub open spec fn set_has(s: Seq<Seq<u8>>, x: Seq<u8>) -> bool {
    exists|i: int| 0 <= i < s.len() && s[i] == x
}

/// The byte strings held by a vector of byte vectors.
pub open spec fn seq_views(s: Seq<Vec<u8>>) -> Seq<Seq<u8>> {
    s.map_values(|v: Vec<u8>| v@)
}

/// `s` without its leading dots.
pub open spec fn strip_dots(s: Seq<u8>) -> Seq<u8>
    decreases s.len(),
{
    if s.len() > 0 && s[0] == DOT {
        strip_dots(s.drop_first())
    } else {
        s
    }
}

/// The normal form of a configured extension: lower case, no leading dot.
pub open spec fn norm_ext(s: Seq<u8>) -> Seq<u8> {
    lower(strip_dots(s))
}

/// The mathematical value of an [`InclusionFilter`].
pub ghost struct FilterView {
    pub target_extensions: Seq<Seq<u8>>,
    pub target_exact_filenames: Seq<Seq<u8>>,
    pub ignore_path_components: Seq<Seq<u8>>,
    pub ignore_filename_substrings: Seq<Seq<u8>>,
    pub whitelist_filename_substrings: Seq<Seq<u8>>,
}

/// The filter's configuration, normalised at construction. An empty set
/// imposes no constraint.
pub struct InclusionFilter {
    pub target_extensions: Vec<Vec<u8>>,
    pub target_exact_filenames: Vec<Vec<u8>>,
    pub ignore_path_components: Vec<Vec<u8>>,
    pub ignore_filename_substrings: Vec<Vec<u8>>,
    pub whitelist_filename_substrings: Vec<Vec<u8>>,
}

impl View for InclusionFilter {
    type V = FilterView;

    open spec fn view(&self) -> FilterView {
        FilterView {
            target_extensions: seq_views(self.target_extensions@),
            target_exact_filenames: seq_views(self.target_exact_filenames@),
            ignore_path_components: seq_views(self.ignore_path_components@),
            ignore_filename_substrings: seq_views(self.ignore_filename_substrings@),
            whitelist_filename_substrings: seq_views(self.whitelist_filename_substrings@),
        }
    }
}

/// Whether some component of the relative path `rel`, lowered, is one of
/// the configured ignored components.
pub open spec fn ignored_component_in(f: FilterView, rel: Seq<u8>) -> bool {
    exists|i: int|
        0 <= i < f.ignore_path_components.len() && has_component(
            lower(rel),
            f.ignore_path_components[i],
        )
}

/// Whether the lowered file name `name_l` matches the configured target
/// criteria: if extension or exact-name sets are given, at least one of
/// the non-empty sets must match.
pub open spec fn passes_targets(f: FilterView, name_l: Seq<u8>) -> bool {
    let ext_l = ext_of(name_l);
    let has_criteria = f.target_extensions.len() > 0 || f.target_exact_filenames.len() > 0;
    let matched = (f.target_extensions.len() > 0 && set_has(f.target_extensions, ext_l)) || (
    f.target_exact_filenames.len() > 0 && set_has(f.target_exact_filenames, name_l));
    !has_criteria || matched
}

/// Whether the lowered file name `name_l` passes the whitelist: if
/// whitelist substrings are given, at least one must occur in the name.
pub open spec fn passes_whitelist(f: FilterView, name_l: Seq<u8>) -> bool {
    f.whitelist_filename_substrings.len() == 0 || exists|i: int|
        0 <= i < f.whitelist_filename_substrings.len() && contains_seq(
            name_l,
            f.whitelist_filename_substrings[i],
        )
}

/// Whether the lowered file name `name_l` passes the blacklist: none of
/// the configured substrings may occur in the name.
pub open spec fn passes_blacklist(f: FilterView, name_l: Seq<u8>) -> bool {
    forall|i: int|
        0 <= i < f.ignore_filename_substrings.len() ==> !contains_seq(
            name_l,
            f.ignore_filename_substrings[i],
        )
}

/// The filter's decision for the entry at `path` beneath `root`. The root
/// itself has an empty relative path, so the component rule never fires
/// on it; an entry outside the root is accepted, as a traversal of the
/// root never yields one.
pub open spec fn accepted(f: FilterView, root: Seq<u8>, path: Seq<u8>, is_dir: bool) -> bool {
    if path != root && !is_strict_under(path, root) {
        true
    } else {
        let rel = if path == root {
            Seq::<u8>::empty()
        } else {
            rel_to(path, root)
        };
        if ignored_component_in(f, rel) {
            false
        } else if is_dir {
            true
        } else {
            let name_l = lower(basename_of(path));
            passes_targets(f, name_l) && passes_whitelist(f, name_l) && passes_blacklist(
                f,
                name_l,
            )
        }
    }
}

/// `s` without its leading dots.
pub fn strip_dots_vec(s: &[u8]) -> (r: Vec<u8>)
    ensures
        r@ == strip_dots(s@),
{
    let mut i: usize = 0;
    proof {
        assert(s@.skip(0) =~= s@);
    }
    while i < s.len() && s[i] == DOT
        invariant
            i <= s@.len(),
            strip_dots(s@) == strip_dots(s@.skip(i as int)),
        decreases s@.len() - i,
    {
        proof {
            assert(s@.skip(i as int).drop_first() =~= s@.skip(i + 1));
        }
        i = i + 1;
    }
    proof {
        if i < s@.len() {
            assert(strip_dots(s@.skip(i as int)) == s@.skip(i as int));
        } else {
            assert(s@.skip(i as int) =~= Seq::<u8>::empty());
        }
        assert(s@.subrange(i as int, s@.len() as int) =~= s@.skip(i as int));
    }
    subvec(s, i, s.len())
}

/// Whether `x` is one of the byte strings in `set`.
fn vec_set_has(set: &Vec<Vec<u8>>, x: &[u8]) -> (r: bool)
    ensures
        r == set_has(seq_views(set@), x@),
{
    let mut i: usize = 0;
    while i < set.len()
        invariant
            i <= set@.len(),
            forall|j: int| 0 <= j < i ==> set@[j]@ != x@,
        decreases set@.len() - i,
    {
        if eq_bytes(set[i].as_slice(), x) {
            proof {
                assert(seq_views(set@)[i as int] == x@);
            }
            return true;
        }
        i = i + 1;
    }
    proof {
        assert forall|j: int| 0 <= j < set@.len() implies seq_views(set@)[j] != x@ by {
            assert(seq_views(set@)[j] == set@[j]@);
        }
    }
    false
}

/// Lowers every byte string in `v`.
fn lower_all(v: &Vec<Vec<u8>>) -> (r: Vec<Vec<u8>>)
    ensures
        seq_views(r@).len() == seq_views(v@).len(),
        forall|i: int| 0 <= i < v@.len() ==> seq_views(r@)[i] == lower(seq_views(v@)[i]),
{
    let mut out: Vec<Vec<u8>> = Vec::new();
    let mut i: usize = 0;
    while i < v.len()
        invariant
            i <= v@.len(),
            out@.len() == i,
            forall|j: int| 0 <= j < i ==> seq_views(out@)[j] == lower(seq_views(v@)[j]),
        decreases v@.len() - i,
    {
        let ghost out_pre = out@;
        out.push(to_lower(v[i].as_slice()));
        proof {
            assert forall|j: int| 0 <= j < i + 1 implies seq_views(out@)[j] == lower(
                seq_views(v@)[j],
            ) by {
                assert(seq_views(out@)[j] == out@[j]@);
                assert(seq_views(v@)[j] == v@[j]@);
                if j < i {
                    assert(out@[j] == out_pre[j]);
                    assert(seq_views(out_pre)[j] == out_pre[j]@);
                }
            }
        }
        i = i + 1;
    }
    out
}

impl InclusionFilter {
    /// Builds a filter from the caller's configuration, normalising every
    /// string to ASCII lower case and stripping leading dots from the
    /// target extensions. An empty set imposes no constraint.
    pub fn new(
        target_extensions: Vec<Vec<u8>>,
        target_exact_filenames: Vec<Vec<u8>>,
        ignore_path_components: Vec<Vec<u8>>,
        ignore_filename_substrings: Vec<Vec<u8>>,
        whitelist_filename_substrings: Vec<Vec<u8>>,
    ) -> (r: InclusionFilter)
        ensures
            r@.target_extensions.len() == seq_views(target_extensions@).len(),
            forall|i: int|
                0 <= i < target_extensions@.len() ==> r@.target_extensions[i] == norm_ext(
                    seq_views(target_extensions@)[i],
                ),
            r@.target_exact_filenames.len() == seq_views(target_exact_filenames@).len(),
            forall|i: int|
                0 <= i < target_exact_filenames@.len() ==> r@.target_exact_filenames[i] == lower(
                    seq_views(target_exact_filenames@)[i],
                ),
            r@.ignore_path_components.len() == seq_views(ignore_path_components@).len(),
            forall|i: int|
                0 <= i < ignore_path_components@.len() ==> r@.ignore_path_components[i] == lower(
                    seq_views(ignore_path_components@)[i],
                ),
            r@.ignore_filename_substrings.len() == seq_views(ignore_filename_substrings@).len(),
            forall|i: int|
                0 <= i < ignore_filename_substrings@.len() ==> r@.ignore_filename_substrings[i]
                    == lower(seq_views(ignore_filename_substrings@)[i]),
            r@.whitelist_filename_substrings.len()
                == seq_views(whitelist_filename_substrings@).len(),
            forall|i: int|
                0 <= i < whitelist_filename_substrings@.len()
                    ==> r@.whitelist_filename_substrings[i] == lower(
                    seq_views(whitelist_filename_substrings@)[i],
                ),
    {
        let mut exts: Vec<Vec<u8>> = Vec::new();
        let mut i: usize = 0;
        while i < target_extensions.len()
            invariant
                i <= target_extensions@.len(),
                exts@.len() == i,
                forall|j: int|
                    0 <= j < i ==> seq_views(exts@)[j] == norm_ext(
                        seq_views(target_extensions@)[j],
                    ),
            decreases target_extensions@.len() - i,
        {
            let ghost exts_pre = exts@;
            let stripped = strip_dots_vec(target_extensions[i].as_slice());
            exts.push(to_lower(stripped.as_slice()));
            proof {
                assert forall|j: int| 0 <= j < i + 1 implies seq_views(exts@)[j] == norm_ext(
                    seq_views(target_extensions@)[j],
                ) by {
                    assert(seq_views(exts@)[j] == exts@[j]@);
                    assert(seq_views(target_extensions@)[j] == target_extensions@[j]@);
                    if j < i {
                        assert(exts@[j] == exts_pre[j]);
                        assert(seq_views(exts_pre)[j] == exts_pre[j]@);
                    }
                }
            }
            i = i + 1;
        }
        InclusionFilter {
            target_extensions: exts,
            target_exact_filenames: lower_all(&target_exact_filenames),
            ignore_path_components: lower_all(&ignore_path_components),
            ignore_filename_substrings: lower_all(&ignore_filename_substrings),
            whitelist_filename_substrings: lower_all(&whitelist_filename_substrings),
        }
    }

    /// A filter with no configuration: it accepts everything beneath the
    /// root.
    pub fn permissive() -> (r: InclusionFilter)
        ensures
            r@.target_extensions.len() == 0,
            r@.target_exact_filenames.len() == 0,
            r@.ignore_path_components.len() == 0,
            r@.ignore_filename_substrings.len() == 0,
            r@.whitelist_filename_substrings.len() == 0,
    {
        InclusionFilter {
            target_extensions: Vec::new(),
            target_exact_filenames: Vec::new(),
            ignore_path_components: Vec::new(),
            ignore_filename_substrings: Vec::new(),
            whitelist_filename_substrings: Vec::new(),
        }
    }

    /// The filter's decision for the entry at `path` beneath `root`.
    #[verifier::loop_isolation(false)]
    pub fn accepts(&self, root: &[u8], path: &[u8], is_dir: bool) -> (r: bool)
        ensures
            r == accepted(self@, root@, path@, is_dir),
    {
        let is_root = eq_bytes(path, root);
        let strict = under_strict(path, root);
        if !is_root && !strict {
            return true;
        }
        let pl = path.len();
        let rl = root.len();
        // The path relative to the root; empty for the root itself.
        let rel: Vec<u8> = if is_root {
            Vec::new()
        } else if rl > 0 && root[rl - 1] == crate::SEP {
            subvec(path, rl, pl)
        } else {
            subvec(path, rl + 1, pl)
        };
        proof {
            if !is_root {
                assert(rel@ =~= rel_to(path@, root@));
            }
        }
        let rel_l = to_lower(rel.as_slice());
        let mut i: usize = 0;
        while i < self.ignore_path_components.len()
            invariant
                i <= self.ignore_path_components@.len(),
                rel_l@ == lower(rel@),
                forall|j: int|
                    0 <= j < i ==> !has_component(
                        lower(rel@),
                        self@.ignore_path_components[j],
                    ),
            decreases self.ignore_path_components@.len() - i,
        {
            if has_part(rel_l.as_slice(), self.ignore_path_components[i].as_slice()) {
                proof {
                    assert(self@.ignore_path_components[i as int]
                        == self.ignore_path_components@[i as int]@);
                    assert(has_component(lower(rel@), self@.ignore_path_components[i as int]));
                }
                return false;
            }
            proof {
                assert(self@.ignore_path_components[i as int]
                    == self.ignore_path_components@[i as int]@);
            }
            i = i + 1;
        }
        if is_dir {
            return true;
        }
        let base = basename(path);
        let name_l = to_lower(base.as_slice());
        let (_stem, ext_l) = split_name(name_l.as_slice());
        // Target criteria: extension or exact file name, OR-ed, but a hard
        // requirement as soon as either set is configured.
        let has_criteria = self.target_extensions.len() > 0 || self.target_exact_filenames.len()
            > 0;
        let matched_ext = self.target_extensions.len() > 0 && vec_set_has(
            &self.target_extensions,
            ext_l.as_slice(),
        );
        let matched_name = self.target_exact_filenames.len() > 0 && vec_set_has(
            &self.target_exact_filenames,
            name_l.as_slice(),
        );
        if has_criteria && !matched_ext && !matched_name {
            return false;
        }
        if self.whitelist_filename_substrings.len() > 0 {
            let mut found = false;
            let mut i: usize = 0;
            while i < self.whitelist_filename_substrings.len() && !found
                invariant
                    i <= self.whitelist_filename_substrings@.len(),
                    name_l@ == lower(basename_of(path@)),
                    found ==> exists|j: int|
                        0 <= j < self@.whitelist_filename_substrings.len() && contains_seq(
                            name_l@,
                            self@.whitelist_filename_substrings[j],
                        ),
                    !found ==> forall|j: int|
                        0 <= j < i ==> !contains_seq(
                            name_l@,
                            self@.whitelist_filename_substrings[j],
                        ),
                decreases self.whitelist_filename_substrings@.len() - i,
            {
                proof {
                    assert(self@.whitelist_filename_substrings[i as int]
                        == self.whitelist_filename_substrings@[i as int]@);
                }
                if contains_sub(name_l.as_slice(), self.whitelist_filename_substrings[i].as_slice())
                {
                    found = true;
                }
                i = i + 1;
            }
            if !found {
                return false;
            }
        }
        let mut i: usize = 0;
        while i < self.ignore_filename_substrings.len()
            invariant
                i <= self.ignore_filename_substrings@.len(),
                name_l@ == lower(basename_of(path@)),
                forall|j: int|
                    0 <= j < i ==> !contains_seq(name_l@, self@.ignore_filename_substrings[j]),
            decreases self.ignore_filename_substrings@.len() - i,
        {
            proof {
                assert(self@.ignore_filename_substrings[i as int]
                    == self.ignore_filename_substrings@[i as int]@);
            }
            if contains_sub(name_l.as_slice(), self.ignore_filename_substrings[i].as_slice()) {
                return false;
            }
            i = i + 1;
        }
        true
    }
}

} // verus!
