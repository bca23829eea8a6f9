//! The byte-string model of filesystem paths.
//!
//! A path is a sequence of bytes as the operating system reports it, with
//! [`SEP`](crate::SEP) (`/`) between components. Everything the index needs
//! to know about a path — its final component, the stem and extension of
//! that component, its parent, whether it lies beneath another path — is
//! defined here as a spec function over `Seq<u8>`, with executable
//! counterparts proved against those definitions.

use vstd::prelude::*;

use crate::{DOT, SEP};

verus! {

/// The index of the last occurrence of `b` in `s`, if any.
pub open spec fn last_index_of(s: Seq<u8>, b: u8) -> Option<int>
    decreases s.len(),
{
    if s.len() == 0 {
        None
    } else if s[s.len() - 1] == b {
        Some(s.len() - 1)
    } else {
        last_index_of(s.drop_last(), b)
    }
}

/// `last_index_of` finds `b` exactly when `b` occurs, and finds its last
/// occurrence.
pub proof fn lemma_last_index_of(s: Seq<u8>, b: u8)
    ensures
        match last_index_of(s, b) {
            Some(i) => 0 <= i < s.len() && s[i] == b && forall|j: int|
                i < j < s.len() ==> s[j] != b,
            None => forall|j: int| 0 <= j < s.len() ==> s[j] != b,
        },
    decreases s.len(),
{
    if s.len() > 0 && s[s.len() - 1] != b {
        lemma_last_index_of(s.drop_last(), b);
        assert forall|j: int| 0 <= j < s.len() - 1 implies s.drop_last()[j] == s[j] by {}
    }
}

/// Whether `b` occurs anywhere in `s`.
pub open spec fn contains_byte(s: Seq<u8>, b: u8) -> bool {
    exists|i: int| 0 <= i < s.len() && s[i] == b
}

/// The final component of `p`: everything after the last separator, or all
/// of `p` if it has none.
pub open spec fn basename_of(p: Seq<u8>) -> Seq<u8> {
    match last_index_of(p, SEP) {
        Some(i) => p.subrange(i + 1, p.len() as int),
        None => p,
    }
}

/// Whether `p` has a parent directory, that is, contains a separator.
pub open spec fn has_parent(p: Seq<u8>) -> bool {
    last_index_of(p, SEP) is Some
}

/// The parent of `p`: everything before the last separator. A path whose
/// only separator is leading (`/name`) has the root `/` as its parent.
pub open spec fn parent_of(p: Seq<u8>) -> Seq<u8> {
    match last_index_of(p, SEP) {
        Some(i) => if i == 0 {
            p.subrange(0, 1)
        } else {
            p.subrange(0, i)
        },
        None => Seq::empty(),
    }
}

/// The index of the dot splitting a file name into stem and extension: the
/// last dot, except that a leading dot (as in `.profile`) starts the stem.
pub open spec fn ext_index(name: Seq<u8>) -> Option<int> {
    match last_index_of(name, DOT) {
        Some(i) => if i > 0 {
            Some(i)
        } else {
            None
        },
        None => None,
    }
}

/// The stem of a file name: everything before the extension dot, or the
/// whole name if it has no extension.
pub open spec fn stem_of(name: Seq<u8>) -> Seq<u8> {
    match ext_index(name) {
        Some(i) => name.subrange(0, i),
        None => name,
    }
}

/// The extension of a file name, without the dot; empty if there is none.
pub open spec fn ext_of(name: Seq<u8>) -> Seq<u8> {
    match ext_index(name) {
        Some(i) => name.subrange(i + 1, name.len() as int),
        None => Seq::empty(),
    }
}

/// The stem of the final component of a path.
pub open spec fn file_stem_of(p: Seq<u8>) -> Seq<u8> {
    stem_of(basename_of(p))
}

/// The extension of the final component of a path.
pub open spec fn file_ext_of(p: Seq<u8>) -> Seq<u8> {
    ext_of(basename_of(p))
}

/// `dir` with `name` appended as one further component.
pub open spec fn join_seq(dir: Seq<u8>, name: Seq<u8>) -> Seq<u8> {
    if dir.len() > 0 && dir[dir.len() - 1] == SEP {
        dir + name
    } else {
        dir + seq![SEP] + name
    }
}

/// ASCII lower-casing of one byte.
pub open spec fn lower_byte(b: u8) -> u8 {
    if 65 <= b && b <= 90 {
        (b + 32) as u8
    } else {
        b
    }
}

/// ASCII lower-casing of a byte string.
pub open spec fn lower(s: Seq<u8>) -> Seq<u8> {
    s.map_values(|b: u8| lower_byte(b))
}

/// Whether `needle` occurs in `hay` starting at position `i`.
pub open spec fn matches_at(hay: Seq<u8>, needle: Seq<u8>, i: int) -> bool {
    0 <= i && i + needle.len() <= hay.len() && hay.subrange(i, i + needle.len()) == needle
}

/// Whether `needle` occurs anywhere in `hay` as a contiguous run.
pub open spec fn contains_seq(hay: Seq<u8>, needle: Seq<u8>) -> bool {
    exists|i: int| matches_at(hay, needle, i)
}

/// Whether `c` stands at position `i` of `r` as a whole path component:
/// it matches there and is delimited by separators or the ends of `r`.
pub open spec fn component_at(r: Seq<u8>, c: Seq<u8>, i: int) -> bool {
    &&& matches_at(r, c, i)
    &&& (i == 0 || r[i - 1] == SEP)
    &&& (i + c.len() == r.len() || r[i + c.len()] == SEP)
}

/// Whether `c` is one of the path components of `r`.
pub open spec fn has_component(r: Seq<u8>, c: Seq<u8>) -> bool {
    c.len() > 0 && !contains_byte(c, SEP) && exists|i: int| component_at(r, c, i)
}

/// Whether `p` lies strictly beneath directory `d`: `d` is a proper prefix
/// of `p` and the boundary falls on a component edge.
pub open spec fn is_strict_under(p: Seq<u8>, d: Seq<u8>) -> bool {
    &&& d.len() > 0
    &&& p.len() > d.len()
    &&& p.subrange(0, d.len() as int) == d
    &&& (d[d.len() - 1] == SEP || p[d.len() as int] == SEP)
}

/// Whether `p` is `d` itself or lies beneath it.
pub open spec fn is_under(p: Seq<u8>, d: Seq<u8>) -> bool {
    p == d || is_strict_under(p, d)
}

/// The relative path of `p` beneath directory `d`: the suffix after `d`
/// and the separator that follows it.
pub open spec fn rel_to(p: Seq<u8>, d: Seq<u8>) -> Seq<u8> {
    if d.len() > 0 && d[d.len() - 1] == SEP {
        p.skip(d.len() as int)
    } else {
        p.skip(d.len() + 1 as int)
    }
}

/// Byte-wise lexicographic order on byte strings.
pub open spec fn lex_le(a: Seq<u8>, b: Seq<u8>) -> bool
    decreases a.len(),
{
    if a.len() == 0 {
        true
    } else if b.len() == 0 {
        false
    } else if a[0] < b[0] {
        true
    } else if a[0] > b[0] {
        false
    } else {
        lex_le(a.drop_first(), b.drop_first())
    }
}

/// `lex_le` is reflexive.
pub proof fn lemma_lex_refl(a: Seq<u8>)
    ensures
        lex_le(a, a),
    decreases a.len(),
{
    if a.len() > 0 {
        lemma_lex_refl(a.drop_first());
    }
}

/// `lex_le` orders every pair one way or the other.
pub proof fn lemma_lex_total(a: Seq<u8>, b: Seq<u8>)
    ensures
        lex_le(a, b) || lex_le(b, a),
    decreases a.len(),
{
    if a.len() > 0 && b.len() > 0 && a[0] == b[0] {
        lemma_lex_total(a.drop_first(), b.drop_first());
    }
}

/// `lex_le` is transitive.
pub proof fn lemma_lex_trans(a: Seq<u8>, b: Seq<u8>, c: Seq<u8>)
    requires
        lex_le(a, b),
        lex_le(b, c),
    ensures
        lex_le(a, c),
    decreases a.len(),
{
    if a.len() > 0 && b.len() > 0 && c.len() > 0 && a[0] == b[0] && b[0] == c[0] {
        lemma_lex_trans(a.drop_first(), b.drop_first(), c.drop_first());
    }
}

/// Two byte strings each `lex_le` the other are equal.
pub proof fn lemma_lex_antisym(a: Seq<u8>, b: Seq<u8>)
    requires
        lex_le(a, b),
        lex_le(b, a),
    ensures
        a == b,
    decreases a.len(),
{
    if a.len() > 0 && b.len() > 0 && a[0] == b[0] {
        lemma_lex_antisym(a.drop_first(), b.drop_first());
        assert(a =~= seq![a[0]] + a.drop_first());
        assert(b =~= seq![b[0]] + b.drop_first());
    }
}

/// Skipping a shared prefix does not change the lexicographic comparison.
pub proof fn lemma_lex_skip(a: Seq<u8>, b: Seq<u8>, i: int)
    requires
        0 <= i <= a.len(),
        i <= b.len(),
        forall|j: int| 0 <= j < i ==> a[j] == b[j],
    ensures
        lex_le(a, b) == lex_le(a.skip(i), b.skip(i)),
    decreases i,
{
    if i > 0 {
        lemma_lex_skip(a.drop_first(), b.drop_first(), i - 1);
        assert(a.skip(i) =~= a.drop_first().skip(i - 1));
        assert(b.skip(i) =~= b.drop_first().skip(i - 1));
    } else {
        assert(a.skip(0) =~= a);
        assert(b.skip(0) =~= b);
    }
}

/// The index of the last occurrence of `b` in `s`, or `None`.
pub fn rfind(s: &[u8], b: u8) -> (r: Option<usize>)
    ensures
        match r {
            Some(i) => i < s@.len() && last_index_of(s@, b) == Some(i as int),
            None => last_index_of(s@, b) is None,
        },
{
    let mut i: usize = s.len();
    while i > 0
        invariant
            i <= s@.len(),
            forall|j: int| i <= j < s@.len() ==> s@[j] != b,
        decreases i,
    {
        i = i - 1;
        if s[i] == b {
            proof {
                lemma_last_index_of(s@, b);
            }
            return Some(i);
        }
    }
    proof {
        lemma_last_index_of(s@, b);
    }
    None
}

/// Whether `b` occurs in `s`.
pub fn find_byte(s: &[u8], b: u8) -> (r: bool)
    ensures
        r == contains_byte(s@, b),
{
    let mut i: usize = 0;
    while i < s.len()
        invariant
            i <= s@.len(),
            forall|j: int| 0 <= j < i ==> s@[j] != b,
        decreases s@.len() - i,
    {
        if s[i] == b {
            return true;
        }
        i = i + 1;
    }
    false
}

/// Whether `a` and `b` hold the same bytes.
pub fn eq_bytes(a: &[u8], b: &[u8]) -> (r: bool)
    ensures
        r == (a@ == b@),
{
    if a.len() != b.len() {
        return false;
    }
    let mut i: usize = 0;
    while i < a.len()
        invariant
            a@.len() == b@.len(),
            i <= a@.len(),
            forall|j: int| 0 <= j < i ==> a@[j] == b@[j],
        decreases a@.len() - i,
    {
        if a[i] != b[i] {
            return false;
        }
        i = i + 1;
    }
    proof {
        assert(a@ =~= b@);
    }
    true
}

/// A copy of `s[i..j]`.
pub fn subvec(s: &[u8], i: usize, j: usize) -> (r: Vec<u8>)
    requires
        i <= j <= s@.len(),
    ensures
        r@ == s@.subrange(i as int, j as int),
{
    vstd::slice::slice_to_vec(vstd::slice::slice_subrange(s, i, j))
}

/// The ASCII lower-casing of `s`.
pub fn to_lower(s: &[u8]) -> (r: Vec<u8>)
    ensures
        r@ == lower(s@),
{
    let mut out: Vec<u8> = Vec::new();
    let mut i: usize = 0;
    while i < s.len()
        invariant
            i <= s@.len(),
            out@.len() == i,
            forall|j: int| 0 <= j < i ==> out@[j] == lower_byte(s@[j]),
        decreases s@.len() - i,
    {
        let b = s[i];
        if 65 <= b && b <= 90 {
            out.push(b + 32);
        } else {
            out.push(b);
        }
        i = i + 1;
    }
    proof {
        assert(out@ =~= lower(s@));
    }
    out
}

/// The final component of `p`.
pub fn basename(p: &[u8]) -> (r: Vec<u8>)
    ensures
        r@ == basename_of(p@),
{
    let n = p.len();
    match rfind(p, SEP) {
        Some(i) => subvec(p, i + 1, n),
        None => vstd::slice::slice_to_vec(p),
    }
}

/// The parent directory of `p`, or `None` if `p` has no separator.
pub fn parent_dir(p: &[u8]) -> (r: Option<Vec<u8>>)
    ensures
        match r {
            Some(d) => has_parent(p@) && d@ == parent_of(p@),
            None => !has_parent(p@),
        },
{
    match rfind(p, SEP) {
        Some(i) => if i == 0 {
            Some(subvec(p, 0, 1))
        } else {
            Some(subvec(p, 0, i))
        },
        None => None,
    }
}

/// The stem and extension of the file name `name`.
pub fn split_name(name: &[u8]) -> (r: (Vec<u8>, Vec<u8>))
    ensures
        r.0@ == stem_of(name@),
        r.1@ == ext_of(name@),
{
    let n = name.len();
    if let Some(i) = rfind(name, DOT) {
        if i > 0 {
            return (subvec(name, 0, i), subvec(name, i + 1, n));
        }
    }
    let stem = vstd::slice::slice_to_vec(name);
    let ext: Vec<u8> = Vec::new();
    proof {
        assert(ext@ =~= ext_of(name@));
    }
    (stem, ext)
}

/// `dir` with `name` appended as one further component.
pub fn join(dir: &[u8], name: &[u8]) -> (r: Vec<u8>)
    ensures
        r@ == join_seq(dir@, name@),
{
    let mut out = vstd::slice::slice_to_vec(dir);
    if dir.len() == 0 || dir[dir.len() - 1] != SEP {
        out.push(SEP);
    }
    out.extend_from_slice(name);
    proof {
        assert(out@ =~= join_seq(dir@, name@));
    }
    out
}

/// Whether `needle` stands in `hay` at position `i`.
pub fn matches_here(hay: &[u8], needle: &[u8], i: usize) -> (r: bool)
    requires
        i + needle@.len() <= hay@.len(),
    ensures
        r == matches_at(hay@, needle@, i as int),
{
    let hn = hay.len();
    let mut j: usize = 0;
    while j < needle.len()
        invariant
            i + needle@.len() <= hay@.len(),
            hay@.len() == hn,
            j <= needle@.len(),
            forall|k: int| 0 <= k < j ==> hay@[i + k] == needle@[k],
        decreases needle@.len() - j,
    {
        if hay[i + j] != needle[j] {
            proof {
                assert(hay@.subrange(i as int, i + needle@.len()) != needle@) by {
                    assert(hay@.subrange(i as int, i + needle@.len())[j as int] != needle@[
                        j as int]);
                }
            }
            return false;
        }
        j = j + 1;
    }
    proof {
        assert(hay@.subrange(i as int, i + needle@.len()) =~= needle@);
    }
    true
}

/// Whether `needle` occurs anywhere in `hay`.
pub fn contains_sub(hay: &[u8], needle: &[u8]) -> (r: bool)
    ensures
        r == contains_seq(hay@, needle@),
{
    if needle.len() > hay.len() {
        return false;
    }
    if needle.len() == 0 {
        proof {
            assert(hay@.subrange(0, 0) =~= needle@);
            assert(matches_at(hay@, needle@, 0));
        }
        return true;
    }
    let end = hay.len() - needle.len();
    let mut i: usize = 0;
    while i <= end
        invariant
            1 <= needle@.len() <= hay@.len(),
            end == hay@.len() - needle@.len(),
            end < usize::MAX,
            i <= end + 1,
            forall|k: int| 0 <= k < i ==> !matches_at(hay@, needle@, k),
        decreases end + 1 - i,
    {
        if matches_here(hay, needle, i) {
            return true;
        }
        i = i + 1;
    }
    false
}

/// Whether `c` is one of the path components of `r`.
pub fn has_part(r: &[u8], c: &[u8]) -> (res: bool)
    ensures
        res == has_component(r@, c@),
{
    if c.len() == 0 || find_byte(c, SEP) {
        return false;
    }
    if c.len() > r.len() {
        return false;
    }
    let end = r.len() - c.len();
    let mut i: usize = 0;
    while i <= end
        invariant
            1 <= c@.len() <= r@.len(),
            !contains_byte(c@, SEP),
            end == r@.len() - c@.len(),
            end < usize::MAX,
            i <= end + 1,
            forall|k: int| 0 <= k < i ==> !component_at(r@, c@, k),
        decreases end + 1 - i,
    {
        let left_ok = i == 0 || r[i - 1] == SEP;
        let right_ok = i + c.len() == r.len() || r[i + c.len()] == SEP;
        if left_ok && right_ok && matches_here(r, c, i) {
            proof {
                assert(component_at(r@, c@, i as int));
            }
            return true;
        }
        i = i + 1;
    }
    false
}

/// Whether `p` lies strictly beneath directory `d`.
pub fn under_strict(p: &[u8], d: &[u8]) -> (r: bool)
    ensures
        r == is_strict_under(p@, d@),
{
    if d.len() == 0 || p.len() <= d.len() {
        return false;
    }
    if !matches_here(p, d, 0) {
        return false;
    }
    d[d.len() - 1] == SEP || p[d.len()] == SEP
}

/// Whether `a` is lexicographically at most `b`.
pub fn le_bytes(a: &[u8], b: &[u8]) -> (r: bool)
    ensures
        r == lex_le(a@, b@),
{
    let n = if a.len() < b.len() {
        a.len()
    } else {
        b.len()
    };
    let mut i: usize = 0;
    while i < n
        invariant
            n <= a@.len(),
            n <= b@.len(),
            i <= n,
            forall|j: int| 0 <= j < i ==> a@[j] == b@[j],
        decreases n - i,
    {
        if a[i] < b[i] {
            proof {
                lemma_lex_skip(a@, b@, i as int);
            }
            return true;
        }
        if a[i] > b[i] {
            proof {
                lemma_lex_skip(a@, b@, i as int);
            }
            return false;
        }
        i = i + 1;
    }
    proof {
        lemma_lex_skip(a@, b@, n as int);
    }
    a.len() <= b.len()
}

/// Appending to the left of a byte string does not change which
/// occurrence of `c` is last, counted from the right.
pub proof fn lemma_last_index_concat(a: Seq<u8>, b: Seq<u8>, c: u8)
    requires
        last_index_of(b, c) is Some,
    ensures
        last_index_of(a + b, c) == Some(a.len() + last_index_of(b, c).unwrap()),
{
    let j = last_index_of(b, c).unwrap();
    lemma_last_index_of(b, c);
    lemma_last_index_of(a + b, c);
    assert((a + b)[a.len() + j] == b[j]);
    assert forall|m: int| a.len() + j < m < (a + b).len() implies (a + b)[m] != c by {
        assert((a + b)[m] == b[m - a.len()]);
    }
    match last_index_of(a + b, c) {
        Some(i) => {
            if i < a.len() + j {
                assert((a + b)[a.len() + j] == c);
                assert(false);
            }
            if i > a.len() + j {
                assert((a + b)[i] == b[i - a.len()]);
                assert(false);
            }
        },
        None => {
            assert((a + b)[a.len() + j] == c);
            assert(false);
        },
    }
}

/// Rewriting the directory prefix of a path strictly beneath `d` to
/// `nd` leaves its final component unchanged, provided `d` does not end
/// with the separator.
pub proof fn lemma_rewrite_basename(p: Seq<u8>, d: Seq<u8>, nd: Seq<u8>)
    requires
        is_strict_under(p, d),
        d[d.len() - 1] != SEP,
    ensures
        basename_of(nd + p.skip(d.len() as int)) == basename_of(p),
{
    let suffix = p.skip(d.len() as int);
    assert(suffix[0] == p[d.len() as int]);
    assert(suffix[0] == SEP);
    lemma_last_index_of(suffix, SEP);
    assert(last_index_of(suffix, SEP) is Some) by {
        if last_index_of(suffix, SEP) is None {
            assert(suffix[0] != SEP);
        }
    }
    let j = last_index_of(suffix, SEP).unwrap();
    lemma_last_index_concat(nd, suffix, SEP);
    assert(p =~= d + suffix);
    lemma_last_index_concat(d, suffix, SEP);
    assert(basename_of(nd + suffix) =~= suffix.skip(j + 1));
    assert(basename_of(p) =~= suffix.skip(j + 1));
}

} // verus!
