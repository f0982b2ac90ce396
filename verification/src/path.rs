//! Dot-delimited configuration paths, wildcard patterns and their relations.
use vstd::prelude::*;
use crate::text::{
    split, join, nonempty, views, string_views, is_digit, all_chars, parse_usize, starts_with,
    chars_of, string_of, split_chars, join_chars, chars_eq, slice_chars, concat_chars,
    starts_with_chars, contains_char, parse_usize_chars, lemma_split_nonempty,
    lemma_split_join, lemma_split_pieces, lemma_nonempty_pieces, lemma_nonempty_all,
};

verus! {

/// The non-empty dot-separated segments of a path.
pub open spec fn segments(s: Seq<char>) -> Seq<Seq<char>> {
    nonempty(split(s, '.'))
}

/// A path with empty segments removed, as `normalize_path` renders it.
pub open spec fn normalized(s: Seq<char>) -> Seq<char> {
    join(segments(s), seq!['.'])
}

/// `child` appended below `parent`; the root (empty path) has no separator.
pub open spec fn joined(parent: Seq<char>, child: Seq<char>) -> Seq<char> {
    if parent.len() == 0 {
        child
    } else {
        parent + seq!['.'] + child
    }
}

pub open spec fn star() -> Seq<char> {
    seq!['*']
}

/// One path segment is accepted by one pattern segment.
pub open spec fn seg_matches(actual: Seq<char>, expected: Seq<char>) -> bool {
    expected == star() || actual == expected
}

/// The first `n` segments of `a` are accepted by those of `b`.
pub open spec fn segs_match(a: Seq<Seq<char>>, b: Seq<Seq<char>>, n: int) -> bool {
    forall|i: int| 0 <= i < n ==> seg_matches(#[trigger] a[i], b[i])
}

/// `path` is an instance of `pattern` (`*` stands for any one segment).
pub open spec fn pattern_matches(path: Seq<char>, pattern: Seq<char>) -> bool {
    let a = segments(path);
    let b = segments(pattern);
    a.len() == b.len() && segs_match(a, b, a.len() as int)
}

/// `path` lies at or below an instance of `pattern`.
pub open spec fn starts_with_pattern(path: Seq<char>, pattern: Seq<char>) -> bool {
    let a = segments(path);
    let b = segments(pattern);
    b.len() <= a.len() && segs_match(a, b, b.len() as int)
}

/// `prefix` lies at or above an instance of `pattern`.
pub open spec fn prefix_of_pattern(prefix: Seq<char>, pattern: Seq<char>) -> bool {
    let a = segments(prefix);
    let b = segments(pattern);
    a.len() <= b.len() && segs_match(a, b, a.len() as int)
}

/// `a` is a proper ancestor path of `b` at the character level.
pub open spec fn strict_ancestor(a: Seq<char>, b: Seq<char>) -> bool {
    a.len() < b.len() && b.take(a.len() as int) == a && b[a.len() as int] == '.'
}

/// Two concrete paths are equal or one lies below the other.
pub open spec fn overlap(left: Seq<char>, right: Seq<char>) -> bool {
    left == right || strict_ancestor(right, left) || strict_ancestor(left, right)
}

/// The non-empty segments of a path.
pub fn path_segments(s: &[char]) -> (r: Vec<Vec<char>>)
    ensures
        views(r@) == segments(s@),
{
    let parts = split_chars(s, '.');
    let ghost p = split(s@, '.');
    let mut r: Vec<Vec<char>> = Vec::new();
    let mut i: usize = 0;
    while i < parts.len()
        invariant
            i <= parts.len(),
            parts@.len() == p.len(),
            p == split(s@, '.'),
            forall|k: int| 0 <= k < parts@.len() ==> (#[trigger] parts@[k])@ == p[k],
            views(r@) == nonempty(p.take(i as int)),
        decreases parts.len() - i,
    {
        assert(p.take(i + 1).drop_last() =~= p.take(i as int));
        if parts[i].len() > 0 {
            let piece = slice_chars(&parts[i], 0, parts[i].len());
            assert(parts@[i as int]@.subrange(0, parts@[i as int]@.len() as int) =~= parts@[i as int]@);
            r.push(piece);
            assert(views(r@) =~= nonempty(p.take(i as int)).push(p[i as int]));
        }
        i = i + 1;
    }
    assert(p.take(parts.len() as int) =~= p);
    r
}

/// Joins a parent path and a child segment.
pub fn join_path_chars(parent: &[char], child: &[char]) -> (r: Vec<char>)
    ensures
        r@ == joined(parent@, child@),
{
    if parent.len() == 0 {
        slice_chars(child, 0, child.len())
    } else {
        let mut r = slice_chars(parent, 0, parent.len());
        r.push('.');
        let r2 = concat_chars(&r, child);
        assert(parent@.subrange(0, parent@.len() as int) =~= parent@);
        r2
    }
}

/// Joins a parent path and a child segment with `.`; the root path has no separator.
pub fn join_path(parent: &str, child: &str) -> (r: String)
    ensures
        r@ == joined(parent@, child@),
{
    let p = chars_of(parent);
    let c = chars_of(child);
    let j = join_path_chars(&p, &c);
    string_of(&j)
}

/// Removes empty segments from a dot-delimited path.
pub fn normalize_path_chars(path: &[char]) -> (r: Vec<char>)
    ensures
        r@ == normalized(path@),
{
    let segs = path_segments(path);
    let sep = ['.'];
    let r = join_chars(&segs, &sep);
    assert(sep@ =~= seq!['.']);
    r
}

/// Removes empty segments from a dot-delimited path.
pub fn normalize_path(path: &str) -> (r: String)
    ensures
        r@ == normalized(path@),
{
    let p = chars_of(path);
    string_of(&normalize_path_chars(&p))
}

/// Whether the first `n` segments of `a` are accepted by those of `b`.
fn segs_match_exec(a: &Vec<Vec<char>>, b: &Vec<Vec<char>>, n: usize) -> (r: bool)
    requires
        n <= a.len(),
        n <= b.len(),
    ensures
        r == segs_match(views(a@), views(b@), n as int),
{
    let wild = ['*'];
    assert(wild@ =~= star());
    let mut i: usize = 0;
    while i < n
        invariant
            i <= n <= a.len(),
            n <= b.len(),
            wild@ == star(),
            segs_match(views(a@), views(b@), i as int),
        decreases n - i,
    {
        let ok = chars_eq(&b[i], &wild) || chars_eq(&a[i], &b[i]);
        if !ok {
            assert(!seg_matches(views(a@)[i as int], views(b@)[i as int]));
            return false;
        }
        i = i + 1;
    }
    true
}

/// Whether `path` is an instance of `pattern`.
pub fn path_matches_pattern_chars(path: &[char], pattern: &[char]) -> (r: bool)
    ensures
        r == pattern_matches(path@, pattern@),
{
    let a = path_segments(path);
    let b = path_segments(pattern);
    a.len() == b.len() && segs_match_exec(&a, &b, a.len())
}

/// Whether `path` is an instance of `pattern`, where `*` accepts any one segment.
pub fn path_matches_pattern(path: &str, pattern: &str) -> (r: bool)
    ensures
        r == pattern_matches(path@, pattern@),
{
    let a = chars_of(path);
    let b = chars_of(pattern);
    path_matches_pattern_chars(&a, &b)
}

/// Whether `path` lies at or below an instance of `pattern`.
pub fn path_starts_with_pattern(path: &str, pattern: &str) -> (r: bool)
    ensures
        r == starts_with_pattern(path@, pattern@),
{
    let a = path_segments(&chars_of(path));
    let b = path_segments(&chars_of(pattern));
    b.len() <= a.len() && segs_match_exec(&a, &b, b.len())
}

/// Whether `prefix` lies at or above an instance of `pattern`.
pub fn path_is_prefix_of_pattern(prefix: &str, pattern: &str) -> (r: bool)
    ensures
        r == prefix_of_pattern(prefix@, pattern@),
{
    let a = path_segments(&chars_of(prefix));
    let b = path_segments(&chars_of(pattern));
    a.len() <= b.len() && segs_match_exec(&a, &b, a.len())
}

/// Whether `path` and an instance of `pattern` lie on one root-to-leaf line.
pub fn path_overlaps_pattern(path: &str, pattern: &str) -> (r: bool)
    ensures
        r == (starts_with_pattern(path@, pattern@) || prefix_of_pattern(path@, pattern@)),
{
    path_starts_with_pattern(path, pattern) || path_is_prefix_of_pattern(path, pattern)
}

/// Whether `path` lies at or below one of the secret path patterns.
pub fn is_secret_path(secret_paths: &Vec<String>, path: &str) -> (r: bool)
    ensures
        r == exists|i: int| 0 <= i < secret_paths@.len() && starts_with_pattern(path@, #[trigger] secret_paths@[i]@),
{
    let mut i: usize = 0;
    while i < secret_paths.len()
        invariant
            i <= secret_paths.len(),
            forall|j: int| 0 <= j < i ==> !starts_with_pattern(path@, #[trigger] secret_paths@[j]@),
        decreases secret_paths.len() - i,
    {
        if path_starts_with_pattern(path, secret_paths[i].as_str()) {
            return true;
        }
        i = i + 1;
    }
    false
}

/// Whether `path` overlaps one of the secret path patterns, so that the
/// value rendered at `path` holds or is a secret.
pub fn path_contains_secret(secret_paths: &Vec<String>, path: &str) -> (r: bool)
    ensures
        r == exists|i: int| 0 <= i < secret_paths@.len() && (starts_with_pattern(path@, #[trigger] secret_paths@[i]@) || prefix_of_pattern(path@, secret_paths@[i]@)),
{
    let mut i: usize = 0;
    while i < secret_paths.len()
        invariant
            i <= secret_paths.len(),
            forall|j: int| 0 <= j < i ==> !(starts_with_pattern(path@, #[trigger] secret_paths@[j]@) || prefix_of_pattern(path@, secret_paths@[j]@)),
        decreases secret_paths.len() - i,
    {
        if path_overlaps_pattern(path, secret_paths[i].as_str()) {
            return true;
        }
        i = i + 1;
    }
    false
}

/// Whether `a` is a proper ancestor of `b`: `b` starts with `a` followed by `.`.
pub fn strict_ancestor_chars(a: &[char], b: &[char]) -> (r: bool)
    ensures
        r == strict_ancestor(a@, b@),
{
    a.len() < b.len() && starts_with_chars(b, a) && b[a.len()] == '.'
}

/// Whether two concrete paths are equal or one lies below the other.
pub fn paths_overlap(left: &str, right: &str) -> (r: bool)
    ensures
        r == overlap(left@, right@),
{
    let l = chars_of(left);
    let rr = chars_of(right);
    chars_eq(&l, &rr) || strict_ancestor_chars(&rr, &l) || strict_ancestor_chars(&l, &rr)
}

/// The segments of a path are non-empty and hold no `.`.
pub proof fn lemma_segment_shape(s: Seq<char>)
    ensures
        forall|i: int| 0 <= i < segments(s).len() ==> (#[trigger] segments(s)[i]).len() > 0
            && !segments(s)[i].contains('.'),
{
    let p = split(s, '.');
    lemma_split_pieces(s, '.');
    lemma_nonempty_pieces(p);
    assert forall|i: int| 0 <= i < segments(s).len() implies !(#[trigger] segments(s)[i]).contains('.') by {
        let j = choose|j: int| 0 <= j < p.len() && p[j] == segments(s)[i];
        assert(!p[j].contains('.'));
    }
}

/// A normalized path has the segments of the path it came from.
pub proof fn lemma_segments_normalized(s: Seq<char>)
    ensures
        segments(normalized(s)) == segments(s),
{
    let segs = segments(s);
    lemma_segment_shape(s);
    if segs.len() == 0 {
        assert(normalized(s) =~= Seq::<char>::empty());
        assert(split(normalized(s), '.') =~= seq![Seq::<char>::empty()]);
        let one = seq![Seq::<char>::empty()];
        assert(nonempty(one).len() == 0) by {
            assert(one.last().len() == 0);
            assert(one.drop_last() =~= Seq::<Seq<char>>::empty());
            assert(nonempty(one.drop_last()).len() == 0);
        }
    } else {
        lemma_split_join(segs, '.');
        lemma_nonempty_all(segs);
    }
}

/// Normalizing a normalized path changes nothing.
pub proof fn law_normalize_idempotent(s: Seq<char>)
    ensures
        normalized(normalized(s)) == normalized(s),
{
    lemma_segments_normalized(s);
}

/// Normalizing a path, or a pattern, does not change which paths match
/// which patterns.
pub proof fn law_match_ignores_normalization(path: Seq<char>, pattern: Seq<char>)
    ensures
        pattern_matches(normalized(path), pattern) == pattern_matches(path, pattern),
        pattern_matches(path, normalized(pattern)) == pattern_matches(path, pattern),
        starts_with_pattern(normalized(path), pattern) == starts_with_pattern(path, pattern),
{
    lemma_segments_normalized(path);
    lemma_segments_normalized(pattern);
}

/// Every path is an instance of itself read as a pattern.
pub proof fn law_path_matches_itself(path: Seq<char>)
    ensures
        pattern_matches(path, path),
        starts_with_pattern(path, path),
        prefix_of_pattern(path, path),
{
}

/// A path that matches a pattern also lies at or below it and at or above it.
pub proof fn law_match_is_overlap(path: Seq<char>, pattern: Seq<char>)
    requires
        pattern_matches(path, pattern),
    ensures
        starts_with_pattern(path, pattern),
        prefix_of_pattern(path, pattern),
{
}

/// Overlap of two concrete paths does not depend on their order.
pub proof fn law_overlap_symmetric(left: Seq<char>, right: Seq<char>)
    ensures
        overlap(left, right) == overlap(right, left),
{
}

} // verus!
