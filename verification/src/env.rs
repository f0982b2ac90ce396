//! Mapping environment variable names to configuration paths and back.
use vstd::prelude::*;
use crate::text::{
    join, starts_with, ends_with, lower_all, upper_all, views, string_views, chars_of, string_of,
    join_chars, chars_eq, slice_chars, concat_chars, starts_with_chars, ends_with_chars,
    contains_char, lower_chars, upper_chars, split,
};
use crate::path::segments;

verus! {

/// `s` with every trailing copy of `sep` removed.
pub open spec fn strip_trailing(s: Seq<char>, sep: Seq<char>) -> Seq<char>
    decreases s.len(),
{
    if sep.len() > 0 && ends_with(s, sep) {
        strip_trailing(s.take(s.len() - sep.len()), sep)
    } else {
        s
    }
}

/// `s` with trailing `c` characters removed (`trim_end_matches`).
pub open spec fn trim_end(s: Seq<char>, c: char) -> Seq<char>
    decreases s.len(),
{
    if s.len() > 0 && s.last() == c {
        trim_end(s.drop_last(), c)
    } else {
        s
    }
}

/// The form of an environment prefix used to match variable names: trailing
/// separators removed, and trailing `_` removed unless `_` is the separator.
pub open spec fn env_prefix_form(prefix: Seq<char>, sep: Seq<char>) -> Seq<char> {
    if prefix.len() == 0 {
        prefix
    } else {
        let n = strip_trailing(prefix, sep);
        if sep != seq!['_'] {
            trim_end(n, '_')
        } else {
            n
        }
    }
}

fn strip_trailing_exec(s: &[char], sep: &[char]) -> (r: Vec<char>)
    ensures
        r@ == strip_trailing(s@, sep@),
{
    let mut cur = slice_chars(s, 0, s.len());
    assert(s@.subrange(0, s.len() as int) =~= s@);
    while sep.len() > 0 && ends_with_chars(&cur, sep)
        invariant
            strip_trailing(cur@, sep@) == strip_trailing(s@, sep@),
        decreases cur.len(),
    {
        cur = slice_chars(&cur, 0, cur.len() - sep.len());
        assert(cur@ =~= cur@);
    }
    cur
}

fn trim_end_exec(s: &[char], c: char) -> (r: Vec<char>)
    ensures
        r@ == trim_end(s@, c),
{
    let mut n: usize = s.len();
    assert(s@.take(s.len() as int) =~= s@);
    while n > 0 && s[n - 1] == c
        invariant
            n <= s.len(),
            trim_end(s@.take(n as int), c) == trim_end(s@, c),
        decreases n,
    {
        assert(s@.take(n as int).drop_last() =~= s@.take(n - 1));
        n = n - 1;
    }
    assert(s@.take(s.len() as int) =~= s@);
    slice_chars(s, 0, n)
}

/// The form of an environment prefix used to match variable names.
pub fn normalize_env_prefix(prefix: &str, separator: &str) -> (r: String)
    ensures
        r@ == env_prefix_form(prefix@, separator@),
{
    let p = chars_of(prefix);
    let s = chars_of(separator);
    string_of(&normalize_env_prefix_chars(&p, &s))
}

pub fn normalize_env_prefix_chars(prefix: &[char], sep: &[char]) -> (r: Vec<char>)
    ensures
        r@ == env_prefix_form(prefix@, sep@),
{
    if prefix.len() == 0 {
        return Vec::new();
    }
    let n = strip_trailing_exec(prefix, sep);
    let underscore = ['_'];
    assert(underscore@ =~= seq!['_']);
    if !chars_eq(sep, &underscore) {
        trim_end_exec(&n, '_')
    } else {
        n
    }
}

/// How a prefix must be followed by the rest of a variable name.
#[derive(Clone, Copy, PartialEq, Eq, Structural, Debug)]
pub enum PrefixBoundary {
    /// Only the separator may follow the prefix.
    SeparatorOnly,
    /// The separator follows, or a single `_` when the separator is `__`.
    Flexible,
}

/// The part of a variable name after its prefix, when it is properly
/// delimited and not empty.
pub open spec fn prefixed_remainder(rem: Seq<char>, sep: Seq<char>, boundary: PrefixBoundary) -> Option<Seq<char>> {
    let stripped: Option<Seq<char>> = if starts_with(rem, sep) {
        Some(rem.skip(sep.len() as int))
    } else if boundary == PrefixBoundary::Flexible && sep == seq!['_', '_'] && rem.len() > 0 && rem[0] == '_' {
        Some(rem.drop_first())
    } else {
        None
    };
    match stripped {
        Some(r) => if r.len() > 0 { Some(r) } else { None },
        None => None,
    }
}

pub fn parse_prefixed_env_remainder(remainder: &[char], separator: &[char], boundary: PrefixBoundary) -> (r: Option<Vec<char>>)
    ensures
        match r {
            Some(v) => prefixed_remainder(remainder@, separator@, boundary) == Some(v@),
            None => prefixed_remainder(remainder@, separator@, boundary) is None,
        },
{
    let dunder = ['_', '_'];
    assert(dunder@ =~= seq!['_', '_']);
    let stripped = if starts_with_chars(remainder, separator) {
        slice_chars(remainder, separator.len(), remainder.len())
    } else if boundary == PrefixBoundary::Flexible && chars_eq(separator, &dunder) && remainder.len() > 0 && remainder[0] == '_' {
        let v = slice_chars(remainder, 1, remainder.len());
        assert(v@ =~= remainder@.drop_first());
        v
    } else {
        return None;
    };
    assert(starts_with(remainder@, separator@) ==> stripped@ =~= remainder@.skip(separator@.len() as int));
    if stripped.len() > 0 {
        Some(stripped)
    } else {
        None
    }
}

/// The first position at or after `from` where `sep` (non-empty) occurs in `s`.
pub open spec fn find_from(s: Seq<char>, sep: Seq<char>, from: int) -> int
    decreases s.len() + 1 - from,
{
    if from < 0 || from + sep.len() > s.len() {
        -1
    } else if s.subrange(from, from + sep.len()) == sep {
        from
    } else {
        find_from(s, sep, from + 1)
    }
}

/// Splitting at a non-empty string separator, as `str::split(&str)` does
/// (leftmost, non-overlapping occurrences).
pub open spec fn split_at_sep(s: Seq<char>, sep: Seq<char>) -> Seq<Seq<char>>
    decreases s.len(),
{
    if sep.len() == 0 {
        seq![s]
    } else {
        let k = find_from(s, sep, 0);
        if k < 0 {
            seq![s]
        } else {
            proof {
                lemma_find_from(s, sep, 0);
            }
            seq![s.take(k)] + split_at_sep(s.skip(k + sep.len()), sep)
        }
    }
}

pub proof fn lemma_find_from(s: Seq<char>, sep: Seq<char>, from: int)
    requires
        from >= 0,
    ensures
        find_from(s, sep, from) == -1 || (from <= find_from(s, sep, from) && find_from(s, sep, from) + sep.len() <= s.len()
            && s.subrange(find_from(s, sep, from), find_from(s, sep, from) + sep.len()) == sep),
        forall|j: int| from <= j && (find_from(s, sep, from) < 0 || j < find_from(s, sep, from)) && j + sep.len() <= s.len()
            ==> #[trigger] s.subrange(j, j + sep.len()) != sep,
    decreases s.len() + 1 - from,
{
    if from + sep.len() <= s.len() && s.subrange(from, from + sep.len()) != sep {
        lemma_find_from(s, sep, from + 1);
    }
}

proof fn lemma_find_shift(s: Seq<char>, sep: Seq<char>, base: int, from: int)
    requires
        0 <= base <= s.len(),
        0 <= from,
        sep.len() > 0,
    ensures
        find_from(s.skip(base), sep, from) == (if find_from(s, sep, base + from) < 0 { -1 } else { find_from(s, sep, base + from) - base }),
    decreases s.len() - base - from,
{
    let t = s.skip(base);
    if from + sep.len() <= t.len() {
        assert(t.subrange(from, from + sep.len()) =~= s.subrange(base + from, base + from + sep.len()));
        if t.subrange(from, from + sep.len()) != sep {
            lemma_find_shift(s, sep, base, from + 1);
        }
    }
}

/// The first occurrence of `sep` at or after `from`.
fn find_exec(s: &[char], sep: &[char], from: usize) -> (r: Option<usize>)
    requires
        from <= s.len(),
        sep.len() > 0,
    ensures
        match r {
            Some(k) => find_from(s@, sep@, from as int) == k,
            None => find_from(s@, sep@, from as int) == -1,
        },
{
    if sep.len() > s.len() {
        return None;
    }
    let mut i = from;
    while i <= s.len() - sep.len()
        invariant
            from <= i <= s.len(),
            sep.len() <= s.len(),
            sep.len() > 0,
            find_from(s@, sep@, i as int) == find_from(s@, sep@, from as int),
        decreases s.len() - i,
    {
        let window = slice_chars(s, i, i + sep.len());
        if chars_eq(&window, sep) {
            return Some(i);
        }
        i = i + 1;
    }
    None
}

/// Splits `s` at every occurrence of the non-empty string `sep`.
pub fn split_at_sep_exec(s: &[char], sep: &[char]) -> (r: Vec<Vec<char>>)
    requires
        sep.len() > 0,
    ensures
        views(r@) == split_at_sep(s@, sep@),
{
    let mut out: Vec<Vec<char>> = Vec::new();
    let mut start: usize = 0;
    assert(s@.skip(0) =~= s@);
    while start <= s.len()
        invariant
            start <= s.len() + 1,
            sep.len() > 0,
            start <= s.len() ==> views(out@) + split_at_sep(s@.skip(start as int), sep@) == split_at_sep(s@, sep@),
            start > s.len() ==> views(out@) == split_at_sep(s@, sep@),
        decreases s.len() + 1 - start,
    {
        let ghost rest = s@.skip(start as int);
        proof {
            lemma_find_shift(s@, sep@, start as int, 0);
            lemma_find_from(s@, sep@, start as int);
        }
        match find_exec(s, sep, start) {
            Some(k) => {
                let piece = slice_chars(s, start, k);
                let ghost old = views(out@);
                out.push(piece);
                assert(views(out@) =~= old.push(piece@));
                assert(piece@ =~= rest.take(k - start));
                assert(rest.skip(k - start + sep.len()) =~= s@.skip(k + sep.len()));
                assert(old + split_at_sep(rest, sep@) =~= views(out@) + split_at_sep(s@.skip(k + sep.len()), sep@));
                start = k + sep.len();
            },
            None => {
                let piece = slice_chars(s, start, s.len());
                let ghost old = views(out@);
                out.push(piece);
                assert(piece@ =~= rest);
                assert(views(out@) =~= old + split_at_sep(rest, sep@));
                return out;
            },
        }
    }
    out
}

/// Why an object key cannot be one segment of a configuration path.
pub open spec fn key_problem(key: Seq<char>) -> Option<Seq<char>> {
    if key.len() == 0 {
        Some("empty object keys are not supported"@)
    } else if key == seq!['*'] {
        Some("`*` is reserved for wildcard metadata paths"@)
    } else if key.contains('.') {
        Some("`.` is reserved as the configuration path separator"@)
    } else if key.contains('[') || key.contains(']') {
        Some("`[` and `]` are reserved for external array path syntax"@)
    } else {
        None
    }
}

/// Explains why `key` cannot be a configuration path segment, if it cannot.
pub fn invalid_path_key_message(key: &str) -> (r: Option<String>)
    ensures
        match r {
            Some(m) => key_problem(key@) == Some(m@),
            None => key_problem(key@) is None,
        },
{
    let k = chars_of(key);
    invalid_key_message_chars(&k)
}

pub fn invalid_key_message_chars(k: &[char]) -> (r: Option<String>)
    ensures
        match r {
            Some(m) => key_problem(k@) == Some(m@),
            None => key_problem(k@) is None,
        },
{
    if k.len() == 0 {
        Some("empty object keys are not supported".to_string())
    } else if k.len() == 1 && k[0] == '*' {
        assert(k@ =~= seq!['*']);
        Some("`*` is reserved for wildcard metadata paths".to_string())
    } else if contains_char(k, '.') {
        assert(k@ != seq!['*']);
        Some("`.` is reserved as the configuration path separator".to_string())
    } else if contains_char(k, '[') || contains_char(k, ']') {
        assert(k@ != seq!['*']);
        Some("`[` and `]` are reserved for external array path syntax".to_string())
    } else {
        assert(k@ != seq!['*']);
        None
    }
}

/// A variable name whose segments cannot form a configuration path.
pub struct DerivedEnvPathError {
    /// The path built up to and including the offending segment.
    pub path: String,
    /// What is wrong with the segment.
    pub message: String,
}

pub open spec fn env_segment_prefix() -> Seq<char> {
    "environment variable segments must not contain reserved path syntax: "@
}

/// What a variable name maps to: `Ok(None)` when the name does not belong
/// to the source, `Ok(Some(path))` for the derived path, or the offending
/// partial path and message.
pub open spec fn env_var_path(key: Seq<char>, prefix: Option<Seq<char>>, sep: Seq<char>, lowercase: bool) -> Result<Option<Seq<char>>, (Seq<char>, Seq<char>)> {
    let rem: Option<Seq<char>> = match prefix {
        None => Some(key),
        Some(p) => {
            let n = env_prefix_form(p, sep);
            if n.len() == 0 {
                Some(key)
            } else if key == n || !starts_with(key, n) {
                None
            } else {
                let boundary = if ends_with(p, sep) && sep.len() > 0 {
                    PrefixBoundary::SeparatorOnly
                } else {
                    PrefixBoundary::Flexible
                };
                prefixed_remainder(key.skip(n.len() as int), sep, boundary)
            }
        },
    };
    match rem {
        None => Ok(None),
        Some(r) => if r.len() == 0 || sep.len() == 0 {
            Ok(None)
        } else {
            env_segments(split_at_sep(r, sep), lowercase, Seq::empty())
        },
    }
}

/// Converts the pieces of a variable name into path segments, stopping at
/// the first empty or reserved one.
pub open spec fn env_segments(pieces: Seq<Seq<char>>, lowercase: bool, done: Seq<Seq<char>>) -> Result<Option<Seq<char>>, (Seq<char>, Seq<char>)>
    decreases pieces.len(),
{
    if pieces.len() == 0 {
        Ok(Some(join(done, seq!['.'])))
    } else {
        let piece = pieces[0];
        if piece.len() == 0 {
            Ok(None)
        } else {
            let seg = if lowercase { lower_all(piece) } else { piece };
            match key_problem(seg) {
                Some(m) => Err((join(done.push(seg), seq!['.']), env_segment_prefix() + m)),
                None => env_segments(pieces.drop_first(), lowercase, done.push(seg)),
            }
        }
    }
}

/// Derives the configuration path for an environment variable name.
pub fn path_for_env_var(key: &str, prefix: Option<&str>, separator: &str, lowercase_segments: bool) -> (r: Result<Option<String>, DerivedEnvPathError>)
    ensures
        match r {
            Ok(Some(p)) => env_var_path(key@, match prefix { Some(p) => Some(p@), None => None }, separator@, lowercase_segments) == Ok::<Option<Seq<char>>, (Seq<char>, Seq<char>)>(Some(p@)),
            Ok(None) => env_var_path(key@, match prefix { Some(p) => Some(p@), None => None }, separator@, lowercase_segments) == Ok::<Option<Seq<char>>, (Seq<char>, Seq<char>)>(None),
            Err(e) => env_var_path(key@, match prefix { Some(p) => Some(p@), None => None }, separator@, lowercase_segments) == Err::<Option<Seq<char>>, (Seq<char>, Seq<char>)>((e.path@, e.message@)),
        },
{
    let k = chars_of(key);
    let sep = chars_of(separator);
    let rem: Vec<char> = match prefix {
        None => slice_chars(&k, 0, k.len()),
        Some(p) => {
            let pc = chars_of(p);
            let n = normalize_env_prefix_chars(&pc, &sep);
            if n.len() == 0 {
                slice_chars(&k, 0, k.len())
            } else if chars_eq(&k, &n) || !starts_with_chars(&k, &n) {
                return Ok(None);
            } else {
                let boundary = if ends_with_chars(&pc, &sep) && sep.len() > 0 {
                    PrefixBoundary::SeparatorOnly
                } else {
                    PrefixBoundary::Flexible
                };
                let after = slice_chars(&k, n.len(), k.len());
                assert(after@ =~= k@.skip(n@.len() as int));
                match parse_prefixed_env_remainder(&after, &sep, boundary) {
                    Some(r) => r,
                    None => {
                        return Ok(None);
                    },
                }
            }
        },
    };
    assert(k@.subrange(0, k@.len() as int) =~= k@);
    if rem.len() == 0 || sep.len() == 0 {
        return Ok(None);
    }
    let pieces = split_at_sep_exec(&rem, &sep);
    let ghost all_pieces = views(pieces@);
    let ghost pv: Option<Seq<char>> = match prefix { Some(p) => Some(p@), None => None };
    assert(env_var_path(key@, pv, separator@, lowercase_segments) == env_segments(all_pieces, lowercase_segments, Seq::empty()));
    let mut done: Vec<Vec<char>> = Vec::new();
    assert(views(done@) =~= Seq::<Seq<char>>::empty());
    let mut i: usize = 0;
    let dot = ['.'];
    assert(dot@ =~= seq!['.']);
    assert(all_pieces.skip(0) =~= all_pieces);
    while i < pieces.len()
        invariant
            i <= pieces.len(),
            all_pieces == views(pieces@),
            dot@ == seq!['.'],
            env_segments(all_pieces.skip(i as int), lowercase_segments, views(done@)) == env_segments(all_pieces, lowercase_segments, Seq::empty()),
            env_var_path(key@, pv, separator@, lowercase_segments) == env_segments(all_pieces, lowercase_segments, Seq::empty()),
            pv == (match prefix { Some(p) => Some(p@), None => None }),
        decreases pieces.len() - i,
    {
        let ghost rest = all_pieces.skip(i as int);
        assert(rest[0] == pieces@[i as int]@);
        assert(rest.drop_first() =~= all_pieces.skip(i + 1));
        if pieces[i].len() == 0 {
            return Ok(None);
        }
        let seg = if lowercase_segments {
            lower_chars(&pieces[i])
        } else {
            slice_chars(&pieces[i], 0, pieces[i].len())
        };
        assert(!lowercase_segments ==> seg@ =~= pieces@[i as int]@);
        match invalid_key_message_chars(&seg) {
            Some(m) => {
                let ghost old = views(done@);
                done.push(seg);
                assert(views(done@) =~= old.push(seg@));
                let path = join_chars(&done, &dot);
                let prefix_text = chars_of("environment variable segments must not contain reserved path syntax: ");
                let mc = chars_of(m.as_str());
                let msg = concat_chars(&prefix_text, &mc);
                return Err(DerivedEnvPathError { path: string_of(&path), message: string_of(&msg) });
            },
            None => {
                let ghost old = views(done@);
                done.push(seg);
                assert(views(done@) =~= old.push(seg@));
            },
        }
        i = i + 1;
    }
    assert(all_pieces.skip(pieces.len() as int) =~= Seq::<Seq<char>>::empty());
    let joined = join_chars(&done, &dot);
    Ok(Some(string_of(&joined)))
}

/// `join` seen from the front: the first part, the separator, then the
/// rest joined.
pub proof fn lemma_join_front(parts: Seq<Seq<char>>, sep: Seq<char>)
    requires
        parts.len() >= 2,
    ensures
        join(parts, sep) == parts[0] + sep + join(parts.drop_first(), sep),
    decreases parts.len(),
{
    let tail = parts.drop_first();
    let init = parts.drop_last();
    if parts.len() == 2 {
        assert(init.len() == 1);
        assert(init[0] == parts[0]);
        assert(join(init, sep) == parts[0]);
        assert(tail.len() == 1);
        assert(tail[0] == parts[1]);
        assert(join(tail, sep) == parts[1]);
        assert(parts.last() == parts[1]);
    } else {
        lemma_join_front(init, sep);
        assert(init.drop_first() =~= tail.drop_last());
        assert(tail.last() == parts.last());
        assert(init[0] == parts[0]);
        assert(join(tail, sep) == join(tail.drop_last(), sep) + sep + tail.last());
        assert(join(parts, sep) == join(init, sep) + sep + parts.last());
        assert(join(parts, sep) =~= parts[0] + sep + join(tail, sep));
    }
}

proof fn lemma_find_exact(s: Seq<char>, sep: Seq<char>, from: int, k: int)
    requires
        0 <= from <= k,
        k + sep.len() <= s.len(),
        s.subrange(k, k + sep.len()) == sep,
        forall|j: int| from <= j < k ==> #[trigger] s.subrange(j, j + sep.len()) != sep,
    ensures
        find_from(s, sep, from) == k,
    decreases k - from,
{
    if from < k {
        lemma_find_exact(s, sep, from + 1, k);
    }
}

proof fn lemma_find_none(s: Seq<char>, sep: Seq<char>, from: int)
    requires
        0 <= from,
        forall|j: int| from <= j && j + sep.len() <= s.len() ==> #[trigger] s.subrange(j, j + sep.len()) != sep,
    ensures
        find_from(s, sep, from) == -1,
    decreases s.len() + 1 - from,
{
    if from + sep.len() <= s.len() {
        lemma_find_none(s, sep, from + 1);
    }
}

/// Pieces that `__` can join and split apart again: not empty, no `__`
/// inside, and not ending in `_`.
pub open spec fn dunder_safe(piece: Seq<char>) -> bool {
    &&& piece.len() > 0
    &&& piece.last() != '_'
    &&& forall|i: int| 0 <= i < piece.len() - 1 ==> !(#[trigger] piece[i] == '_' && piece[i + 1] == '_')
}

/// Splitting at `__` what `__` joined gives the pieces back.
pub proof fn lemma_split_dunder_join(parts: Seq<Seq<char>>)
    requires
        parts.len() >= 1,
        forall|i: int| 0 <= i < parts.len() ==> dunder_safe(#[trigger] parts[i]),
    ensures
        split_at_sep(join(parts, seq!['_', '_']), seq!['_', '_']) == parts,
    decreases parts.len(),
{
    let sep = seq!['_', '_'];
    let p0 = parts[0];
    assert(dunder_safe(p0));
    if parts.len() == 1 {
        assert forall|j: int| 0 <= j && j + sep.len() <= p0.len() implies #[trigger] p0.subrange(j, j + sep.len()) != sep by {
            if p0.subrange(j, j + 2) == sep {
                assert(p0.subrange(j, j + 2)[0] == p0[j]);
                assert(p0.subrange(j, j + 2)[1] == p0[j + 1]);
            }
        }
        lemma_find_none(p0, sep, 0);
        assert(seq![p0] =~= parts);
    } else {
        let tail = parts.drop_first();
        assert forall|i: int| 0 <= i < tail.len() implies dunder_safe(#[trigger] tail[i]) by {
            assert(tail[i] == parts[i + 1]);
        }
        lemma_split_dunder_join(tail);
        lemma_join_front(parts, sep);
        let rest = join(tail, sep);
        let s = p0 + sep + rest;
        let k = p0.len() as int;
        assert(s.subrange(k, k + 2) =~= sep);
        assert forall|j: int| 0 <= j < k implies #[trigger] s.subrange(j, j + sep.len()) != sep by {
            if s.subrange(j, j + 2) == sep {
                assert(s.subrange(j, j + 2)[0] == s[j]);
                assert(s.subrange(j, j + 2)[1] == s[j + 1]);
                assert(s[j] == p0[j]);
                if j + 1 < k {
                    assert(s[j + 1] == p0[j + 1]);
                } else {
                    assert(p0.last() == p0[j]);
                }
            }
        }
        lemma_find_exact(s, sep, 0, k);
        assert(s.take(k) =~= p0);
        assert(s.skip(k + 2) =~= rest);
        assert(seq![p0] + tail =~= parts);
    }
}

/// Turning variable-name pieces into segments: pieces that lowercase to
/// valid keys give the path that joins those keys.
pub proof fn lemma_env_segments_valid(pieces: Seq<Seq<char>>, segs: Seq<Seq<char>>, done: Seq<Seq<char>>)
    requires
        pieces.len() == segs.len(),
        forall|i: int| 0 <= i < pieces.len() ==> (#[trigger] pieces[i]).len() > 0 && lower_all(pieces[i]) == segs[i]
            && key_problem(segs[i]) is None,
    ensures
        env_segments(pieces, true, done) == Ok::<Option<Seq<char>>, (Seq<char>, Seq<char>)>(Some(join(done + segs, seq!['.']))),
    decreases pieces.len(),
{
    if pieces.len() == 0 {
        assert(done + segs =~= done);
    } else {
        assert(pieces[0].len() > 0 && lower_all(pieces[0]) == segs[0] && key_problem(segs[0]) is None);
        let pt = pieces.drop_first();
        let st = segs.drop_first();
        assert forall|i: int| 0 <= i < pt.len() implies (#[trigger] pt[i]).len() > 0 && lower_all(pt[i]) == st[i]
            && key_problem(st[i]) is None by {
            assert(pt[i] == pieces[i + 1]);
            assert(st[i] == segs[i + 1]);
            assert(pieces[i + 1].len() > 0 && lower_all(pieces[i + 1]) == segs[i + 1] && key_problem(segs[i + 1]) is None);
        }
        lemma_env_segments_valid(pt, st, done.push(segs[0]));
        assert(done.push(segs[0]) + st =~= done + segs);
    }
}

} // verus!
