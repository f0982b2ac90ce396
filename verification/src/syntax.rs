//! The external path syntax: dot-separated field names with bracketed array
//! indices, as in `servers[0].port`.
use vstd::prelude::*;
use crate::text::{
    join, views, string_views, all_chars, is_digit, digits_value, decimal, chars_of, string_of, join_chars,
    all_digits, parse_digits, decimal_chars, slice_chars, lemma_decimal_digits,
};
use crate::path::{normalized, normalize_path_chars, star};

verus! {

/// Why a configuration path could not be read.
#[derive(PartialEq, Eq, Structural, Clone, Copy, Debug)]
pub enum SyntaxError {
    EndsWithDot,
    ExpectedSeparator,
    EmptySegment,
    IndexWithoutField,
    UnexpectedClose,
    UnclosedIndex,
    EmptyIndex,
    NonNumericIndex,
    IndexTooLarge,
}

/// The message the loader reports for each syntax error.
pub open spec fn syntax_message(e: SyntaxError) -> Seq<char> {
    match e {
        SyntaxError::EndsWithDot => "configuration path cannot end with `.`"@,
        SyntaxError::ExpectedSeparator => "expected `.` or `[` after an array index in configuration path"@,
        SyntaxError::EmptySegment => "empty path segment in configuration path"@,
        SyntaxError::IndexWithoutField => "array indices must follow a field name"@,
        SyntaxError::UnexpectedClose => "unexpected `]` in configuration path"@,
        SyntaxError::UnclosedIndex => "unclosed `[` in configuration path"@,
        SyntaxError::EmptyIndex => "empty array index in configuration path"@,
        SyntaxError::NonNumericIndex => "array indices in configuration paths must be numeric"@,
        SyntaxError::IndexTooLarge => "array indices in configuration paths must fit in usize"@,
    }
}

impl SyntaxError {
    /// The message of this error.
    pub fn message(&self) -> (r: String)
        ensures
            r@ == syntax_message(*self),
    {
        match self {
            SyntaxError::EndsWithDot => "configuration path cannot end with `.`".to_string(),
            SyntaxError::ExpectedSeparator => "expected `.` or `[` after an array index in configuration path".to_string(),
            SyntaxError::EmptySegment => "empty path segment in configuration path".to_string(),
            SyntaxError::IndexWithoutField => "array indices must follow a field name".to_string(),
            SyntaxError::UnexpectedClose => "unexpected `]` in configuration path".to_string(),
            SyntaxError::UnclosedIndex => "unclosed `[` in configuration path".to_string(),
            SyntaxError::EmptyIndex => "empty array index in configuration path".to_string(),
            SyntaxError::NonNumericIndex => "array indices in configuration paths must be numeric".to_string(),
            SyntaxError::IndexTooLarge => "array indices in configuration paths must fit in usize".to_string(),
        }
    }
}

/// The position of the first `]` in `s`, or -1.
pub open spec fn first_close(s: Seq<char>) -> int
    decreases s.len(),
{
    if s.len() == 0 {
        -1
    } else if s[0] == ']' {
        0
    } else {
        let k = first_close(s.drop_first());
        if k < 0 {
            -1
        } else {
            k + 1
        }
    }
}

pub proof fn lemma_first_close(s: Seq<char>)
    ensures
        -1 <= first_close(s) < s.len(),
        first_close(s) >= 0 ==> s[first_close(s)] == ']',
        forall|j: int| 0 <= j < (if first_close(s) < 0 { s.len() as int } else { first_close(s) }) ==> s[j] != ']',
    decreases s.len(),
{
    if s.len() > 0 && s[0] != ']' {
        lemma_first_close(s.drop_first());
        let k = first_close(s.drop_first());
        assert forall|j: int| 0 <= j < (if first_close(s) < 0 { s.len() as int } else { first_close(s) }) implies s[j] != ']' by {
            if j > 0 {
                assert(s[j] == s.drop_first()[j - 1]);
            }
        }
    }
}

/// Reads a bracketed index that starts right after `[`: the canonical
/// decimal form of the index and how many characters (the closing `]`
/// included) it took.
pub open spec fn scan_index(tail: Seq<char>) -> Result<(Seq<char>, int), SyntaxError> {
    let k = first_close(tail);
    if k < 0 {
        Err(SyntaxError::UnclosedIndex)
    } else if k == 0 {
        Err(SyntaxError::EmptyIndex)
    } else if !all_chars(tail.take(k), |c: char| is_digit(c)) {
        Err(SyntaxError::NonNumericIndex)
    } else if digits_value(tail.take(k)) > usize::MAX {
        Err(SyntaxError::IndexTooLarge)
    } else {
        Ok((decimal(digits_value(tail.take(k))), k + 1))
    }
}

/// The segments read so far plus the rest of the input, following the
/// path grammar; each segment says whether it came from brackets.
pub open spec fn scan(
    rest: Seq<char>,
    segs: Seq<(Seq<char>, bool)>,
    cur: Seq<char>,
    after_index: bool,
    expecting: bool,
) -> Result<Seq<(Seq<char>, bool)>, SyntaxError>
    decreases rest.len(),
{
    if rest.len() == 0 {
        if expecting && segs.len() > 0 && cur.len() == 0 && !after_index {
            Err(SyntaxError::EndsWithDot)
        } else if cur.len() > 0 {
            Ok(segs.push((cur, false)))
        } else {
            Ok(segs)
        }
    } else {
        let ch = rest[0];
        let tail = rest.drop_first();
        proof {
            lemma_first_close(tail);
        }
        if after_index {
            if ch == '.' {
                if tail.len() == 0 {
                    Err(SyntaxError::EndsWithDot)
                } else {
                    scan(tail, segs, cur, false, true)
                }
            } else if ch == '[' {
                match scan_index(tail) {
                    Err(e) => Err(e),
                    Ok((idx, n)) => scan(tail.skip(n), segs.push((idx, true)), cur, true, false),
                }
            } else {
                Err(SyntaxError::ExpectedSeparator)
            }
        } else if ch == '.' {
            if cur.len() == 0 {
                Err(SyntaxError::EmptySegment)
            } else {
                scan(tail, segs.push((cur, false)), Seq::empty(), false, true)
            }
        } else if ch == '[' {
            if cur.len() == 0 {
                Err(SyntaxError::IndexWithoutField)
            } else {
                match scan_index(tail) {
                    Err(e) => Err(e),
                    Ok((idx, n)) => scan(
                        tail.skip(n),
                        segs.push((cur, false)).push((idx, true)),
                        Seq::empty(),
                        true,
                        false,
                    ),
                }
            }
        } else if ch == ']' {
            Err(SyntaxError::UnexpectedClose)
        } else {
            scan(tail, segs, cur.push(ch), false, false)
        }
    }
}

/// How a path reads: its segments (each marked when it was a bracketed
/// index), or the first syntax error. `.` alone is the root.
pub open spec fn parse_path(s: Seq<char>) -> Result<Seq<(Seq<char>, bool)>, SyntaxError> {
    if s == seq!['.'] {
        Ok(Seq::empty())
    } else {
        scan(s, Seq::empty(), Seq::empty(), false, true)
    }
}

pub open spec fn names(segs: Seq<(Seq<char>, bool)>) -> Seq<Seq<char>> {
    segs.map_values(|p: (Seq<char>, bool)| p.0)
}

/// The dot form of a parsed path.
pub open spec fn dotted(segs: Seq<(Seq<char>, bool)>) -> Seq<char> {
    join(names(segs), seq!['.'])
}

/// A segment read from the input, with whether it was a bracketed index.
pub struct Segment {
    pub name: Vec<char>,
    pub bracketed: bool,
}

pub open spec fn seg_views(v: Seq<Segment>) -> Seq<(Seq<char>, bool)> {
    v.map_values(|s: Segment| (s.name@, s.bracketed))
}

/// Reads the bracketed index that starts at `start` (just after `[`).
fn scan_index_exec(s: &[char], start: usize) -> (r: Result<(Vec<char>, usize), SyntaxError>)
    requires
        start <= s.len(),
    ensures
        match r {
            Ok((idx, next)) => scan_index(s@.skip(start as int)) == Ok::<(Seq<char>, int), SyntaxError>((idx@, next - start))
                && start < next <= s.len(),
            Err(e) => scan_index(s@.skip(start as int)) == Err::<(Seq<char>, int), SyntaxError>(e),
        },
{
    let ghost tail = s@.skip(start as int);
    proof {
        lemma_first_close(tail);
    }
    let mut k: usize = start;
    while k < s.len() && s[k] != ']'
        invariant
            start <= k <= s.len(),
            tail == s@.skip(start as int),
            forall|j: int| start <= j < k ==> s@[j] != ']',
        decreases s.len() - k,
    {
        k = k + 1;
    }
    if k == s.len() {
        proof {
            let fc = first_close(tail);
            if fc >= 0 {
                assert(tail[fc] == s@[start + fc]);
            }
        }
        return Err(SyntaxError::UnclosedIndex);
    }
    proof {
        let fc = first_close(tail);
        assert(tail[k - start] == ']');
        if fc < 0 || fc > k - start {
            assert(tail[k - start] != ']');
        }
        if fc >= 0 && fc < k - start {
            assert(tail[fc] == s@[start + fc]);
        }
        assert(fc == k - start);
    }
    if k == start {
        return Err(SyntaxError::EmptyIndex);
    }
    let digits = slice_chars(s, start, k);
    assert(digits@ =~= tail.take(k - start));
    if !all_digits(&digits) {
        return Err(SyntaxError::NonNumericIndex);
    }
    match parse_digits(&digits) {
        None => Err(SyntaxError::IndexTooLarge),
        Some(v) => Ok((decimal_chars(v), k + 1)),
    }
}

/// Reads a configuration path into its segments.
pub fn parse_path_exec(s: &[char]) -> (r: Result<Vec<Segment>, SyntaxError>)
    ensures
        match r {
            Ok(v) => parse_path(s@) == Ok::<Seq<(Seq<char>, bool)>, SyntaxError>(seg_views(v@)),
            Err(e) => parse_path(s@) == Err::<Seq<(Seq<char>, bool)>, SyntaxError>(e),
        },
{
    if s.len() == 1 && s[0] == '.' {
        assert(s@ =~= seq!['.']);
        let v: Vec<Segment> = Vec::new();
        assert(seg_views(v@) =~= Seq::<(Seq<char>, bool)>::empty());
        return Ok(v);
    }
    assert(s@ != seq!['.']);
    let ghost goal = scan(s@, Seq::empty(), Seq::empty(), false, true);
    let mut segs: Vec<Segment> = Vec::new();
    let mut cur: Vec<char> = Vec::new();
    let mut after_index = false;
    let mut expecting = true;
    let mut i: usize = 0;
    assert(s@.skip(0) =~= s@);
    assert(seg_views(segs@) =~= Seq::<(Seq<char>, bool)>::empty());
    while i < s.len()
        invariant
            i <= s.len(),
            goal == scan(s@, Seq::empty(), Seq::empty(), false, true),
            s@ != seq!['.'],
            scan(s@.skip(i as int), seg_views(segs@), cur@, after_index, expecting) == goal,
        decreases s.len() - i,
    {
        let ch = s[i];
        let ghost rest = s@.skip(i as int);
        let ghost tail = rest.drop_first();
        assert(tail =~= s@.skip(i + 1));
        assert(rest[0] == ch);
        if after_index {
            if ch == '.' {
                if i + 1 == s.len() {
                    return Err(SyntaxError::EndsWithDot);
                }
                after_index = false;
                expecting = true;
                i = i + 1;
            } else if ch == '[' {
                match scan_index_exec(s, i + 1) {
                    Err(e) => {
                        return Err(e);
                    },
                    Ok((idx, next)) => {
                        let ghost old_views = seg_views(segs@);
                        assert(tail.skip(next - (i + 1)) =~= s@.skip(next as int));
                        segs.push(Segment { name: idx, bracketed: true });
                        assert(seg_views(segs@) =~= old_views.push((idx@, true)));
                        after_index = true;
                        expecting = false;
                        i = next;
                    },
                }
            } else {
                return Err(SyntaxError::ExpectedSeparator);
            }
        } else if ch == '.' {
            if cur.len() == 0 {
                assert(scan(rest, seg_views(segs@), cur@, after_index, expecting) == Err::<Seq<(Seq<char>, bool)>, SyntaxError>(SyntaxError::EmptySegment));
                return Err(SyntaxError::EmptySegment);
            }
            let ghost old_views = seg_views(segs@);
            let name = cur;
            cur = Vec::new();
            segs.push(Segment { name, bracketed: false });
            assert(seg_views(segs@) =~= old_views.push((name@, false)));
            assert(cur@ =~= Seq::<char>::empty());
            expecting = true;
            i = i + 1;
        } else if ch == '[' {
            if cur.len() == 0 {
                return Err(SyntaxError::IndexWithoutField);
            }
            match scan_index_exec(s, i + 1) {
                Err(e) => {
                    return Err(e);
                },
                Ok((idx, next)) => {
                    let ghost old_views = seg_views(segs@);
                    assert(tail.skip(next - (i + 1)) =~= s@.skip(next as int));
                    let name = cur;
                    cur = Vec::new();
                    segs.push(Segment { name, bracketed: false });
                    segs.push(Segment { name: idx, bracketed: true });
                    assert(seg_views(segs@) =~= old_views.push((name@, false)).push((idx@, true)));
                    assert(cur@ =~= Seq::<char>::empty());
                    after_index = true;
                    expecting = false;
                    i = next;
                },
            }
        } else if ch == ']' {
            return Err(SyntaxError::UnexpectedClose);
        } else {
            cur.push(ch);
            expecting = false;
            i = i + 1;
        }
    }
    assert(s@.skip(i as int) =~= Seq::<char>::empty());
    if expecting && segs.len() > 0 && cur.len() == 0 && !after_index {
        return Err(SyntaxError::EndsWithDot);
    }
    if cur.len() > 0 {
        let ghost old_views = seg_views(segs@);
        let name = cur;
        segs.push(Segment { name, bracketed: false });
        assert(seg_views(segs@) =~= old_views.push((name@, false)));
    }
    Ok(segs)
}

/// The names of parsed segments.
fn segment_names(v: &Vec<Segment>) -> (r: Vec<Vec<char>>)
    ensures
        views(r@) == names(seg_views(v@)),
{
    let mut r: Vec<Vec<char>> = Vec::new();
    let mut i: usize = 0;
    while i < v.len()
        invariant
            i <= v.len(),
            views(r@) == names(seg_views(v@)).take(i as int),
        decreases v.len() - i,
    {
        let n = slice_chars(&v[i].name, 0, v[i].name.len());
        assert(v@[i as int].name@.subrange(0, v@[i as int].name@.len() as int) =~= v@[i as int].name@);
        let ghost old_r = views(r@);
        r.push(n);
        assert(names(seg_views(v@))[i as int] == v@[i as int].name@);
        assert(views(r@) =~= old_r.push(n@));
        assert(views(r@) =~= names(seg_views(v@)).take(i + 1));
        i = i + 1;
    }
    assert(names(seg_views(v@)).take(v.len() as int) =~= names(seg_views(v@)));
    r
}

/// The dot form of parsed segments.
pub fn dotted_exec(v: &Vec<Segment>) -> (r: Vec<char>)
    ensures
        r@ == dotted(seg_views(v@)),
{
    let ns = segment_names(v);
    let sep = ['.'];
    assert(sep@ =~= seq!['.']);
    join_chars(&ns, &sep)
}

/// What `try_normalize_external_path` returns for a path.
pub open spec fn external_path_result(s: Seq<char>) -> Result<Seq<char>, Seq<char>> {
    match parse_path(s) {
        Ok(segs) => Ok(normalized(dotted(segs))),
        Err(e) => Err(syntax_message(e)),
    }
}

/// Converts a user-facing path such as `servers[0].port` into its dot form
/// `servers.0.port`, or explains why it cannot be read.
pub fn try_normalize_external_path(path: &str) -> (r: Result<String, String>)
    ensures
        match r {
            Ok(p) => external_path_result(path@) == Ok::<Seq<char>, Seq<char>>(p@),
            Err(m) => external_path_result(path@) == Err::<Seq<char>, Seq<char>>(m@),
        },
{
    let cs = chars_of(path);
    match parse_path_exec(&cs) {
        Ok(segs) => {
            let d = dotted_exec(&segs);
            Ok(string_of(&normalize_path_chars(&d)))
        },
        Err(e) => Err(e.message()),
    }
}

/// The dot form of a user-facing path; a path that cannot be read keeps
/// its text with empty segments removed.
pub fn normalize_external_path(path: &str) -> (r: String)
    ensures
        r@ == match external_path_result(path@) {
            Ok(p) => p,
            Err(_) => normalized(path@),
        },
{
    match try_normalize_external_path(path) {
        Ok(p) => p,
        Err(_) => {
            let cs = chars_of(path);
            string_of(&normalize_path_chars(&cs))
        },
    }
}

} // verus!

verus! {

/// Some segment holds `*` without being exactly `*`.
pub open spec fn has_bad_wildcard(ns: Seq<Seq<char>>) -> bool {
    exists|i: int| 0 <= i < ns.len() && (#[trigger] ns[i]).contains('*') && ns[i] != star()
}

pub open spec fn wildcard_message() -> Seq<char> {
    "wildcard path segments must be exactly `*`"@
}

/// The input reads up to a bracketed index too large for `usize`, where
/// metadata and patch paths stop the program.
pub open spec fn index_overflows(s: Seq<char>) -> bool {
    parse_path(s) == Err::<Seq<(Seq<char>, bool)>, SyntaxError>(SyntaxError::IndexTooLarge)
}

/// What `try_normalize_metadata_path` returns for a path.
pub open spec fn metadata_path_result(s: Seq<char>) -> Result<Seq<char>, Seq<char>> {
    match parse_path(s) {
        Ok(segs) => if has_bad_wildcard(names(segs)) {
            Err(wildcard_message())
        } else {
            Ok(dotted(segs))
        },
        Err(e) => Err(syntax_message(e)),
    }
}

/// Whether some segment holds `*` without being exactly `*`.
fn bad_wildcard_exec(v: &Vec<Segment>) -> (r: bool)
    ensures
        r == has_bad_wildcard(names(seg_views(v@))),
{
    let wild = ['*'];
    assert(wild@ =~= star());
    let ghost ns = names(seg_views(v@));
    let mut i: usize = 0;
    while i < v.len()
        invariant
            i <= v.len(),
            ns == names(seg_views(v@)),
            ns.len() == v@.len(),
            wild@ == star(),
            forall|j: int| 0 <= j < i ==> !((#[trigger] ns[j]).contains('*') && ns[j] != star()),
        decreases v.len() - i,
    {
        assert(ns[i as int] == v@[i as int].name@);
        if crate::text::contains_char(&v[i].name, '*') && !crate::text::chars_eq(&v[i].name, &wild) {
            return true;
        }
        i = i + 1;
    }
    false
}

/// Normalizes a metadata path, which may use `*` wildcard segments.
pub fn try_normalize_metadata_path(path: &str) -> (r: Result<String, String>)
    requires
        !index_overflows(path@),
    ensures
        match r {
            Ok(p) => metadata_path_result(path@) == Ok::<Seq<char>, Seq<char>>(p@),
            Err(m) => metadata_path_result(path@) == Err::<Seq<char>, Seq<char>>(m@),
        },
{
    let cs = chars_of(path);
    match parse_path_exec(&cs) {
        Ok(segs) => {
            if bad_wildcard_exec(&segs) {
                Err("wildcard path segments must be exactly `*`".to_string())
            } else {
                Ok(string_of(&dotted_exec(&segs)))
            }
        },
        Err(e) => Err(e.message()),
    }
}

/// The normalized metadata path, or the input unchanged when it cannot be read.
pub fn normalize_metadata_path(path: &str) -> (r: String)
    requires
        !index_overflows(path@),
    ensures
        r@ == match metadata_path_result(path@) {
            Ok(p) => p,
            Err(_) => path@,
        },
{
    match try_normalize_metadata_path(path) {
        Ok(p) => p,
        Err(_) => path.to_string(),
    }
}

/// Reads a patch path into its segments and the positions of the segments
/// that were written as bracketed indices.
pub fn parse_patch_path(path: &str) -> (r: Result<(Vec<String>, Vec<usize>), String>)
    requires
        !index_overflows(path@),
    ensures
        match r {
            Ok((segs, marks)) => match parse_path(path@) {
                Ok(ps) => string_views(segs@) == names(ps)
                    && (forall|x: int| 0 <= x < ps.len() ==> (marks@.contains(x as usize) <==> ps[x].1))
                    && (forall|k: int| 0 <= k < marks@.len() ==> marks@[k] < ps.len())
                    && forall|a: int, b: int| 0 <= a < b < marks@.len() ==> marks@[a] < marks@[b],
                Err(_) => false,
            },
            Err(m) => match parse_path(path@) {
                Ok(_) => false,
                Err(e) => m@ == syntax_message(e),
            },
        },
{
    let cs = chars_of(path);
    match parse_path_exec(&cs) {
        Ok(segs) => {
            let ghost ps = seg_views(segs@);
            let mut names_out: Vec<String> = Vec::new();
            let mut marks: Vec<usize> = Vec::new();
            let mut i: usize = 0;
            while i < segs.len()
                invariant
                    i <= segs.len(),
                    ps == seg_views(segs@),
                    string_views(names_out@) == names(ps).take(i as int),
                    forall|k: int| 0 <= k < marks@.len() ==> marks@[k] < i,
                    forall|a: int, b: int| 0 <= a < b < marks@.len() ==> marks@[a] < marks@[b],
                    forall|x: int| marks@.contains(x as usize) && 0 <= x < i <==> (0 <= x < i && ps[x].1),
                decreases segs.len() - i,
            {
                let ghost old_names = string_views(names_out@);
                let ghost old_marks = marks@;
                names_out.push(string_of(&segs[i].name));
                assert(string_views(names_out@) =~= old_names.push(segs@[i as int].name@));
                assert(names(ps).take(i + 1) =~= names(ps).take(i as int).push(ps[i as int].0));
                if segs[i].bracketed {
                    marks.push(i);
                }
                assert forall|x: int| marks@.contains(x as usize) && 0 <= x < i + 1 <==> (0 <= x < i + 1 && ps[x].1) by {
                    if 0 <= x < i + 1 && x != i {
                        if marks@.contains(x as usize) {
                            let k = choose|k: int| 0 <= k < marks@.len() && marks@[k] == x as usize;
                            if k < old_marks.len() {
                                assert(old_marks[k] == x as usize);
                            }
                        }
                        if ps[x].1 {
                            assert(old_marks.contains(x as usize));
                            let k = choose|k: int| 0 <= k < old_marks.len() && old_marks[k] == x as usize;
                            assert(marks@[k] == x as usize);
                        }
                    }
                    if x == i && ps[x].1 {
                        assert(marks@[marks@.len() - 1] == i);
                    }
                    if x == i && marks@.contains(x as usize) {
                        let k = choose|k: int| 0 <= k < marks@.len() && marks@[k] == x as usize;
                        if k < old_marks.len() {
                            assert(old_marks[k] < i);
                        }
                    }
                }
                i = i + 1;
            }
            assert(names(ps).take(segs.len() as int) =~= names(ps));
            Ok((names_out, marks))
        },
        Err(e) => Err(e.message()),
    }
}

/// A text without bracket characters.
pub open spec fn no_brackets(s: Seq<char>) -> bool {
    !s.contains('[') && !s.contains(']')
}

/// A character that the path grammar reads as part of a field name.
pub open spec fn plain_char(c: char) -> bool {
    c != '.' && c != '[' && c != ']'
}

/// Field-name segments, none of them a bracketed index.
pub open spec fn unflagged(parts: Seq<Seq<char>>) -> Seq<(Seq<char>, bool)> {
    parts.map_values(|p: Seq<char>| (p, false))
}

proof fn lemma_scan_avoids(rest: Seq<char>, segs: Seq<(Seq<char>, bool)>, cur: Seq<char>, after_index: bool, expecting: bool)
    requires
        forall|i: int| 0 <= i < segs.len() ==> no_brackets(#[trigger] segs[i].0),
        no_brackets(cur),
        scan(rest, segs, cur, after_index, expecting) is Ok,
    ensures
        forall|i: int| 0 <= i < scan(rest, segs, cur, after_index, expecting)->Ok_0.len()
            ==> no_brackets(#[trigger] scan(rest, segs, cur, after_index, expecting)->Ok_0[i].0),
    decreases rest.len(),
{
    let r = scan(rest, segs, cur, after_index, expecting)->Ok_0;
    if rest.len() == 0 {
        assert forall|i: int| 0 <= i < r.len() implies no_brackets(#[trigger] r[i].0) by {
            if i < segs.len() {
                assert(r[i] == segs[i]);
            }
        }
    } else {
        let ch = rest[0];
        let tail = rest.drop_first();
        lemma_first_close(tail);
        let empty = Seq::<char>::empty();
        assert(no_brackets(empty));
        if after_index {
            if ch == '.' {
                lemma_scan_avoids(tail, segs, cur, false, true);
            } else {
                let (idx, n) = scan_index(tail)->Ok_0;
                let k = first_close(tail);
                lemma_decimal_digits(digits_value(tail.take(k)));
                assert(no_brackets(idx)) by {
                    if idx.contains('[') || idx.contains(']') {
                        let j = choose|j: int| 0 <= j < idx.len() && (idx[j] == '[' || idx[j] == ']');
                        assert(is_digit(idx[j]));
                    }
                }
                let s2 = segs.push((idx, true));
                assert forall|i: int| 0 <= i < s2.len() implies no_brackets(#[trigger] s2[i].0) by {
                    if i < segs.len() {
                        assert(s2[i] == segs[i]);
                    }
                }
                lemma_scan_avoids(tail.skip(n), s2, cur, true, false);
            }
        } else if ch == '.' {
            let s2 = segs.push((cur, false));
            assert forall|i: int| 0 <= i < s2.len() implies no_brackets(#[trigger] s2[i].0) by {
                if i < segs.len() {
                    assert(s2[i] == segs[i]);
                }
            }
            lemma_scan_avoids(tail, s2, empty, false, true);
        } else if ch == '[' {
            let (idx, n) = scan_index(tail)->Ok_0;
            let k = first_close(tail);
            lemma_decimal_digits(digits_value(tail.take(k)));
            assert(no_brackets(idx)) by {
                if idx.contains('[') || idx.contains(']') {
                    let j = choose|j: int| 0 <= j < idx.len() && (idx[j] == '[' || idx[j] == ']');
                    assert(is_digit(idx[j]));
                }
            }
            let s2 = segs.push((cur, false)).push((idx, true));
            assert forall|i: int| 0 <= i < s2.len() implies no_brackets(#[trigger] s2[i].0) by {
                if i < segs.len() {
                    assert(s2[i] == segs[i]);
                }
            }
            lemma_scan_avoids(tail.skip(n), s2, empty, true, false);
        } else {
            let c2 = cur.push(ch);
            assert(no_brackets(c2)) by {
                if c2.contains('[') || c2.contains(']') {
                    let j = choose|j: int| 0 <= j < c2.len() && (c2[j] == '[' || c2[j] == ']');
                    if j < cur.len() {
                        assert(cur[j] == c2[j]);
                    }
                }
            }
            lemma_scan_avoids(tail, segs, c2, false, false);
        }
    }
}

proof fn lemma_scan_plain(p: Seq<char>, rest: Seq<char>, segs: Seq<(Seq<char>, bool)>, cur: Seq<char>, expecting: bool)
    requires
        p.len() > 0,
        forall|i: int| 0 <= i < p.len() ==> plain_char(#[trigger] p[i]),
    ensures
        scan(p + rest, segs, cur, false, expecting) == scan(rest, segs, cur + p, false, false),
    decreases p.len(),
{
    let s = p + rest;
    assert(s[0] == p[0]);
    assert(plain_char(p[0]));
    assert(s.drop_first() =~= p.drop_first() + rest);
    lemma_first_close(s.drop_first());
    if p.len() == 1 {
        assert(p.drop_first() + rest =~= rest);
        assert(cur.push(p[0]) =~= cur + p);
    } else {
        let p2 = p.drop_first();
        assert forall|i: int| 0 <= i < p2.len() implies plain_char(#[trigger] p2[i]) by {
            assert(p2[i] == p[i + 1]);
        }
        lemma_scan_plain(p2, rest, segs, cur.push(p[0]), false);
        assert(cur.push(p[0]) + p2 =~= cur + p);
    }
}

proof fn lemma_scan_join(parts: Seq<Seq<char>>, segs: Seq<(Seq<char>, bool)>)
    requires
        parts.len() >= 1,
        forall|i: int| 0 <= i < parts.len() ==> (#[trigger] parts[i]).len() > 0
            && forall|j: int| 0 <= j < parts[i].len() ==> plain_char(#[trigger] parts[i][j]),
    ensures
        scan(join(parts, seq!['.']), segs, Seq::empty(), false, true) == Ok::<Seq<(Seq<char>, bool)>, SyntaxError>(segs + unflagged(parts)),
    decreases parts.len(),
{
    let p0 = parts[0];
    assert(p0.len() > 0 && forall|j: int| 0 <= j < p0.len() ==> plain_char(#[trigger] p0[j]));
    let empty = Seq::<char>::empty();
    if parts.len() == 1 {
        assert(join(parts, seq!['.']) == p0);
        lemma_scan_plain(p0, empty, segs, empty, true);
        assert(p0 + empty =~= p0);
        assert(empty + p0 =~= p0);
        assert(segs.push((p0, false)) =~= segs + unflagged(parts));
    } else {
        let tail = parts.drop_first();
        crate::env::lemma_join_front(parts, seq!['.']);
        let jt = join(tail, seq!['.']);
        let rest = seq!['.'] + jt;
        assert(p0 + seq!['.'] + jt =~= p0 + rest);
        lemma_scan_plain(p0, rest, segs, empty, true);
        assert(empty + p0 =~= p0);
        assert(rest[0] == '.');
        assert(rest.drop_first() =~= jt);
        lemma_first_close(rest.drop_first());
        assert forall|i: int| 0 <= i < tail.len() implies (#[trigger] tail[i]).len() > 0
            && forall|j: int| 0 <= j < tail[i].len() ==> plain_char(#[trigger] tail[i][j]) by {
            assert(tail[i] == parts[i + 1]);
            assert(parts[i + 1].len() > 0 && forall|j: int| 0 <= j < parts[i + 1].len() ==> plain_char(#[trigger] parts[i + 1][j]));
        }
        lemma_scan_join(tail, segs.push((p0, false)));
        assert(segs.push((p0, false)) + unflagged(tail) =~= segs + unflagged(parts));
    }
}

proof fn lemma_scan_no_overflow(rest: Seq<char>, segs: Seq<(Seq<char>, bool)>, cur: Seq<char>, after_index: bool, expecting: bool)
    requires
        !rest.contains('['),
    ensures
        scan(rest, segs, cur, after_index, expecting) != Err::<Seq<(Seq<char>, bool)>, SyntaxError>(SyntaxError::IndexTooLarge),
    decreases rest.len(),
{
    if rest.len() > 0 {
        let tail = rest.drop_first();
        assert(rest[0] != '[');
        assert(!tail.contains('[')) by {
            if tail.contains('[') {
                let k = choose|k: int| 0 <= k < tail.len() && tail[k] == '[';
                assert(rest[k + 1] == '[');
            }
        }
        lemma_first_close(tail);
        let ch = rest[0];
        if after_index {
            if ch == '.' && tail.len() > 0 {
                lemma_scan_no_overflow(tail, segs, cur, false, true);
            }
        } else if ch == '.' {
            if cur.len() > 0 {
                lemma_scan_no_overflow(tail, segs.push((cur, false)), Seq::empty(), false, true);
            }
        } else if ch != ']' {
            lemma_scan_no_overflow(tail, segs, cur.push(ch), false, false);
        }
    }
}

/// A metadata path in normal form reads back as itself: normalizing what
/// normalization gave changes nothing.
pub proof fn law_metadata_normal_form(s: Seq<char>)
    requires
        metadata_path_result(s) is Ok,
    ensures
        metadata_path_result(metadata_path_result(s)->Ok_0) == metadata_path_result(s),
{
    let segs0 = parse_path(s)->Ok_0;
    lemma_parsed_names_clean(s);
    let ns = names(segs0);
    assert forall|i: int| 0 <= i < ns.len() implies (#[trigger] ns[i]).len() > 0
        && forall|j: int| 0 <= j < ns[i].len() ==> plain_char(#[trigger] ns[i][j]) by {
        assert(clean_name(segs0[i].0));
    }
    let d = dotted(segs0);
    if ns.len() == 0 {
        assert(d =~= Seq::<char>::empty());
        assert(parse_path(d) == Ok::<Seq<(Seq<char>, bool)>, SyntaxError>(Seq::empty()));
        assert(dotted(Seq::<(Seq<char>, bool)>::empty()) =~= Seq::<char>::empty());
        assert(!has_bad_wildcard(names(Seq::<(Seq<char>, bool)>::empty())));
    } else {
        if ns.len() >= 2 {
            crate::env::lemma_join_front(ns, seq!['.']);
            assert(d.len() >= 2);
        } else {
            assert(d == ns[0]);
            if d == seq!['.'] {
                assert(!plain_char(ns[0][0]));
            }
        }
        assert(d != seq!['.']);
        lemma_scan_join(ns, Seq::empty());
        assert(Seq::<(Seq<char>, bool)>::empty() + unflagged(ns) =~= unflagged(ns));
        assert(names(unflagged(ns)) =~= ns);
    }
}

/// A normalized metadata path reads again without an index overflow.
pub proof fn lemma_metadata_form_readable(s: Seq<char>)
    requires
        metadata_path_result(s) is Ok,
    ensures
        !index_overflows(metadata_path_result(s)->Ok_0),
{
    let segs0 = parse_path(s)->Ok_0;
    if s != seq!['.'] {
        lemma_scan_avoids(s, Seq::empty(), Seq::empty(), false, true);
    }
    let ns = names(segs0);
    assert forall|i: int| 0 <= i < ns.len() implies !(#[trigger] ns[i]).contains('[') by {
        assert(no_brackets(segs0[i].0));
    }
    crate::text::lemma_join_avoids(ns, seq!['.'], '[');
    let d = dotted(segs0);
    if d != seq!['.'] {
        lemma_scan_no_overflow(d, Seq::empty(), Seq::empty(), false, true);
    }
}

/// A path in dot form reads back as itself: normalizing what
/// normalization gave changes nothing.
pub proof fn law_external_normal_form(s: Seq<char>)
    requires
        external_path_result(s) is Ok,
    ensures
        external_path_result(external_path_result(s)->Ok_0) == external_path_result(s),
{
    let segs0 = parse_path(s)->Ok_0;
    if s != seq!['.'] {
        lemma_scan_avoids(s, Seq::empty(), Seq::empty(), false, true);
    }
    let ns = names(segs0);
    assert forall|i: int| 0 <= i < ns.len() implies !(#[trigger] ns[i]).contains('[') by {
        assert(no_brackets(segs0[i].0));
    }
    assert forall|i: int| 0 <= i < ns.len() implies !(#[trigger] ns[i]).contains(']') by {
        assert(no_brackets(segs0[i].0));
    }
    let d = dotted(segs0);
    crate::text::lemma_join_avoids(ns, seq!['.'], '[');
    crate::text::lemma_join_avoids(ns, seq!['.'], ']');
    let q = normalized(d);
    let parts = crate::path::segments(d);
    let pieces = crate::text::split(d, '.');
    crate::path::lemma_segment_shape(d);
    crate::text::lemma_split_avoids(d, '.', '[');
    crate::text::lemma_split_avoids(d, '.', ']');
    crate::text::lemma_nonempty_pieces(pieces);
    assert forall|i: int| 0 <= i < parts.len() implies (#[trigger] parts[i]).len() > 0
        && forall|j: int| 0 <= j < parts[i].len() ==> plain_char(#[trigger] parts[i][j]) by {
        let k = choose|k: int| 0 <= k < pieces.len() && pieces[k] == parts[i];
        assert(!pieces[k].contains('[') && !pieces[k].contains(']'));
        assert(!parts[i].contains('.'));
        assert forall|j: int| 0 <= j < parts[i].len() implies plain_char(#[trigger] parts[i][j]) by {
            if !plain_char(parts[i][j]) {
                assert(parts[i].contains(parts[i][j]));
            }
        }
    }
    crate::path::law_normalize_idempotent(d);
    if parts.len() == 0 {
        assert(q =~= Seq::<char>::empty());
        assert(q != seq!['.']);
        assert(dotted(Seq::<(Seq<char>, bool)>::empty()) =~= Seq::<char>::empty());
    } else {
        if parts.len() >= 2 {
            crate::env::lemma_join_front(parts, seq!['.']);
            assert(q.len() >= 2);
        } else {
            assert(q == parts[0]);
            if q == seq!['.'] {
                assert(parts[0][0] == '.');
            }
        }
        assert(q != seq!['.']);
        lemma_scan_join(parts, Seq::empty());
        assert(Seq::<(Seq<char>, bool)>::empty() + unflagged(parts) =~= unflagged(parts));
        assert(names(unflagged(parts)) =~= parts);
    }
}

/// A segment name as the path grammar produces it: not empty, and without
/// `.`, `[` or `]`.
pub open spec fn clean_name(s: Seq<char>) -> bool {
    s.len() > 0 && forall|j: int| 0 <= j < s.len() ==> plain_char(#[trigger] s[j])
}

proof fn lemma_scan_clean(rest: Seq<char>, segs: Seq<(Seq<char>, bool)>, cur: Seq<char>, after_index: bool, expecting: bool)
    requires
        forall|i: int| 0 <= i < segs.len() ==> clean_name(#[trigger] segs[i].0),
        forall|j: int| 0 <= j < cur.len() ==> plain_char(#[trigger] cur[j]),
        scan(rest, segs, cur, after_index, expecting) is Ok,
    ensures
        forall|i: int| 0 <= i < scan(rest, segs, cur, after_index, expecting)->Ok_0.len()
            ==> clean_name(#[trigger] scan(rest, segs, cur, after_index, expecting)->Ok_0[i].0),
    decreases rest.len(),
{
    let r = scan(rest, segs, cur, after_index, expecting)->Ok_0;
    if rest.len() == 0 {
        assert forall|i: int| 0 <= i < r.len() implies clean_name(#[trigger] r[i].0) by {
            if i < segs.len() {
                assert(r[i] == segs[i]);
            }
        }
    } else {
        let ch = rest[0];
        let tail = rest.drop_first();
        lemma_first_close(tail);
        let empty = Seq::<char>::empty();
        if after_index {
            if ch == '.' {
                lemma_scan_clean(tail, segs, cur, false, true);
            } else {
                let (idx, n) = scan_index(tail)->Ok_0;
                let k = first_close(tail);
                lemma_decimal_digits(digits_value(tail.take(k)));
                assert(clean_name(idx)) by {
                    assert forall|j: int| 0 <= j < idx.len() implies plain_char(#[trigger] idx[j]) by {
                        assert(is_digit(idx[j]));
                    }
                }
                let s2 = segs.push((idx, true));
                assert forall|i: int| 0 <= i < s2.len() implies clean_name(#[trigger] s2[i].0) by {
                    if i < segs.len() {
                        assert(s2[i] == segs[i]);
                    }
                }
                lemma_scan_clean(tail.skip(n), s2, cur, true, false);
            }
        } else if ch == '.' {
            let s2 = segs.push((cur, false));
            assert forall|i: int| 0 <= i < s2.len() implies clean_name(#[trigger] s2[i].0) by {
                if i < segs.len() {
                    assert(s2[i] == segs[i]);
                }
            }
            lemma_scan_clean(tail, s2, empty, false, true);
        } else if ch == '[' {
            let (idx, n) = scan_index(tail)->Ok_0;
            let k = first_close(tail);
            lemma_decimal_digits(digits_value(tail.take(k)));
            assert(clean_name(idx)) by {
                assert forall|j: int| 0 <= j < idx.len() implies plain_char(#[trigger] idx[j]) by {
                    assert(is_digit(idx[j]));
                }
            }
            let s2 = segs.push((cur, false)).push((idx, true));
            assert forall|i: int| 0 <= i < s2.len() implies clean_name(#[trigger] s2[i].0) by {
                if i < segs.len() {
                    assert(s2[i] == segs[i]);
                }
            }
            lemma_scan_clean(tail.skip(n), s2, empty, true, false);
        } else {
            let c2 = cur.push(ch);
            assert forall|j: int| 0 <= j < c2.len() implies plain_char(#[trigger] c2[j]) by {
                if j < cur.len() {
                    assert(c2[j] == cur[j]);
                }
            }
            lemma_scan_clean(tail, segs, c2, false, false);
        }
    }
}

/// The names a path reads as are clean segment names.
pub proof fn lemma_parsed_names_clean(s: Seq<char>)
    requires
        parse_path(s) is Ok,
    ensures
        forall|i: int| 0 <= i < parse_path(s)->Ok_0.len() ==> clean_name(#[trigger] parse_path(s)->Ok_0[i].0),
{
    if s != seq!['.'] {
        lemma_scan_clean(s, Seq::empty(), Seq::empty(), false, true);
    }
}

} // verus!
