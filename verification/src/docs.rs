//! Naming conventions for generated environment variable documentation.
use vstd::prelude::*;
use crate::text::{
    join, upper_all, views, is_space, chars_of, string_of, join_chars, chars_eq, slice_chars,
    concat_chars, upper_chars, is_space_char,
};
use crate::path::{segments, star, path_segments};
use crate::env::{env_prefix_form, normalize_env_prefix_chars, split_at_sep, split_at_sep_exec, env_var_path,
    dunder_safe, key_problem, lemma_split_dunder_join, lemma_env_segments_valid, prefixed_remainder};
use crate::text::{lower_all, upper, lower, is_lower, is_upper, is_digit, starts_with};
use crate::path::normalized;

verus! {

/// What an `EnvDocOptions` holds.
pub struct EnvDocOptionsView {
    pub prefix: Option<Seq<char>>,
    pub separator: Seq<char>,
    pub uppercase: bool,
}

/// Options controlling schema-derived environment variable documentation.
///
/// Use `EnvDocOptions` to keep generated env docs aligned with the same prefix
/// and separator conventions used at runtime.
pub struct EnvDocOptions {
    prefix: Option<String>,
    separator: String,
    uppercase: bool,
}

impl View for EnvDocOptions {
    type V = EnvDocOptionsView;

    closed spec fn view(&self) -> EnvDocOptionsView {
        EnvDocOptionsView {
            prefix: match self.prefix {
                Some(p) => Some(p@),
                None => None,
            },
            separator: self.separator@,
            uppercase: self.uppercase,
        }
    }
}

pub open spec fn dunder() -> Seq<char> {
    seq!['_', '_']
}

impl Default for EnvDocOptions {
    fn default() -> (r: Self)
        ensures
            r@ == (EnvDocOptionsView { prefix: None, separator: dunder(), uppercase: true }),
    {
        let sep = string_of(&['_', '_']);
        assert(sep@ =~= dunder());
        EnvDocOptions { prefix: None, separator: sep, uppercase: true }
    }
}

/// How one path segment is rendered in a documented variable name.
pub open spec fn doc_segment(seg: Seq<char>, uppercase: bool) -> Seq<char> {
    if seg == star() {
        "{item}"@
    } else if seg.len() > 0 && seg[0] == '{' && seg.last() == '}' {
        seg
    } else if uppercase {
        upper_all(seg)
    } else {
        seg
    }
}

/// The documented environment variable name for a path.
pub open spec fn env_doc_name(o: EnvDocOptionsView, path: Seq<char>) -> Seq<char> {
    let body = join(segments(path).map_values(|s: Seq<char>| doc_segment(s, o.uppercase)), o.separator);
    match o.prefix {
        Some(p) => if p.len() > 0 {
            let n = env_prefix_form(p, o.separator);
            if n.len() == 0 {
                body
            } else if body.len() == 0 {
                n
            } else {
                n + o.separator + body
            }
        } else {
            body
        },
        None => body,
    }
}

impl EnvDocOptions {
    /// Creates options with no prefix, `__` separator, and uppercase names.
    pub fn new() -> (r: Self)
        ensures
            r@ == (EnvDocOptionsView { prefix: None, separator: dunder(), uppercase: true }),
    {
        Self::default()
    }

    /// Creates options with a fixed environment variable prefix.
    pub fn prefixed(prefix: &str) -> (r: Self)
        ensures
            r@ == (EnvDocOptionsView { prefix: Some(prefix@), separator: dunder(), uppercase: true }),
    {
        Self::default().prefix(prefix)
    }

    /// Sets the environment variable prefix.
    pub fn prefix(self, prefix: &str) -> (r: Self)
        ensures
            r@ == (EnvDocOptionsView { prefix: Some(prefix@), ..self@ }),
    {
        EnvDocOptions { prefix: Some(prefix.to_string()), separator: self.separator, uppercase: self.uppercase }
    }

    /// Sets the separator placed between path segments; an empty separator
    /// leaves the current one in place.
    pub fn separator(self, separator: &str) -> (r: Self)
        ensures
            r@ == (if separator@.len() > 0 { EnvDocOptionsView { separator: separator@, ..self@ } } else { self@ }),
    {
        if separator.is_empty() {
            self
        } else {
            EnvDocOptions { prefix: self.prefix, separator: separator.to_string(), uppercase: self.uppercase }
        }
    }

    /// Preserves field case instead of uppercasing environment names.
    pub fn preserve_case(self) -> (r: Self)
        ensures
            r@ == (EnvDocOptionsView { uppercase: false, ..self@ }),
    {
        EnvDocOptions { prefix: self.prefix, separator: self.separator, uppercase: false }
    }

    /// Converts a dot-delimited configuration path into an environment variable name.
    ///
    /// Collection segments are rendered as placeholder tokens so generated docs
    /// describe a template rather than the internal wildcard syntax.
    pub fn env_name(&self, path: &str) -> (r: String)
        ensures
            r@ == env_doc_name(self@, path@),
    {
        let segs = path_segments(&chars_of(path));
        let ghost sv = views(segs@);
        let mut rendered: Vec<Vec<char>> = Vec::new();
        let mut i: usize = 0;
        let wild = ['*'];
        assert(wild@ =~= star());
        while i < segs.len()
            invariant
                i <= segs.len(),
                sv == views(segs@),
                wild@ == star(),
                views(rendered@) == sv.take(i as int).map_values(|s: Seq<char>| doc_segment(s, self.uppercase)),
            decreases segs.len() - i,
        {
            let seg = &segs[i];
            let out: Vec<char> = if chars_eq(seg, &wild) {
                let v = chars_of("{item}");
                v
            } else if seg.len() > 0 && seg[0] == '{' && seg[seg.len() - 1] == '}' {
                slice_chars(seg, 0, seg.len())
            } else if self.uppercase {
                upper_chars(seg)
            } else {
                slice_chars(seg, 0, seg.len())
            };
            assert(seg@.subrange(0, seg@.len() as int) =~= seg@);
            assert(out@ == doc_segment(sv[i as int], self.uppercase));
            let ghost old = views(rendered@);
            rendered.push(out);
            assert(views(rendered@) =~= old.push(out@));
            assert(sv.take(i + 1).map_values(|s: Seq<char>| doc_segment(s, self.uppercase)) =~= sv.take(i as int).map_values(
                |s: Seq<char>| doc_segment(s, self.uppercase),
            ).push(doc_segment(sv[i as int], self.uppercase)));
            i = i + 1;
        }
        assert(sv.take(segs.len() as int) =~= sv);
        let sep = chars_of(self.separator.as_str());
        let body = join_chars(&rendered, &sep);
        match &self.prefix {
            Some(prefix) => {
                if prefix.as_str().is_empty() {
                    string_of(&body)
                } else {
                    let n = normalize_env_prefix_chars(&chars_of(prefix.as_str()), &sep);
                    if n.len() == 0 {
                        string_of(&body)
                    } else if body.len() == 0 {
                        string_of(&n)
                    } else {
                        let a = concat_chars(&n, &sep);
                        string_of(&concat_chars(&a, &body))
                    }
                }
            },
            None => string_of(&body),
        }
    }
}

/// `s` without leading and trailing white space (`str::trim`).
pub open spec fn trim(s: Seq<char>) -> Seq<char>
    decreases s.len(),
{
    if s.len() > 0 && is_space(s[0]) {
        trim(s.drop_first())
    } else if s.len() > 0 && is_space(s.last()) {
        trim(s.drop_last())
    } else {
        s
    }
}

/// `s` without leading and trailing white space.
pub fn trim_chars(s: &[char]) -> (r: Vec<char>)
    ensures
        r@ == trim(s@),
{
    let mut lo: usize = 0;
    let mut hi: usize = s.len();
    assert(s@.subrange(0, s.len() as int) =~= s@);
    while lo < hi && is_space_char(s[lo])
        invariant
            lo <= hi <= s.len(),
            hi == s.len(),
            trim(s@.subrange(lo as int, hi as int)) == trim(s@),
        decreases hi - lo,
    {
        assert(s@.subrange(lo as int, hi as int).drop_first() =~= s@.subrange(lo + 1, hi as int));
        lo = lo + 1;
    }
    while lo < hi && is_space_char(s[hi - 1])
        invariant
            lo <= hi <= s.len(),
            trim(s@.subrange(lo as int, hi as int)) == trim(s@),
            lo < hi ==> !is_space(s@[lo as int]),
        decreases hi - lo,
    {
        let ghost sub = s@.subrange(lo as int, hi as int);
        assert(sub[0] == s@[lo as int]);
        assert(sub.drop_last() =~= s@.subrange(lo as int, hi - 1));
        hi = hi - 1;
    }
    proof {
        let sub = s@.subrange(lo as int, hi as int);
        if sub.len() > 0 {
            assert(sub[0] == s@[lo as int]);
            assert(sub.last() == s@[hi - 1]);
        }
    }
    slice_chars(s, lo, hi)
}

pub open spec fn type_separator() -> Seq<char> {
    " | "@
}

/// The trimmed, non-empty alternatives of a `a | b` type listing.
pub open spec fn type_alternatives(s: Seq<char>) -> Seq<Seq<char>> {
    crate::text::nonempty(split_at_sep(s, type_separator()).map_values(|t: Seq<char>| trim(t)))
}

/// `items` with later duplicates removed, keeping first occurrences in order.
pub open spec fn dedup(items: Seq<Seq<char>>) -> Seq<Seq<char>>
    decreases items.len(),
{
    if items.len() == 0 {
        items
    } else {
        let d = dedup(items.drop_last());
        if d.contains(items.last()) {
            d
        } else {
            d.push(items.last())
        }
    }
}

/// The documented type of a variable described twice.
pub open spec fn merged_doc_type(existing: Seq<char>, incoming: Seq<char>) -> Seq<char> {
    if existing == incoming {
        existing
    } else {
        let merged = dedup(type_alternatives(existing) + type_alternatives(incoming));
        if merged.len() == 0 {
            "unknown"@
        } else {
            join(merged, type_separator())
        }
    }
}

fn contains_seq(v: &Vec<Vec<char>>, x: &[char]) -> (r: bool)
    ensures
        r == views(v@).contains(x@),
{
    let mut i: usize = 0;
    while i < v.len()
        invariant
            i <= v.len(),
            forall|j: int| 0 <= j < i ==> views(v@)[j] != x@,
        decreases v.len() - i,
    {
        if chars_eq(&v[i], x) {
            assert(views(v@)[i as int] == x@);
            return true;
        }
        i = i + 1;
    }
    false
}

/// Adds the alternatives of `text` to `merged`, skipping ones already there.
fn add_alternatives(merged: &mut Vec<Vec<char>>, text: &[char], Ghost(prior): Ghost<Seq<Seq<char>>>)
    requires
        views(old(merged)@) == dedup(prior),
    ensures
        views(final(merged)@) == dedup(prior + type_alternatives(text@)),
{
    let sep = chars_of(" | ");
    proof {
        reveal_strlit(" | ");
    }
    let pieces = split_at_sep_exec(text, &sep);
    let ghost trimmed = split_at_sep(text@, sep@).map_values(|t: Seq<char>| trim(t));
    let mut i: usize = 0;
    let ghost mut taken: Seq<Seq<char>> = Seq::empty();
    assert(prior + taken =~= prior);
    while i < pieces.len()
        invariant
            i <= pieces.len(),
            sep@ == type_separator(),
            views(pieces@) == split_at_sep(text@, sep@),
            trimmed == split_at_sep(text@, sep@).map_values(|t: Seq<char>| trim(t)),
            taken == crate::text::nonempty(trimmed.take(i as int)),
            views(merged@) == dedup(prior + taken),
        decreases pieces.len() - i,
    {
        let t = trim_chars(&pieces[i]);
        assert(trimmed[i as int] == t@);
        assert(trimmed.take(i + 1).drop_last() =~= trimmed.take(i as int));
        if t.len() > 0 {
            let ghost before = views(merged@);
            proof {
                assert((prior + taken.push(t@)).drop_last() =~= prior + taken);
                assert((prior + taken.push(t@)).last() == t@);
            }
            if !contains_seq(merged, &t) {
                merged.push(t);
                assert(views(merged@) =~= before.push(t@));
            }
            proof {
                taken = taken.push(t@);
            }
        }
        i = i + 1;
    }
    assert(trimmed.take(pieces.len() as int) =~= trimmed);
}

/// Merges two documented types written as `a | b` alternatives.
pub fn merge_env_doc_types(existing: &str, incoming: &str) -> (r: String)
    ensures
        r@ == merged_doc_type(existing@, incoming@),
{
    let e = chars_of(existing);
    let n = chars_of(incoming);
    if chars_eq(&e, &n) {
        return existing.to_string();
    }
    let mut merged: Vec<Vec<char>> = Vec::new();
    assert(views(merged@) =~= Seq::<Seq<char>>::empty());
    assert(dedup(Seq::<Seq<char>>::empty()) =~= Seq::<Seq<char>>::empty());
    add_alternatives(&mut merged, &e, Ghost(Seq::empty()));
    assert(Seq::<Seq<char>>::empty() + type_alternatives(e@) =~= type_alternatives(e@));
    add_alternatives(&mut merged, &n, Ghost(type_alternatives(e@)));
    if merged.len() == 0 {
        "unknown".to_string()
    } else {
        let sep = chars_of(" | ");
        string_of(&join_chars(&merged, &sep))
    }
}

/// A path segment that an environment variable name can carry both ways:
/// lowercase ASCII letters, digits and single inner underscores.
pub open spec fn env_safe_segment(seg: Seq<char>) -> bool {
    &&& dunder_safe(seg)
    &&& forall|i: int| 0 <= i < seg.len() ==> is_lower(#[trigger] seg[i]) || is_digit(seg[i]) || seg[i] == '_'
}

proof fn lemma_upper_lower(c: char)
    requires
        is_lower(c) || is_digit(c) || c == '_',
    ensures
        lower(upper(c)) == c,
        (upper(c) == '_') == (c == '_'),
        !(upper(c) == '.' || upper(c) == '[' || upper(c) == ']' || upper(c) == '*'),
{
    if is_lower(c) {
        assert((((c as int) - 32) as char) as int == (c as int) - 32);
        assert(is_upper(upper(c)));
        assert(((((c as int) - 32) + 32) as char) == c);
    }
}

proof fn lemma_safe_segment(seg: Seq<char>)
    requires
        env_safe_segment(seg),
    ensures
        doc_segment(seg, true) == upper_all(seg),
        dunder_safe(upper_all(seg)),
        lower_all(upper_all(seg)) == seg,
        key_problem(seg) is None,
{
    let u = upper_all(seg);
    assert forall|i: int| 0 <= i < seg.len() implies lower(upper(#[trigger] seg[i])) == seg[i]
        && (upper(seg[i]) == '_') == (seg[i] == '_') by {
        lemma_upper_lower(seg[i]);
    }
    assert(seg != star()) by {
        if seg == star() {
            assert(seg[0] == '*');
        }
    }
    assert(!(seg[0] == '{')) by {
        assert(is_lower(seg[0]) || is_digit(seg[0]) || seg[0] == '_');
    }
    assert(lower_all(u) =~= seg);
    assert(u.last() == upper(seg.last()));
    assert forall|i: int| 0 <= i < u.len() - 1 implies !(#[trigger] u[i] == '_' && u[i + 1] == '_') by {
        assert(!(seg[i] == '_' && seg[i + 1] == '_'));
    }
    assert(!seg.contains('.') && !seg.contains('[') && !seg.contains(']')) by {
        if seg.contains('.') || seg.contains('[') || seg.contains(']') {
            let j = choose|j: int| 0 <= j < seg.len() && (seg[j] == '.' || seg[j] == '[' || seg[j] == ']');
            assert(is_lower(seg[j]) || is_digit(seg[j]) || seg[j] == '_');
        }
    }
}

/// Documented names read back: with the default `__` separator and
/// uppercase names, the variable name documented for a path maps back to
/// that path at run time, under the same prefix.
pub proof fn law_env_doc_name_reads_back(o: EnvDocOptionsView, path: Seq<char>)
    requires
        o.separator == dunder(),
        o.uppercase,
        segments(path).len() > 0,
        forall|i: int| 0 <= i < segments(path).len() ==> env_safe_segment(#[trigger] segments(path)[i]),
    ensures
        env_var_path(env_doc_name(o, path), o.prefix, o.separator, true)
            == Ok::<Option<Seq<char>>, (Seq<char>, Seq<char>)>(Some(normalized(path))),
{
    let segs = segments(path);
    let rendered = segs.map_values(|s: Seq<char>| doc_segment(s, o.uppercase));
    assert forall|i: int| 0 <= i < segs.len() implies dunder_safe(#[trigger] rendered[i])
        && rendered[i].len() > 0 && lower_all(rendered[i]) == segs[i] && key_problem(segs[i]) is None by {
        lemma_safe_segment(segs[i]);
    }
    let body = join(rendered, dunder());
    lemma_split_dunder_join(rendered);
    lemma_env_segments_valid(split_at_sep(body, dunder()), segs, Seq::empty());
    assert(Seq::<Seq<char>>::empty() + segs =~= segs);
    if body.len() == 0 {
        assert(body =~= Seq::<char>::empty());
        assert(rendered[0].len() > 0);
        assert(split_at_sep(body, dunder()) =~= seq![body]) by {
            assert(crate::env::find_from(body, dunder(), 0) == -1);
        }
    }
    match o.prefix {
        Some(p) => {
            let n = env_prefix_form(p, dunder());
            if p.len() > 0 && n.len() > 0 {
                let key = n + dunder() + body;
                assert(key.take(n.len() as int) =~= n);
                assert(key.skip(n.len() as int) =~= dunder() + body);
                assert((dunder() + body).take(2) =~= dunder());
                assert((dunder() + body).skip(2) =~= body);
                assert(key.len() > n.len());
                if p.len() > 0 {
                    assert(env_prefix_form(p, dunder()) == n);
                }
            } else if p.len() == 0 {
                assert(env_prefix_form(p, dunder()) =~= Seq::<char>::empty());
            }
        },
        None => {},
    }
}

} // verus!
