//! Field metadata vocabulary: decoders, merge strategies, validation levels,
//! metadata path rules, match scoring, aliases and source policies.
use vstd::prelude::*;
use crate::text::{join, views, string_views, chars_of, string_of, join_chars, chars_eq, slice_chars};
use crate::path::{segments, star, pattern_matches, path_segments, path_matches_pattern_chars, normalized, normalize_path_chars};
use crate::syntax::{metadata_path_result, index_overflows, try_normalize_metadata_path, normalize_metadata_path};
use crate::sources::{SourceKind, cat};
use crate::error::ConfigError;

verus! {

/// Built-in decoders for structured environment variable values.
#[derive(Clone, Copy, PartialEq, Eq, Structural, Debug)]
pub enum EnvDecoder {
    /// Comma-separated values such as `a,b,c`.
    Csv,
    /// Platform-native path list syntax such as `PATH`.
    PathList,
    /// Comma-separated `key=value` pairs such as `a=1,b=2`.
    KeyValueMap,
    /// Whitespace-separated values such as `a b c`.
    Whitespace,
}

impl EnvDecoder {
    /// The decoder's name.
    pub fn label(&self) -> (r: String)
        ensures
            r@ == match *self {
                EnvDecoder::Csv => "csv"@,
                EnvDecoder::PathList => "path_list"@,
                EnvDecoder::KeyValueMap => "key_value_map"@,
                EnvDecoder::Whitespace => "whitespace"@,
            },
    {
        match self {
            EnvDecoder::Csv => "csv".to_string(),
            EnvDecoder::PathList => "path_list".to_string(),
            EnvDecoder::KeyValueMap => "key_value_map".to_string(),
            EnvDecoder::Whitespace => "whitespace".to_string(),
        }
    }
}

/// Strategy applied when multiple layers write to the same configuration path.
#[derive(Clone, Copy, PartialEq, Eq, Structural, Debug)]
pub enum MergeStrategy {
    /// Recursively merge objects and replace non-object values.
    Merge,
    /// Replace the current value at this path with the overlay value.
    Replace,
    /// Append array overlays while still recursively merging nested objects.
    Append,
}

impl Default for MergeStrategy {
    fn default() -> (r: Self)
        ensures
            r == MergeStrategy::Merge,
    {
        MergeStrategy::Merge
    }
}

impl MergeStrategy {
    /// The strategy's name.
    pub fn label(&self) -> (r: String)
        ensures
            r@ == match *self {
                MergeStrategy::Merge => "merge"@,
                MergeStrategy::Replace => "replace"@,
                MergeStrategy::Append => "append"@,
            },
    {
        match self {
            MergeStrategy::Merge => "merge".to_string(),
            MergeStrategy::Replace => "replace".to_string(),
            MergeStrategy::Append => "append".to_string(),
        }
    }
}

/// Runtime severity applied to a declarative validation rule.
#[derive(Clone, Copy, PartialEq, Eq, Structural, Debug)]
pub enum ValidationLevel {
    /// Reject the configuration when the rule fails.
    Error,
    /// Record a warning and continue loading when the rule fails.
    Warning,
}

impl Default for ValidationLevel {
    fn default() -> (r: Self)
        ensures
            r == ValidationLevel::Error,
    {
        ValidationLevel::Error
    }
}

impl ValidationLevel {
    /// The level's name.
    pub fn label(&self) -> (r: String)
        ensures
            r@ == match *self {
                ValidationLevel::Error => "error"@,
                ValidationLevel::Warning => "warning"@,
            },
    {
        match self {
            ValidationLevel::Error => "error".to_string(),
            ValidationLevel::Warning => "warning".to_string(),
        }
    }
}

/// Additional configuration attached to a declarative validation rule.
pub struct ValidationRuleConfig {
    /// Runtime severity for the rule.
    pub level: ValidationLevel,
    /// Optional custom message shown when the rule fails.
    pub message: Option<String>,
    /// Optional machine-readable tags for downstream consumers.
    pub tags: Vec<String>,
}

impl Default for ValidationRuleConfig {
    fn default() -> (r: Self)
        ensures
            r.level == ValidationLevel::Error,
            r.message is None,
            r.tags@.len() == 0,
    {
        ValidationRuleConfig { level: ValidationLevel::Error, message: None, tags: Vec::new() }
    }
}

/// Checks that a metadata path can be read.
pub fn validate_metadata_path(path: &str) -> (r: Result<(), ConfigError>)
    requires
        !index_overflows(path@),
    ensures
        match r {
            Ok(()) => metadata_path_result(path@) is Ok,
            Err(ConfigError::MetadataInvalid { path: p, message: m }) => p@ == path@
                && (metadata_path_result(path@) matches Err(e) && m@ == "invalid metadata path: "@ + e),
            Err(_) => false,
        },
{
    match try_normalize_metadata_path(path) {
        Ok(_) => Ok(()),
        Err(m) => Err(ConfigError::MetadataInvalid { path: path.to_string(), message: cat("invalid metadata path: ", m.as_str()) }),
    }
}

/// Checks that a cross-field check path can be read and is not the root.
pub fn validate_check_path(path: &str) -> (r: Result<(), ConfigError>)
    requires
        !index_overflows(path@),
    ensures
        match r {
            Ok(()) => metadata_path_result(path@) matches Ok(p) && p.len() > 0,
            Err(ConfigError::MetadataInvalid { path: p, message: m }) => p@ == path@ && match metadata_path_result(path@) {
                Err(e) => m@ == "invalid metadata path: "@ + e,
                Ok(n) => n.len() == 0 && m@ == "invalid metadata path: cross-field checks cannot use the root path"@,
            },
            Err(_) => false,
        },
{
    validate_metadata_path(path)?;
    let n = normalize_metadata_path(path);
    if n.as_str().is_empty() {
        return Err(ConfigError::MetadataInvalid {
            path: path.to_string(),
            message: "invalid metadata path: cross-field checks cannot use the root path".to_string(),
        });
    }
    Ok(())
}

/// A metadata path in normal form (the input when it cannot be read).
pub open spec fn metadata_normal(p: Seq<char>) -> Seq<char> {
    match metadata_path_result(p) {
        Ok(n) => n,
        Err(_) => p,
    }
}

/// The normalized paths of a check group, first occurrences kept in order.
pub open spec fn normalized_group(paths: Seq<Seq<char>>) -> Seq<Seq<char>>
    decreases paths.len(),
{
    if paths.len() == 0 {
        Seq::empty()
    } else {
        let g = normalized_group(paths.drop_last());
        let n = metadata_normal(paths.last());
        if g.contains(n) {
            g
        } else {
            g.push(n)
        }
    }
}

/// Normalizes the paths of a cross-field check, dropping duplicates; an
/// empty group gives `None`.
pub fn normalize_check_path_group(paths: Vec<String>) -> (r: Option<Vec<String>>)
    requires
        forall|i: int| 0 <= i < paths@.len() ==> !index_overflows(#[trigger] paths@[i]@),
    ensures
        match r {
            Some(g) => string_views(g@) == normalized_group(string_views(paths@)) && g@.len() > 0,
            None => normalized_group(string_views(paths@)).len() == 0,
        },
{
    let ghost pv = string_views(paths@);
    let mut out: Vec<String> = Vec::new();
    let mut i: usize = 0;
    while i < paths.len()
        invariant
            i <= paths.len(),
            pv == string_views(paths@),
            forall|k: int| 0 <= k < paths@.len() ==> !index_overflows(#[trigger] paths@[k]@),
            string_views(out@) == normalized_group(pv.take(i as int)),
        decreases paths.len() - i,
    {
        assert(pv.take(i + 1).drop_last() =~= pv.take(i as int));
        assert(pv.take(i + 1).last() == paths@[i as int]@);
        let n = normalize_metadata_path(paths[i].as_str());
        let mut found = false;
        let mut j: usize = 0;
        while j < out.len()
            invariant
                j <= out.len(),
                found == (exists|k: int| 0 <= k < j && #[trigger] string_views(out@)[k] == n@),
            decreases out.len() - j,
        {
            assert(string_views(out@)[j as int] == out@[j as int]@);
            if crate::text::str_eq(out[j].as_str(), n.as_str()) {
                found = true;
            }
            j = j + 1;
        }
        let ghost before = string_views(out@);
        if !found {
            out.push(n);
            assert(string_views(out@) =~= before.push(n@));
        } else {
            proof {
                let k = choose|k: int| 0 <= k < before.len() && #[trigger] before[k] == n@;
                assert(before.contains(n@));
            }
        }
        i = i + 1;
    }
    assert(pv.take(paths.len() as int) =~= pv);
    if out.len() == 0 {
        None
    } else {
        Some(out)
    }
}

/// How specifically a metadata entry matches a path: more segments win,
/// then more literal segments, then literal segments further left.
pub struct MetadataMatchScore {
    pub segment_count: usize,
    pub specificity: usize,
    pub positional_specificity: Vec<bool>,
}

/// Literal (non-wildcard) segments of a pattern, position by position.
pub open spec fn literal_flags(segs: Seq<Seq<char>>) -> Seq<bool> {
    segs.map_values(|s: Seq<char>| s != star())
}

pub open spec fn count_true(b: Seq<bool>) -> nat
    decreases b.len(),
{
    if b.len() == 0 {
        0
    } else {
        count_true(b.drop_last()) + if b.last() { 1nat } else { 0nat }
    }
}

/// The score of `candidate` for `path`, when it applies.
pub open spec fn match_score(path: Seq<char>, candidate: Seq<char>) -> Option<(nat, nat, Seq<bool>)> {
    if candidate != path && !pattern_matches(path, candidate) {
        None
    } else {
        let segs = segments(candidate);
        Some((segs.len(), count_true(literal_flags(segs)), literal_flags(segs)))
    }
}

proof fn lemma_count_true_le(b: Seq<bool>)
    ensures
        count_true(b) <= b.len(),
    decreases b.len(),
{
    if b.len() > 0 {
        lemma_count_true_le(b.drop_last());
    }
}

/// Scores how specifically `candidate` matches `path`.
pub fn metadata_match_score(path: &str, candidate: &str) -> (r: Option<MetadataMatchScore>)
    ensures
        match r {
            Some(s) => match_score(path@, candidate@) == Some((s.segment_count as nat, s.specificity as nat, s.positional_specificity@)),
            None => match_score(path@, candidate@) is None,
        },
{
    let p = chars_of(path);
    let c = chars_of(candidate);
    if !chars_eq(&c, &p) && !path_matches_pattern_chars(&p, &c) {
        return None;
    }
    let segs = path_segments(&c);
    let ghost sv = views(segs@);
    let wild = ['*'];
    assert(wild@ =~= star());
    let mut flags: Vec<bool> = Vec::new();
    let mut count: usize = 0;
    let mut i: usize = 0;
    while i < segs.len()
        invariant
            i <= segs.len(),
            sv == views(segs@),
            wild@ == star(),
            flags@ == literal_flags(sv.take(i as int)),
            count as nat == count_true(flags@),
        decreases segs.len() - i,
    {
        let lit = !chars_eq(&segs[i], &wild);
        proof {
            lemma_count_true_le(flags@);
        }
        let ghost old = flags@;
        flags.push(lit);
        assert(flags@.drop_last() =~= old);
        assert(literal_flags(sv.take(i + 1)) =~= literal_flags(sv.take(i as int)).push(sv[i as int] != star()));
        if lit {
            count = count + 1;
        }
        i = i + 1;
    }
    assert(sv.take(segs.len() as int) =~= sv);
    Some(MetadataMatchScore { segment_count: segs.len(), specificity: count, positional_specificity: flags })
}

/// Lexicographic order of flag sequences, `false` before `true`.
pub open spec fn flags_lt(a: Seq<bool>, b: Seq<bool>) -> bool
    decreases a.len(),
{
    if a.len() == 0 {
        b.len() > 0
    } else if b.len() == 0 {
        false
    } else if a[0] != b[0] {
        !a[0] && b[0]
    } else {
        flags_lt(a.drop_first(), b.drop_first())
    }
}

/// The order of match scores: segment count, then specificity, then the
/// positional flags.
pub open spec fn score_lt(a: (nat, nat, Seq<bool>), b: (nat, nat, Seq<bool>)) -> bool {
    a.0 < b.0 || (a.0 == b.0 && (a.1 < b.1 || (a.1 == b.1 && flags_lt(a.2, b.2))))
}

impl MetadataMatchScore {
    pub open spec fn as_tuple(&self) -> (nat, nat, Seq<bool>) {
        (self.segment_count as nat, self.specificity as nat, self.positional_specificity@)
    }

    /// Whether `self` is a weaker match than `other`.
    pub fn less_than(&self, other: &MetadataMatchScore) -> (r: bool)
        ensures
            r == score_lt(self.as_tuple(), other.as_tuple()),
    {
        if self.segment_count != other.segment_count {
            return self.segment_count < other.segment_count;
        }
        if self.specificity != other.specificity {
            return self.specificity < other.specificity;
        }
        let a = &self.positional_specificity;
        let b = &other.positional_specificity;
        let mut i: usize = 0;
        assert(a@.skip(0) =~= a@);
        assert(b@.skip(0) =~= b@);
        while i < a.len() && i < b.len() && a[i] == b[i]
            invariant
                i <= a.len(),
                i <= b.len(),
                flags_lt(a@.skip(i as int), b@.skip(i as int)) == flags_lt(a@, b@),
            decreases a.len() - i,
        {
            assert(a@.skip(i as int).drop_first() =~= a@.skip(i + 1));
            assert(b@.skip(i as int).drop_first() =~= b@.skip(i + 1));
            i = i + 1;
        }
        if i == a.len() {
            i < b.len()
        } else if i == b.len() {
            false
        } else {
            assert(a@.skip(i as int)[0] == a@[i as int]);
            assert(b@.skip(i as int)[0] == b@[i as int]);
            !a[i] && b[i]
        }
    }
}

/// An alias keeps the wildcard positions of its canonical path and is not
/// deeper than it; the canonical path has no wildcard beyond the alias.
pub open spec fn alias_lossless(alias: Seq<char>, canonical: Seq<char>) -> bool {
    let a = segments(alias);
    let c = segments(canonical);
    &&& a.len() <= c.len()
    &&& forall|i: int| 0 <= i < a.len() ==> ((#[trigger] a[i] == star()) == (c[i] == star()))
    &&& forall|i: int| a.len() <= i < c.len() ==> #[trigger] c[i] != star()
}

/// Whether rewriting `alias` to `canonical` loses no wildcard information.
pub fn alias_mapping_is_lossless(alias: &str, canonical: &str) -> (r: bool)
    ensures
        r == alias_lossless(alias@, canonical@),
{
    let a = path_segments(&chars_of(alias));
    let c = path_segments(&chars_of(canonical));
    assert(views(a@).len() == a@.len() && views(c@).len() == c@.len());
    if c.len() < a.len() {
        return false;
    }
    let wild = ['*'];
    assert(wild@ =~= star());
    let mut i: usize = 0;
    while i < a.len()
        invariant
            i <= a.len() <= c.len(),
            wild@ == star(),
            views(a@) == segments(alias@),
            views(c@) == segments(canonical@),
            forall|j: int| 0 <= j < i ==> ((#[trigger] views(a@)[j] == star()) == (views(c@)[j] == star())),
        decreases a.len() - i,
    {
        assert(views(a@)[i as int] == a@[i as int]@ && views(c@)[i as int] == c@[i as int]@);
        if chars_eq(&a[i], &wild) != chars_eq(&c[i], &wild) {
            assert(!((views(a@)[i as int] == star()) == (views(c@)[i as int] == star())));
            return false;
        }
        i = i + 1;
    }
    let mut j: usize = a.len();
    while j < c.len()
        invariant
            a.len() <= j <= c.len(),
            wild@ == star(),
            views(a@) == segments(alias@),
            views(c@) == segments(canonical@),
            forall|k: int| a.len() <= k < j ==> #[trigger] views(c@)[k] != star(),
        decreases c.len() - j,
    {
        assert(views(c@)[j as int] == c@[j as int]@);
        if chars_eq(&c[j], &wild) {
            assert(views(c@)[j as int] == star());
            return false;
        }
        j = j + 1;
    }
    true
}

pub open spec fn count_literal(segs: Seq<Seq<char>>) -> nat {
    count_true(literal_flags(segs))
}

/// The segment count and number of literal segments of an alias.
pub fn alias_rank(alias: &str) -> (r: (usize, usize))
    ensures
        r.0 as nat == segments(alias@).len(),
        r.1 as nat == count_literal(segments(alias@)),
{
    let segs = path_segments(&chars_of(alias));
    let ghost sv = views(segs@);
    let wild = ['*'];
    assert(wild@ =~= star());
    let mut count: usize = 0;
    let mut i: usize = 0;
    while i < segs.len()
        invariant
            i <= segs.len(),
            sv == views(segs@),
            wild@ == star(),
            count as nat == count_true(literal_flags(sv.take(i as int))),
        decreases segs.len() - i,
    {
        proof {
            lemma_count_true_le(literal_flags(sv.take(i as int)));
        }
        assert(sv[i as int] == segs@[i as int]@);
        assert(literal_flags(sv.take(i + 1)) =~= literal_flags(sv.take(i as int)).push(sv[i as int] != star()));
        assert(literal_flags(sv.take(i as int)).push(sv[i as int] != star()).drop_last() =~= literal_flags(sv.take(i as int)));
        if !chars_eq(&segs[i], &wild) {
            count = count + 1;
        }
        i = i + 1;
    }
    assert(sv.take(segs.len() as int) =~= sv);
    (segs.len(), count)
}

/// One concrete segment that two patterns both accept at one position.
pub open spec fn sample_segment(l: Seq<char>, r: Seq<char>) -> Seq<char> {
    if l == star() && r == star() {
        "item"@
    } else if l == star() {
        r
    } else {
        l
    }
}

/// A concrete path that two same-shaped patterns both accept.
pub open spec fn sample_segments(left: Seq<Seq<char>>, right: Seq<Seq<char>>) -> Seq<Seq<char>> {
    Seq::new(if left.len() <= right.len() { left.len() } else { right.len() }, |i: int| sample_segment(left[i], right[i]))
}

fn sample_segments_exec(l: &Vec<Vec<char>>, r: &Vec<Vec<char>>) -> (out: Vec<Vec<char>>)
    ensures
        views(out@) == sample_segments(views(l@), views(r@)),
{
    let n = if l.len() <= r.len() { l.len() } else { r.len() };
    let wild = ['*'];
    assert(wild@ =~= star());
    let mut out: Vec<Vec<char>> = Vec::new();
    let mut i: usize = 0;
    while i < n
        invariant
            i <= n,
            n <= l.len(),
            n <= r.len(),
            n == (if l.len() <= r.len() { l.len() } else { r.len() }),
            wild@ == star(),
            views(out@) == sample_segments(views(l@), views(r@)).take(i as int),
        decreases n - i,
    {
        let lw = chars_eq(&l[i], &wild);
        let rw = chars_eq(&r[i], &wild);
        let s: Vec<char> = if lw && rw {
            chars_of("item")
        } else if lw {
            slice_chars(&r[i], 0, r[i].len())
        } else {
            slice_chars(&l[i], 0, l[i].len())
        };
        assert(r@[i as int]@.subrange(0, r@[i as int]@.len() as int) =~= r@[i as int]@);
        assert(l@[i as int]@.subrange(0, l@[i as int]@.len() as int) =~= l@[i as int]@);
        let ghost old = views(out@);
        out.push(s);
        assert(views(out@) =~= old.push(s@));
        assert(sample_segments(views(l@), views(r@)).take(i + 1) =~= sample_segments(views(l@), views(r@)).take(i as int).push(
            sample_segment(views(l@)[i as int], views(r@)[i as int]),
        ));
        i = i + 1;
    }
    assert(sample_segments(views(l@), views(r@)).take(n as int) =~= sample_segments(views(l@), views(r@)));
    out
}

/// A concrete path accepted by both alias patterns.
pub fn alias_overlap_sample_path(left: &str, right: &str) -> (r: String)
    ensures
        r@ == join(sample_segments(segments(left@), segments(right@)), seq!['.']),
{
    let l = path_segments(&chars_of(left));
    let rr = path_segments(&chars_of(right));
    let s = sample_segments_exec(&l, &rr);
    let dot = ['.'];
    assert(dot@ =~= seq!['.']);
    string_of(&join_chars(&s, &dot))
}

/// The canonical path a concrete sample reaches through `alias`: wildcard
/// segments of the canonical path take the sample's segment where the alias
/// has a wildcard too, and the sample's segments beyond the alias follow.
pub open spec fn rewritten(concrete: Seq<Seq<char>>, alias: Seq<Seq<char>>, canonical: Seq<Seq<char>>) -> Seq<char> {
    let head = Seq::new(canonical.len(), |i: int|
        if canonical[i] == star() && i < alias.len() && alias[i] == star() { concrete[i] } else { canonical[i] });
    normalized(join(head + concrete.skip(alias.len() as int), seq!['.']))
}

fn rewrite_alias_sample(concrete: &Vec<Vec<char>>, alias: &Vec<Vec<char>>, canonical: &Vec<Vec<char>>) -> (r: Vec<char>)
    requires
        alias.len() <= concrete.len(),
    ensures
        r@ == rewritten(views(concrete@), views(alias@), views(canonical@)),
{
    let ghost cv = views(concrete@);
    let ghost av = views(alias@);
    let ghost nv = views(canonical@);
    let ghost head = Seq::new(nv.len(), |i: int|
        if nv[i] == star() && i < av.len() && av[i] == star() { cv[i] } else { nv[i] });
    let wild = ['*'];
    assert(wild@ =~= star());
    let mut out: Vec<Vec<char>> = Vec::new();
    let mut i: usize = 0;
    while i < canonical.len()
        invariant
            i <= canonical.len(),
            alias.len() <= concrete.len(),
            cv == views(concrete@),
            av == views(alias@),
            nv == views(canonical@),
            head == Seq::new(nv.len(), |i: int| if nv[i] == star() && i < av.len() && av[i] == star() { cv[i] } else { nv[i] }),
            wild@ == star(),
            views(out@) == head.take(i as int),
        decreases canonical.len() - i,
    {
        let take_concrete = chars_eq(&canonical[i], &wild) && i < alias.len() && chars_eq(&alias[i], &wild);
        let s = if take_concrete {
            slice_chars(&concrete[i], 0, concrete[i].len())
        } else {
            slice_chars(&canonical[i], 0, canonical[i].len())
        };
        assert(concrete@[i as int]@.subrange(0, concrete@[i as int]@.len() as int) =~= concrete@[i as int]@);
        assert(canonical@[i as int]@.subrange(0, canonical@[i as int]@.len() as int) =~= canonical@[i as int]@);
        let ghost old = views(out@);
        out.push(s);
        assert(views(out@) =~= old.push(s@));
        assert(head.take(i + 1) =~= head.take(i as int).push(head[i as int]));
        i = i + 1;
    }
    assert(head.take(canonical.len() as int) =~= head);
    let mut j: usize = alias.len();
    while j < concrete.len()
        invariant
            alias.len() <= j <= concrete.len(),
            cv == views(concrete@),
            views(out@) == head + cv.subrange(alias.len() as int, j as int),
        decreases concrete.len() - j,
    {
        let s = slice_chars(&concrete[j], 0, concrete[j].len());
        assert(concrete@[j as int]@.subrange(0, concrete@[j as int]@.len() as int) =~= concrete@[j as int]@);
        let ghost old = views(out@);
        out.push(s);
        assert(views(out@) =~= old.push(s@));
        assert(head + cv.subrange(alias.len() as int, j + 1) =~= (head + cv.subrange(alias.len() as int, j as int)).push(cv[j as int]));
        j = j + 1;
    }
    assert(cv.subrange(alias.len() as int, concrete.len() as int) =~= cv.skip(alias.len() as int));
    let dot = ['.'];
    assert(dot@ =~= seq!['.']);
    let joined = join_chars(&out, &dot);
    normalize_path_chars(&joined)
}

/// Two aliases of the same rank and shape that both accept some concrete
/// path but rewrite it to different canonical paths.
pub open spec fn aliases_ambiguous(la: Seq<char>, lc: Seq<char>, ra: Seq<char>, rc: Seq<char>) -> bool {
    let l = segments(la);
    let r = segments(ra);
    &&& l.len() == r.len()
    &&& count_literal(l) == count_literal(r)
    &&& forall|i: int| 0 <= i < l.len() ==> (#[trigger] l[i] == star() || r[i] == star() || l[i] == r[i])
    &&& rewritten(sample_segments(l, r), l, segments(lc)) != rewritten(sample_segments(l, r), r, segments(rc))
}

/// Whether two alias mappings overlap on some concrete path that they
/// rewrite differently.
pub fn alias_patterns_are_ambiguous(left_alias: &str, left_canonical: &str, right_alias: &str, right_canonical: &str) -> (r: bool)
    ensures
        r == aliases_ambiguous(left_alias@, left_canonical@, right_alias@, right_canonical@),
{
    let lr = alias_rank(left_alias);
    let rr = alias_rank(right_alias);
    if lr.0 != rr.0 || lr.1 != rr.1 {
        return false;
    }
    let l = path_segments(&chars_of(left_alias));
    let r = path_segments(&chars_of(right_alias));
    let wild = ['*'];
    assert(wild@ =~= star());
    let mut i: usize = 0;
    while i < l.len()
        invariant
            i <= l.len(),
            l.len() == r.len(),
            wild@ == star(),
            views(l@) == segments(left_alias@),
            views(r@) == segments(right_alias@),
            forall|j: int| 0 <= j < i ==> (#[trigger] views(l@)[j] == star() || views(r@)[j] == star() || views(l@)[j] == views(r@)[j]),
        decreases l.len() - i,
    {
        assert(views(l@)[i as int] == l@[i as int]@ && views(r@)[i as int] == r@[i as int]@);
        if !(chars_eq(&l[i], &wild) || chars_eq(&r[i], &wild) || chars_eq(&l[i], &r[i])) {
            assert(!(views(l@)[i as int] == star() || views(r@)[i as int] == star() || views(l@)[i as int] == views(r@)[i as int]));
            return false;
        }
        i = i + 1;
    }
    let sample = sample_segments_exec(&l, &r);
    assert(views(sample@).len() == sample@.len() && views(l@).len() == l@.len() && views(r@).len() == r@.len());
    let lc = path_segments(&chars_of(left_canonical));
    let rc = path_segments(&chars_of(right_canonical));
    let a = rewrite_alias_sample(&sample, &l, &lc);
    let b = rewrite_alias_sample(&sample, &r, &rc);
    !chars_eq(&a, &b)
}

/// The six source kinds in their declared order.
pub open spec fn all_kinds() -> Seq<SourceKind> {
    seq![SourceKind::Default, SourceKind::File, SourceKind::Environment, SourceKind::Arguments, SourceKind::Normalization, SourceKind::Custom]
}

/// The set of kinds listed in `kinds`, in declared order without repeats.
pub open spec fn kind_set(kinds: Seq<SourceKind>) -> Seq<SourceKind> {
    all_kinds().filter(|k: SourceKind| kinds.contains(k))
}

fn contains_kind(kinds: &Vec<SourceKind>, k: SourceKind) -> (r: bool)
    ensures
        r == kinds@.contains(k),
{
    let mut i: usize = 0;
    while i < kinds.len()
        invariant
            i <= kinds.len(),
            forall|j: int| 0 <= j < i ==> kinds@[j] != k,
        decreases kinds.len() - i,
    {
        if kinds[i] == k {
            assert(kinds@[i as int] == k);
            return true;
        }
        i = i + 1;
    }
    false
}

/// The distinct kinds of `kinds` in declared order.
pub fn source_kind_set(kinds: &Vec<SourceKind>) -> (r: Vec<SourceKind>)
    ensures
        r@ == kind_set(kinds@),
{
    let all = [SourceKind::Default, SourceKind::File, SourceKind::Environment, SourceKind::Arguments, SourceKind::Normalization, SourceKind::Custom];
    assert(all@ =~= all_kinds());
    let mut out: Vec<SourceKind> = Vec::new();
    let mut i: usize = 0;
    while i < 6
        invariant
            i <= 6,
            all@ == all_kinds(),
            out@ == all_kinds().take(i as int).filter(|k: SourceKind| kinds@.contains(k)),
        decreases 6 - i,
    {
        assert(all_kinds().take(i + 1).drop_last() =~= all_kinds().take(i as int));
        reveal_with_fuel(Seq::filter, 1);
        if contains_kind(kinds, all[i]) {
            out.push(all[i]);
        }
        i = i + 1;
    }
    assert(all_kinds().take(6) =~= all_kinds());
    out
}

/// The kinds both allowed and denied, in declared kind order.
pub open spec fn kind_overlap(allowed: Seq<SourceKind>, denied: Seq<SourceKind>) -> Seq<SourceKind> {
    all_kinds().filter(|k: SourceKind| allowed.contains(k) && denied.contains(k))
}

/// The kinds listed in both `allowed` and `denied`, in declared order.
pub fn source_kind_overlap(allowed: &Vec<SourceKind>, denied: &Vec<SourceKind>) -> (r: Vec<SourceKind>)
    ensures
        r@ == kind_overlap(allowed@, denied@),
{
    let all = [SourceKind::Default, SourceKind::File, SourceKind::Environment, SourceKind::Arguments, SourceKind::Normalization, SourceKind::Custom];
    assert(all@ =~= all_kinds());
    let mut out: Vec<SourceKind> = Vec::new();
    let mut i: usize = 0;
    while i < 6
        invariant
            i <= 6,
            all@ == all_kinds(),
            out@ == all_kinds().take(i as int).filter(|k: SourceKind| allowed@.contains(k) && denied@.contains(k)),
        decreases 6 - i,
    {
        assert(all_kinds().take(i + 1).drop_last() =~= all_kinds().take(i as int));
        reveal_with_fuel(Seq::filter, 1);
        if contains_kind(allowed, all[i]) && contains_kind(denied, all[i]) {
            out.push(all[i]);
        }
        i = i + 1;
    }
    assert(all_kinds().take(6) =~= all_kinds());
    out
}

/// The source policy in force for a path: which kinds may set it and which
/// may not, each a set kept in declared kind order.
pub struct EffectiveSourcePolicy {
    pub allowed_sources: Option<Vec<SourceKind>>,
    pub denied_sources: Option<Vec<SourceKind>>,
}

impl EffectiveSourcePolicy {
    /// A policy that allows every kind.
    pub fn new() -> (r: Self)
        ensures
            r.allowed_sources is None,
            r.denied_sources is None,
    {
        EffectiveSourcePolicy { allowed_sources: None, denied_sources: None }
    }

    /// Applies a field's own allow and deny lists; a list that is set replaces
    /// the one in force.
    pub fn apply_field(&mut self, allowed: &Option<Vec<SourceKind>>, denied: &Option<Vec<SourceKind>>)
        ensures
            allowed is Some ==> (final(self).allowed_sources matches Some(v) && v@ == kind_set(allowed->Some_0@)),
            allowed is None ==> final(self).allowed_sources == old(self).allowed_sources,
            denied is Some ==> (final(self).denied_sources matches Some(v) && v@ == kind_set(denied->Some_0@)),
            denied is None ==> final(self).denied_sources == old(self).denied_sources,
    {
        match allowed {
            Some(a) => {
                self.allowed_sources = Some(source_kind_set(a));
            },
            None => {},
        }
        match denied {
            Some(d) => {
                self.denied_sources = Some(source_kind_set(d));
            },
            None => {},
        }
    }

    /// Whether `kind` may set the path.
    pub fn source_kind_allowed(&self, kind: SourceKind) -> (r: bool)
        ensures
            r == match self.allowed_sources {
                Some(a) => a@.contains(kind),
                None => true,
            },
    {
        match &self.allowed_sources {
            Some(a) => contains_kind(a, kind),
            None => true,
        }
    }

    /// Whether `kind` is denied for the path.
    pub fn source_kind_denied(&self, kind: SourceKind) -> (r: bool)
        ensures
            r == match self.denied_sources {
                Some(d) => d@.contains(kind),
                None => false,
            },
    {
        match &self.denied_sources {
            Some(d) => contains_kind(d, kind),
            None => false,
        }
    }

    /// The allowed kinds, or none when every kind is allowed.
    pub fn allowed_sources_vec(&self) -> (r: Vec<SourceKind>)
        ensures
            r@ == match self.allowed_sources {
                Some(a) => a@,
                None => Seq::empty(),
            },
    {
        match &self.allowed_sources {
            Some(a) => a.clone(),
            None => Vec::new(),
        }
    }

    /// The denied kinds.
    pub fn denied_sources_vec(&self) -> (r: Vec<SourceKind>)
        ensures
            r@ == match self.denied_sources {
                Some(d) => d@,
                None => Seq::empty(),
            },
    {
        match &self.denied_sources {
            Some(d) => d.clone(),
            None => Vec::new(),
        }
    }
}

} // verus!
