//! Command-line overrides: `--config`, `--profile` and `--set path=value`.
use vstd::prelude::*;
use crate::text::{split, join, string_views, chars_of, string_of, starts_with, starts_with_chars, slice_chars,
    str_eq, chars_eq, split_chars, join_chars, views};
use crate::strmap::{StrMap, seq_lt, lemma_lt_total, lemma_lt_irrefl};
use crate::docs::{trim, trim_chars};
use crate::path::{joined, join_path};
use crate::json::{JsonValue, Json, insert_path, insert_result, indices_bounded};
use crate::arrays::{child_index, direct_child_array_index, set_view, lengths_view};
use crate::sources::{cat, strmap_view, SourceKind, SourceTrace, FileSource, FileSourceView, ArgsSource};
use crate::syntax::{external_path_result, try_normalize_external_path};
use crate::arrays::{grown_lengths, recorded_bases, lengths_into, cleared, container_paths, record_indexed_array_state, record_direct_array_state, indexed_array_container_paths};
use crate::error::ConfigError;

verus! {

/// A whole array written at `prefix` leaves room for index writes into it.
pub open spec fn prefix_allows(prefix: Seq<char>, other: Seq<char>, is_direct_array: bool) -> bool {
    is_direct_array && child_index(prefix, other) is Some
}

/// Whether `prefix` is a whole array and `other` writes one of its indices.
pub fn direct_array_prefix_allows(prefix: &str, other: &str, is_direct_array: bool) -> (r: bool)
    ensures
        r == prefix_allows(prefix@, other@, is_direct_array),
{
    if !is_direct_array {
        return false;
    }
    direct_child_array_index(prefix, other).is_some()
}

/// Two overlapping overrides are fine when one writes a whole array and the
/// other an index inside it.
pub open spec fn overlap_allowed(existing: Seq<char>, new_path: Seq<char>, new_is_direct: bool, direct: Set<Seq<char>>) -> bool {
    prefix_allows(existing, new_path, direct.contains(existing)) || prefix_allows(new_path, existing, new_is_direct)
}

/// Whether an earlier override of `existing` allows one of `new_path`.
pub fn direct_array_overlap_allowed(existing_path: &str, new_path: &str, new_is_direct_array: bool, direct_array_paths: &StrMap<()>) -> (r: bool)
    requires
        direct_array_paths.wf(),
    ensures
        r == overlap_allowed(existing_path@, new_path@, new_is_direct_array, set_view(*direct_array_paths)),
{
    let existing_direct = direct_array_paths.get(existing_path).is_some();
    direct_array_prefix_allows(existing_path, new_path, existing_direct)
        || direct_array_prefix_allows(new_path, existing_path, new_is_direct_array)
}

/// An earlier override of `existing` conflicts with one of `path`.
pub open spec fn claim_conflict(existing: Seq<char>, path: Seq<char>, is_direct: bool, direct: Set<Seq<char>>) -> bool {
    existing == path || ((starts_with(existing, path + seq!['.']) || starts_with(path, existing + seq!['.']))
        && !overlap_allowed(existing, path, is_direct, direct))
}

/// The least claimed path in conflict with `path`, if any.
pub open spec fn first_conflict(claimed: Map<Seq<char>, Seq<char>>, path: Seq<char>, is_direct: bool, direct: Set<Seq<char>>) -> Option<Seq<char>> {
    if exists|k: Seq<char>| claimed.contains_key(k) && #[trigger] claim_conflict(k, path, is_direct, direct) {
        Some(choose|k: Seq<char>| claimed.contains_key(k) && claim_conflict(k, path, is_direct, direct)
            && forall|k2: Seq<char>| claimed.contains_key(k2) && #[trigger] claim_conflict(k2, path, is_direct, direct) ==> !seq_lt(k2, k))
    } else {
        None
    }
}

pub open spec fn claim_message(existing: Seq<char>, existing_arg: Seq<char>, arg: Seq<char>, path: Seq<char>) -> Seq<char> {
    if existing == path {
        "conflicting CLI overrides `"@ + existing_arg + "` and `"@ + arg + "` both target `"@ + path + "`"@
    } else {
        "conflicting CLI overrides `"@ + existing_arg + "` and `"@ + arg + "` target overlapping configuration paths `"@
            + existing + "` and `"@ + path + "`"@
    }
}

fn conflicts(existing: &str, path: &str, is_direct: bool, direct: &StrMap<()>) -> (r: bool)
    requires
        direct.wf(),
    ensures
        r == claim_conflict(existing@, path@, is_direct, set_view(*direct)),
{
    if str_eq(existing, path) {
        return true;
    }
    let e = chars_of(existing);
    let p = chars_of(path);
    let mut pd = slice_chars(&p, 0, p.len());
    pd.push('.');
    let mut ed = slice_chars(&e, 0, e.len());
    ed.push('.');
    assert(p@.subrange(0, p@.len() as int) =~= p@);
    assert(e@.subrange(0, e@.len() as int) =~= e@);
    assert(pd@ =~= p@ + seq!['.']);
    assert(ed@ =~= e@ + seq!['.']);
    (starts_with_chars(&e, &pd) || starts_with_chars(&p, &ed))
        && !direct_array_overlap_allowed(existing, path, is_direct, direct)
}

/// Claims `path` for the override `arg`, refusing one that targets a path
/// already claimed or one overlapping it (unless a whole array and an index
/// inside it).
pub fn claim_arg_path(
    arg: &str,
    path: &str,
    is_direct_array: bool,
    direct_array_paths: &StrMap<()>,
    claimed_paths: &mut StrMap<String>,
) -> (r: Result<(), ConfigError>)
    requires
        direct_array_paths.wf(),
        old(claimed_paths).wf(),
    ensures
        final(claimed_paths).wf(),
        match first_conflict(strmap_view(*old(claimed_paths)), path@, is_direct_array, set_view(*direct_array_paths)) {
            None => r is Ok && strmap_view(*final(claimed_paths)) == strmap_view(*old(claimed_paths)).insert(path@, arg@),
            Some(k) => r matches Err(ConfigError::InvalidArg { arg: a, message: m }) && a@ == arg@
                && m@ == claim_message(k, strmap_view(*old(claimed_paths))[k], arg@, path@),
        },
{
    let ghost cv = strmap_view(*claimed_paths);
    let ghost dv = set_view(*direct_array_paths);
    let ghost es = claimed_paths.entries();
    proof {
        StrMap::<String>::lemma_keys_are_entries(*claimed_paths);
    }
    let mut i: usize = 0;
    while i < claimed_paths.len()
        invariant
            i <= es.len(),
            es == claimed_paths.entries(),
            claimed_paths.wf(),
            cv == strmap_view(*claimed_paths),
            dv == set_view(*direct_array_paths),
            direct_array_paths.wf(),
            forall|j: int| 0 <= j < i ==> !claim_conflict(#[trigger] es[j].0@, path@, is_direct_array, dv),
        decreases es.len() - i,
    {
        let (existing, existing_arg) = claimed_paths.entry_at(i);
        if conflicts(existing.as_str(), path, is_direct_array, direct_array_paths) {
            let ghost k = existing@;
            proof {
                StrMap::<String>::lemma_keys_distinct(*claimed_paths, i as int);
                StrMap::<String>::lemma_keys_are_entries(*claimed_paths);
                claimed_paths.lemma_wf_sorted();
                assert(cv.contains_key(k) && cv[k] == existing_arg@);
                assert forall|k2: Seq<char>| cv.contains_key(k2) && #[trigger] claim_conflict(k2, path@, is_direct_array, dv) implies !seq_lt(k2, k) by {
                    let j = choose|j: int| 0 <= j < es.len() && #[trigger] es[j].0@ == k2;
                    lemma_lt_irrefl(k2);
                    if j > i as int {
                        assert(seq_lt(es[i as int].0@, es[j].0@));
                        lemma_lt_total(k, k2);
                    }
                }
                assert(cv.contains_key(k) && claim_conflict(k, path@, is_direct_array, dv));
                let c = first_conflict(cv, path@, is_direct_array, dv)->Some_0;
                assert(cv.contains_key(c) && claim_conflict(c, path@, is_direct_array, dv));
                assert(!seq_lt(c, k));
                assert(!seq_lt(k, c));
                lemma_lt_total(c, k);
            }
            let message = if str_eq(existing.as_str(), path) {
                cat(&cat(&cat(&cat(&cat(&cat("conflicting CLI overrides `", existing_arg.as_str()), "` and `"), arg), "` both target `"), path), "`")
            } else {
                cat(&cat(&cat(&cat(&cat(&cat(&cat(&cat("conflicting CLI overrides `", existing_arg.as_str()), "` and `"), arg),
                    "` target overlapping configuration paths `"), existing.as_str()), "` and `"), path), "`")
            };
            return Err(ConfigError::InvalidArg { arg: arg.to_string(), message });
        }
        i = i + 1;
    }
    proof {
        assert forall|k: Seq<char>| cv.contains_key(k) implies !#[trigger] claim_conflict(k, path@, is_direct_array, dv) by {
            let j = choose|j: int| 0 <= j < es.len() && #[trigger] es[j].0@ == k;
        }
    }
    claimed_paths.insert(path.to_string(), arg.to_string());
    assert(strmap_view(*claimed_paths) =~= cv.insert(path@, arg@));
    Ok(())
}

/// The outcome of parsing the JSON text of an explicit override, as a map
/// from the text to the value or the parser's message.
pub open spec fn table_view(t: StrMap<Result<JsonValue, String>>) -> Map<Seq<char>, Result<Json, Seq<char>>> {
    Map::new(|k: Seq<char>| t.get_spec(k) is Some, |k: Seq<char>| match t.get_spec(k)->Some_0 {
        Ok(v) => Ok(v@),
        Err(e) => Err(e@),
    })
}

/// Override text that asks to be read as JSON: an object, array or string.
pub open spec fn json_syntax(t: Seq<char>) -> bool {
    t.len() > 0 && (t[0] == '{' || t[0] == '[' || t[0] == '"')
}

/// What the JSON parser reads from each text: its value, or its error
/// message.
pub open spec fn json_table() -> Map<Seq<char>, Result<Json, Seq<char>>> {
    Map::new(|t: Seq<char>| true, |t: Seq<char>| match crate::parse::json_text(t) {
        Ok(j) => Ok(j),
        Err(e) => Err(e.0),
    })
}

/// A parsed override value, and the relative paths of its string leaves
/// that may be retried as scalars.
pub struct ParsedOverride {
    pub value: JsonValue,
    pub string_coercion_suffixes: StrMap<()>,
}

/// How an override is read: empty and plain text stay a string (which may
/// later be retried as a scalar); text in JSON syntax is its JSON value.
pub open spec fn override_result(raw: Seq<char>, table: Map<Seq<char>, Result<Json, Seq<char>>>) -> Result<(Json, Set<Seq<char>>), Seq<char>> {
    if raw.len() == 0 {
        Ok((Json::Str(Seq::empty()), set![Seq::<char>::empty()]))
    } else if json_syntax(trim(raw)) {
        match table[trim(raw)] {
            Ok(v) => Ok((v, Set::empty())),
            Err(e) => Err("invalid explicit JSON override: "@ + e),
        }
    } else {
        Ok((Json::Str(raw), set![Seq::<char>::empty()]))
    }
}

/// The text of an override to be read as JSON, if it is one.
pub fn explicit_json_text(raw: &str) -> (r: Option<String>)
    ensures
        match r {
            Some(t) => raw@.len() > 0 && json_syntax(trim(raw@)) && t@ == trim(raw@),
            None => raw@.len() == 0 || !json_syntax(trim(raw@)),
        },
{
    if raw.is_empty() {
        return None;
    }
    let t = trim_chars(&chars_of(raw));
    if t.len() > 0 && (t[0] == '{' || t[0] == '[' || t[0] == '"') {
        Some(string_of(&t))
    } else {
        None
    }
}

fn root_suffix() -> (r: StrMap<()>)
    ensures
        r.wf(),
        set_view(r) == set![Seq::<char>::empty()],
{
    let mut s: StrMap<()> = StrMap::new();
    s.insert(String::new(), ());
    assert(set_view(s) =~= set![Seq::<char>::empty()]);
    s
}

/// Reads an override value; text in JSON syntax is read by the JSON parser,
/// which holds what the JSON parser made of each such text.
pub fn parse_override_value(raw: &str) -> (r: Result<ParsedOverride, String>)
    ensures
        match override_result(raw@, json_table()) {
            Ok((v, s)) => r matches Ok(p) && p.value@ == v && set_view(p.string_coercion_suffixes) == s
                && p.string_coercion_suffixes.wf(),
            Err(e) => r matches Err(m) && m@ == e,
        },
{
    if raw.is_empty() {
        let v = JsonValue::String(String::new());
        assert(v@ == Json::Str(Seq::empty()));
        return Ok(ParsedOverride { value: v, string_coercion_suffixes: root_suffix() });
    }
    match explicit_json_text(raw) {
        Some(t) => {
            match crate::parse::read_json(t.as_str()) {
                Ok(v) => {
                    let e: StrMap<()> = StrMap::new();
                    assert(set_view(e) =~= Set::<Seq<char>>::empty());
                    Ok(ParsedOverride { value: v, string_coercion_suffixes: e })
                },
                Err(e) => Err(cat("invalid explicit JSON override: ", e.0.as_str())),
            }
        },
        None => {
            let v = JsonValue::String(raw.to_string());
            assert(v@ == Json::Str(raw@));
            Ok(ParsedOverride { value: v, string_coercion_suffixes: root_suffix() })
        },
    }
}

/// The position of the first `c` in `s`.
pub open spec fn char_index(s: Seq<char>, c: char) -> Option<int>
    decreases s.len(),
{
    if s.len() == 0 {
        None
    } else if s[0] == c {
        Some(0)
    } else {
        match char_index(s.drop_first(), c) {
            Some(i) => Some(i + 1),
            None => None,
        }
    }
}

proof fn lemma_char_index(s: Seq<char>, c: char, i: int)
    requires
        0 <= i <= s.len(),
        forall|j: int| 0 <= j < i ==> s[j] != c,
        i < s.len() ==> s[i] == c,
    ensures
        char_index(s, c) == (if i < s.len() { Some(i) } else { None::<int> }),
    decreases i,
{
    if i > 0 {
        lemma_char_index(s.drop_first(), c, i - 1);
    }
}

pub fn find_char(s: &[char], c: char) -> (r: Option<usize>)
    ensures
        match r {
            Some(i) => char_index(s@, c) == Some(i as int) && i < s@.len(),
            None => char_index(s@, c) is None,
        },
{
    let mut i: usize = 0;
    while i < s.len()
        invariant
            i <= s@.len(),
            forall|j: int| 0 <= j < i ==> s@[j] != c,
        decreases s@.len() - i,
    {
        if s[i] == c {
            proof {
                lemma_char_index(s@, c, i as int);
            }
            return Some(i);
        }
        i = i + 1;
    }
    proof {
        lemma_char_index(s@, c, i as int);
    }
    None
}

/// A path whose index segments the arrays it writes can grow to reach.
pub open spec fn bounded_path(p: Seq<char>) -> bool {
    &&& indices_bounded(split(p, '.'))
    &&& forall|k: Seq<char>| #[trigger] child_index(k, p) != Some(usize::MAX as nat)
}

/// The path and value text of a `path=value` override.
pub open spec fn set_parts(sv: Seq<char>) -> Option<(Seq<char>, Seq<char>)> {
    match char_index(sv, '=') {
        Some(i) => Some((sv.take(i), sv.skip(i + 1))),
        None => None,
    }
}

/// What a `path=value` override needs from the caller: its path, once read,
/// is bounded, and its value text, if JSON, has been parsed.
pub open spec fn set_value_ready(sv: Seq<char>, table: Map<Seq<char>, Result<Json, Seq<char>>>) -> bool {
    match set_parts(sv) {
        Some((rp, rv)) => {
            &&& external_path_result(rp) matches Ok(p) ==> bounded_path(p)
            &&& rv.len() > 0 && json_syntax(trim(rv)) ==> table.contains_key(trim(rv))
        },
        None => true,
    }
}

/// The loader's view of the overrides read so far.
pub struct ArgsView {
    pub files: Seq<FileSourceView>,
    pub profile: Option<Seq<char>>,
    pub root: Json,
    pub entries: Map<Seq<char>, Seq<char>>,
    pub coercible: Set<Seq<char>>,
    pub indexed: Set<Seq<char>>,
    pub base: Map<Seq<char>, nat>,
    pub current: Map<Seq<char>, nat>,
    pub direct: Set<Seq<char>>,
    pub claimed: Map<Seq<char>, Seq<char>>,
}

/// Why reading overrides stopped.
pub enum ArgFault {
    /// A flag was given without its value.
    Missing(Seq<char>),
    /// An override could not be applied: the argument and the reason.
    Invalid(Seq<char>, Seq<char>),
}

pub open spec fn arg_fault(e: ConfigError) -> Option<ArgFault> {
    match e {
        ConfigError::InvalidArg { arg, message } => Some(ArgFault::Invalid(arg@, message@)),
        ConfigError::MissingArgValue { flag } => Some(ArgFault::Missing(flag@)),
        _ => None,
    }
}

/// The dotted prefix of the first `n` segments, built as the loader builds it.
pub open spec fn prefix_str(segs: Seq<Seq<char>>, n: nat) -> Seq<char>
    decreases n,
{
    if n == 0 || n > segs.len() {
        Seq::empty()
    } else {
        let p = prefix_str(segs, (n - 1) as nat);
        (if p.len() == 0 { p } else { p.push('.') }) + segs[n - 1]
    }
}

/// The provenance entries after an override of `path` named `name`: the
/// path itself, then each prefix, which becomes generic when another
/// override wrote there first.
pub open spec fn prefix_entries(e: Map<Seq<char>, Seq<char>>, path: Seq<char>, segs: Seq<Seq<char>>, name: Seq<char>, n: nat) -> Map<Seq<char>, Seq<char>>
    decreases n,
{
    if n == 0 {
        e.insert(path, name)
    } else {
        let m = prefix_entries(e, path, segs, name, (n - 1) as nat);
        let p = prefix_str(segs, n);
        if !m.contains_key(p) {
            m.insert(p, name)
        } else if p != path && m[p] != name {
            m.insert(p, "arguments"@)
        } else {
            m
        }
    }
}

/// The paths below `path` that the suffixes name (the empty suffix names
/// `path`).
pub open spec fn suffix_paths(path: Seq<char>, suffixes: Set<Seq<char>>) -> Set<Seq<char>> {
    suffixes.map(|s: Seq<char>| if s.len() == 0 { path } else { joined(path, s) })
}

/// One `path=value` override applied to the overrides read so far.
pub open spec fn set_step(st: ArgsView, sv: Seq<char>, table: Map<Seq<char>, Result<Json, Seq<char>>>) -> Result<ArgsView, ArgFault> {
    match set_parts(sv) {
        None => Err(ArgFault::Invalid(sv, "expected key=value"@)),
        Some((rp, rv)) => match external_path_result(rp) {
            Err(m) => Err(ArgFault::Invalid("--set "@ + rp + "="@ + rv, m)),
            Ok(path) => if path.len() == 0 {
                Err(ArgFault::Invalid(sv, "configuration path cannot be empty"@))
            } else {
                let segs = split(path, '.');
                match override_result(rv, table) {
                    Err(m) => Err(ArgFault::Invalid("--set "@ + path + "="@ + rv, m)),
                    Ok((v, suffixes)) => {
                        let name = "--set "@ + rp + "="@ + rv;
                        let is_direct = v is Array;
                        match first_conflict(st.claimed, path, is_direct, st.direct) {
                            Some(k) => Err(ArgFault::Invalid(name, claim_message(k, st.claimed[k], name, path))),
                            None => {
                                let cur1 = grown_lengths(st.current, path, segs);
                                let base1 = recorded_bases(st.base, st.current, path, segs);
                                match insert_result(st.root, segs, v) {
                                    Err(m) => Err(ArgFault::Invalid("--set "@ + path + "="@ + rv, m)),
                                    Ok(root) => Ok(ArgsView {
                                        files: st.files,
                                        profile: st.profile,
                                        root,
                                        entries: prefix_entries(st.entries, path, segs, name, segs.len()),
                                        coercible: st.coercible + suffix_paths(path, suffixes),
                                        indexed: st.indexed + container_paths(segs),
                                        base: if is_direct { cleared(base1, path) } else { base1 },
                                        current: if is_direct { lengths_into(v, path, cleared(cur1, path)) } else { cur1 },
                                        direct: if is_direct { st.direct.insert(path) } else { st.direct },
                                        claimed: st.claimed.insert(path, name),
                                    }),
                                }
                            },
                        }
                    },
                }
            },
        },
    }
}

/// One of the first `n` keys of `es` is `x`.
pub open spec fn among<V>(es: Seq<(String, V)>, n: int, x: Seq<char>) -> bool {
    exists|j: int| 0 <= j < n && #[trigger] es[j].0@ == x
}

/// `x` is the image under `f` of one of the first `n` keys of `es`.
pub open spec fn among_mapped<V>(es: Seq<(String, V)>, n: int, x: Seq<char>, f: spec_fn(Seq<char>) -> Seq<char>) -> bool {
    exists|j: int| 0 <= j < n && x == f(#[trigger] es[j].0@)
}

/// Adds the keys of `src` to `dst`.
pub fn union_into(dst: &mut StrMap<()>, src: &StrMap<()>)
    requires
        old(dst).wf(),
        src.wf(),
    ensures
        final(dst).wf(),
        set_view(*final(dst)) == set_view(*old(dst)) + set_view(*src),
{
    let ghost d0 = set_view(*dst);
    let ghost es = src.entries();
    proof {
        StrMap::<()>::lemma_keys_are_entries(*src);
    }
    let mut i: usize = 0;
    while i < src.len()
        invariant
            i <= es.len(),
            es == src.entries(),
            dst.wf(),
            set_view(*dst) == d0 + Set::new(|k: Seq<char>| among(es, i as int, k)),
        decreases es.len() - i,
    {
        let (k, _u) = src.entry_at(i);
        let ghost before = set_view(*dst);
        dst.insert(k.clone(), ());
        assert(set_view(*dst) =~= before.insert(k@));
        assert(set_view(*dst) =~= d0 + Set::new(|x: Seq<char>| among(es, i + 1, x))) by {
            assert forall|x: Seq<char>| #[trigger] among(es, i + 1, x) implies (x == k@ || among(es, i as int, x)) by {
                let j = choose|j: int| 0 <= j < i + 1 && #[trigger] es[j].0@ == x;
                if j < i {
                    assert(es[j].0@ == x);
                }
            }
            assert(es[i as int].0@ == k@);
            assert(among(es, i + 1, k@));
            assert forall|x: Seq<char>| #[trigger] among(es, i as int, x) implies among(es, i + 1, x) by {
                let j = choose|j: int| 0 <= j < i && #[trigger] es[j].0@ == x;
                assert(es[j].0@ == x);
            }
        }
        i = i + 1;
    }
    assert forall|x: Seq<char>| #[trigger] among(es, es.len() as int, x) == set_view(*src).contains(x) by {
        if set_view(*src).contains(x) {
            let j = choose|j: int| 0 <= j < es.len() && #[trigger] es[j].0@ == x;
            assert(es[j].0@ == x);
        }
    }
    assert(set_view(*dst) =~= d0 + set_view(*src));
}

/// Adds the paths that `suffixes` name below `path` to `dst`.
pub fn add_suffix_paths(dst: &mut StrMap<()>, path: &str, suffixes: &StrMap<()>)
    requires
        old(dst).wf(),
        suffixes.wf(),
    ensures
        final(dst).wf(),
        set_view(*final(dst)) == set_view(*old(dst)) + suffix_paths(path@, set_view(*suffixes)),
{
    let ghost d0 = set_view(*dst);
    let ghost es = suffixes.entries();
    let ghost f = |s: Seq<char>| if s.len() == 0 { path@ } else { joined(path@, s) };
    proof {
        StrMap::<()>::lemma_keys_are_entries(*suffixes);
    }
    let mut i: usize = 0;
    while i < suffixes.len()
        invariant
            i <= es.len(),
            es == suffixes.entries(),
            dst.wf(),
            f == (|s: Seq<char>| if s.len() == 0 { path@ } else { joined(path@, s) }),
            set_view(*dst) == d0 + Set::new(|k: Seq<char>| among_mapped(es, i as int, k, f)),
        decreases es.len() - i,
    {
        let (sfx, _u) = suffixes.entry_at(i);
        let p = if sfx.as_str().is_empty() { path.to_string() } else { join_path(path, sfx.as_str()) };
        assert(p@ == f(es[i as int].0@));
        let ghost before = set_view(*dst);
        let ghost pv = p@;
        dst.insert(p, ());
        assert(set_view(*dst) =~= before.insert(pv));
        assert(set_view(*dst) =~= d0 + Set::new(|x: Seq<char>| among_mapped(es, i + 1, x, f))) by {
            assert forall|x: Seq<char>| #[trigger] among_mapped(es, i + 1, x, f) implies (x == f(es[i as int].0@) || among_mapped(es, i as int, x, f)) by {
                let j = choose|j: int| 0 <= j < i + 1 && x == f(#[trigger] es[j].0@);
                if j < i {
                    assert(x == f(es[j].0@));
                }
            }
            assert(among_mapped(es, i + 1, f(es[i as int].0@), f));
            assert forall|x: Seq<char>| #[trigger] among_mapped(es, i as int, x, f) implies among_mapped(es, i + 1, x, f) by {
                let j = choose|j: int| 0 <= j < i && x == f(#[trigger] es[j].0@);
                assert(x == f(es[j].0@));
            }
        }
        i = i + 1;
    }
    assert(set_view(*dst) =~= d0 + suffix_paths(path@, set_view(*suffixes))) by {
        assert forall|x: Seq<char>| #[trigger] suffix_paths(path@, set_view(*suffixes)).contains(x) implies among_mapped(es, es.len() as int, x, f) by {
            let s0 = choose|s0: Seq<char>| set_view(*suffixes).contains(s0) && f(s0) == x;
            let j = choose|j: int| 0 <= j < es.len() && #[trigger] es[j].0@ == s0;
            assert(x == f(es[j].0@));
        }
        assert forall|x: Seq<char>| #[trigger] among_mapped(es, es.len() as int, x, f) implies suffix_paths(path@, set_view(*suffixes)).contains(x) by {
            let j = choose|j: int| 0 <= j < es.len() && x == f(#[trigger] es[j].0@);
            assert(set_view(*suffixes).contains(es[j].0@));
        }
    }
}

/// The provenance names of a map of traces.
pub open spec fn names_view(m: StrMap<SourceTrace>) -> Map<Seq<char>, Seq<char>> {
    Map::new(|k: Seq<char>| m.get_spec(k) is Some, |k: Seq<char>| m.get_spec(k)->Some_0.name@)
}

/// Every trace is an argument trace without a location.
pub open spec fn argument_traces(m: StrMap<SourceTrace>) -> bool {
    forall|k: Seq<char>| #[trigger] m.get_spec(k) matches Some(t) ==> t.kind == SourceKind::Arguments && t.location is None
}

/// The overrides read so far.
pub struct ArgsState {
    files: Vec<FileSource>,
    profile: Option<String>,
    root: JsonValue,
    entries: StrMap<SourceTrace>,
    coercible: StrMap<()>,
    indexed: StrMap<()>,
    base: StrMap<usize>,
    current: StrMap<usize>,
    direct: StrMap<()>,
    claimed: StrMap<String>,
}

impl View for ArgsState {
    type V = ArgsView;

    closed spec fn view(&self) -> ArgsView {
        ArgsView {
            files: self.files@.map_values(|f: FileSource| f@),
            profile: crate::sources::opt_view(self.profile),
            root: self.root@,
            entries: names_view(self.entries),
            coercible: set_view(self.coercible),
            indexed: set_view(self.indexed),
            base: lengths_view(self.base),
            current: lengths_view(self.current),
            direct: set_view(self.direct),
            claimed: strmap_view(self.claimed),
        }
    }
}

impl ArgsState {
    closed spec fn wf(&self) -> bool {
        &&& self.entries.wf()
        &&& self.coercible.wf()
        &&& self.indexed.wf()
        &&& self.base.wf()
        &&& self.current.wf()
        &&& self.direct.wf()
        &&& self.claimed.wf()
        &&& argument_traces(self.entries)
    }

    fn new() -> (r: Self)
        ensures
            r.wf(),
            r@ == empty_args(),
    {
        let r = ArgsState {
            files: Vec::new(),
            profile: None,
            root: JsonValue::Object(Vec::new()),
            entries: StrMap::new(),
            coercible: StrMap::new(),
            indexed: StrMap::new(),
            base: StrMap::new(),
            current: StrMap::new(),
            direct: StrMap::new(),
            claimed: StrMap::new(),
        };
        assert(r@.files =~= Seq::<FileSourceView>::empty());
        assert(r@.root->Object_0 =~= Seq::<(Seq<char>, Json)>::empty());
        assert(r@.entries =~= Map::<Seq<char>, Seq<char>>::empty());
        assert(r@.coercible =~= Set::<Seq<char>>::empty());
        assert(r@.indexed =~= Set::<Seq<char>>::empty());
        assert(r@.base =~= Map::<Seq<char>, nat>::empty());
        assert(r@.current =~= Map::<Seq<char>, nat>::empty());
        assert(r@.direct =~= Set::<Seq<char>>::empty());
        assert(r@.claimed =~= Map::<Seq<char>, Seq<char>>::empty());
        r
    }

    fn add_file(&mut self, path: &str)
        requires
            old(self).wf(),
        ensures
            final(self).wf(),
            final(self)@ == (ArgsView { files: old(self)@.files.push(FileSourceView { candidates: seq![path@], required: true, format: None }), ..old(self)@ }),
    {
        let ghost before = self.files@;
        self.files.push(FileSource::new(path));
        assert(self.files@.map_values(|f: FileSource| f@) =~= before.map_values(|f: FileSource| f@).push(FileSourceView { candidates: seq![path@], required: true, format: None }));
    }

    fn set_profile(&mut self, profile: &str)
        requires
            old(self).wf(),
        ensures
            final(self).wf(),
            final(self)@ == (ArgsView { profile: Some(profile@), ..old(self)@ }),
    {
        self.profile = Some(profile.to_string());
    }

    /// Records the provenance of an override of `path` named `name`.
    fn record_entries(&mut self, path: &str, segments: &Vec<String>, name: &str)
        requires
            old(self).wf(),
        ensures
            final(self).wf(),
            final(self)@ == (ArgsView { entries: prefix_entries(old(self)@.entries, path@, string_views(segments@), name@, segments@.len()), ..old(self)@ }),
    {
        let ghost e0 = names_view(self.entries);
        let ghost sv = string_views(segments@);
        let ghost before = self.entries;
        self.entries.insert(path.to_string(), SourceTrace::new(SourceKind::Arguments, name));
        assert(names_view(self.entries) =~= e0.insert(path@, name@));
        let mut prefix: Vec<char> = Vec::new();
        let mut k: usize = 0;
        while k < segments.len()
            invariant
                k <= segments@.len(),
                sv == string_views(segments@),
                self.files == old(self).files,
                self.profile == old(self).profile,
                self.root == old(self).root,
                self.coercible == old(self).coercible,
                self.indexed == old(self).indexed,
                self.base == old(self).base,
                self.current == old(self).current,
                self.direct == old(self).direct,
                self.claimed == old(self).claimed,
                old(self).wf(),
                self.entries.wf(),
                argument_traces(self.entries),
                prefix@ == prefix_str(sv, k as nat),
                names_view(self.entries) == prefix_entries(e0, path@, sv, name@, k as nat),
            decreases segments@.len() - k,
        {
            let ghost pre = prefix@;
            if prefix.len() > 0 {
                prefix.push('.');
            }
            let seg = chars_of(segments[k].as_str());
            crate::text::append_chars(&mut prefix, &seg);
            assert(sv[k as int] == segments@[k as int]@);
            assert(prefix@ == (if pre.len() == 0 { pre } else { pre.push('.') }) + sv[k as int]);
            assert(prefix@ == prefix_str(sv, (k + 1) as nat));
            let pstr = string_of(&prefix);
            let ghost m = names_view(self.entries);
            let existing = match self.entries.get(pstr.as_str()) {
                None => None,
                Some(t) => Some(t.name.clone()),
            };
            match existing {
                None => {
                    let ghost pv = pstr@;
                    self.entries.insert(pstr, SourceTrace::new(SourceKind::Arguments, name));
                    assert(names_view(self.entries) =~= m.insert(pv, name@));
                },
                Some(ename) => {
                    if !str_eq(pstr.as_str(), path) && !str_eq(ename.as_str(), name) {
                        let ghost pv = pstr@;
                        self.entries.insert(pstr, SourceTrace::new(SourceKind::Arguments, "arguments"));
                        proof {
                            reveal_strlit("arguments");
                        }
                        assert(names_view(self.entries) =~= m.insert(pv, "arguments"@));
                    }
                },
            }
            k = k + 1;
        }
    }
}

/// The `.`-separated segments of a path.
pub fn split_segments(path: &str) -> (r: Vec<String>)
    ensures
        string_views(r@) == split(path@, '.'),
{
    let parts = split_chars(&chars_of(path), '.');
    let mut r: Vec<String> = Vec::new();
    let mut i: usize = 0;
    while i < parts.len()
        invariant
            i <= parts@.len(),
            parts@.len() == split(path@, '.').len(),
            forall|j: int| 0 <= j < parts@.len() ==> (#[trigger] parts@[j])@ == split(path@, '.')[j],
            string_views(r@) == split(path@, '.').take(i as int),
        decreases parts@.len() - i,
    {
        let ghost before = r@;
        r.push(string_of(&parts[i]));
        assert(string_views(r@) =~= string_views(before).push(parts@[i as int]@));
        assert(split(path@, '.').take(i + 1) =~= split(path@, '.').take(i as int).push(split(path@, '.')[i as int]));
        i = i + 1;
    }
    assert(split(path@, '.').take(parts@.len() as int) =~= split(path@, '.'));
    r
}

impl ArgsState {
    /// Applies one `path=value` override.
    fn apply_set(&mut self, sv: &str) -> (r: Result<(), ConfigError>)
        requires
            old(self).wf(),
            set_value_ready(sv@, json_table()),
        ensures
            final(self).wf(),
            match set_step(old(self)@, sv@, json_table()) {
                Ok(st) => r is Ok && final(self)@ == st,
                Err(f) => r matches Err(e) && arg_fault(e) == Some(f),
            },
    {
        let svc = chars_of(sv);
        let eq = match find_char(&svc, '=') {
            None => {
                return Err(ConfigError::InvalidArg { arg: sv.to_string(), message: "expected key=value".to_string() });
            },
            Some(i) => i,
        };
        let n = svc.len();
        assert(eq < n);
        let rp = string_of(&slice_chars(&svc, 0, eq));
        let rv = string_of(&slice_chars(&svc, eq + 1, n));
        assert(svc@.subrange(0, eq as int) =~= sv@.take(eq as int));
        assert(svc@.subrange(eq + 1, svc@.len() as int) =~= sv@.skip(eq + 1));
        let rp_rv = cat(&cat(rp.as_str(), "="), rv.as_str());
        assert(("--set "@ + rp_rv@) =~= ("--set "@ + rp@ + "="@ + rv@));
        let path = match try_normalize_external_path(rp.as_str()) {
            Err(m) => {
                return Err(ConfigError::InvalidArg { arg: cat("--set ", rp_rv.as_str()), message: m });
            },
            Ok(p) => p,
        };
        if path.as_str().is_empty() {
            return Err(ConfigError::InvalidArg { arg: sv.to_string(), message: "configuration path cannot be empty".to_string() });
        }
        let segments = split_segments(path.as_str());
        let parsed = match parse_override_value(rv.as_str()) {
            Err(m) => {
                return Err(ConfigError::InvalidArg { arg: cat(&cat(&cat("--set ", path.as_str()), "="), rv.as_str()), message: m });
            },
            Ok(p) => p,
        };
        let name = cat("--set ", rp_rv.as_str());
        let is_direct = match &parsed.value {
            JsonValue::Array(_) => true,
            _ => false,
        };
        let ghost v = parsed.value@;
        let ghost st0 = self@;
        match claim_arg_path(name.as_str(), path.as_str(), is_direct, &self.direct, &mut self.claimed) {
            Err(e) => {
                return Err(e);
            },
            Ok(()) => {},
        }
        record_indexed_array_state(&mut self.current, &mut self.base, path.as_str(), &segments);
        if is_direct {
            record_direct_array_state(&mut self.current, &mut self.base, path.as_str(), &parsed.value);
        }
        let ParsedOverride { value, string_coercion_suffixes } = parsed;
        match insert_path(&mut self.root, &segments, value) {
            Err(m) => {
                return Err(ConfigError::InvalidArg { arg: cat(&cat(&cat("--set ", path.as_str()), "="), rv.as_str()), message: m });
            },
            Ok(()) => {},
        }
        add_suffix_paths(&mut self.coercible, path.as_str(), &string_coercion_suffixes);
        let containers = indexed_array_container_paths(&segments);
        union_into(&mut self.indexed, &containers);
        if is_direct {
            let ghost d0 = set_view(self.direct);
            self.direct.insert(path.clone(), ());
            assert(set_view(self.direct) =~= d0.insert(path@));
        }
        self.record_entries(path.as_str(), &segments, name.as_str());
        Ok(())
    }
}

/// The state before any override is read.
pub open spec fn empty_args() -> ArgsView {
    ArgsView {
        files: Seq::empty(),
        profile: None,
        root: Json::Object(Seq::empty()),
        entries: Map::empty(),
        coercible: Set::empty(),
        indexed: Set::empty(),
        base: Map::empty(),
        current: Map::empty(),
        direct: Set::empty(),
        claimed: Map::empty(),
    }
}

/// A file source for one required path, as `--config` gives it.
pub open spec fn config_file(path: Seq<char>) -> FileSourceView {
    FileSourceView { candidates: seq![path], required: true, format: None }
}

/// Reading the arguments from position `i` on: `--config` adds a file,
/// `--profile` picks the profile, `--set` applies an override (each either
/// as `--flag=value` or followed by its value); other arguments are left to
/// the application.
pub open spec fn run_args(args: Seq<Seq<char>>, i: nat, st: ArgsView, table: Map<Seq<char>, Result<Json, Seq<char>>>) -> Result<ArgsView, ArgFault>
    decreases args.len() - i,
{
    if i >= args.len() {
        Ok(st)
    } else {
        let a = args[i as int];
        if starts_with(a, "--config="@) {
            run_args(args, i + 1, ArgsView { files: st.files.push(config_file(a.skip(9))), ..st }, table)
        } else if a == "--config"@ {
            if i + 1 < args.len() {
                run_args(args, i + 2, ArgsView { files: st.files.push(config_file(args[i + 1int])), ..st }, table)
            } else {
                Err(ArgFault::Missing("--config"@))
            }
        } else if starts_with(a, "--profile="@) {
            run_args(args, i + 1, ArgsView { profile: Some(a.skip(10)), ..st }, table)
        } else if a == "--profile"@ {
            if i + 1 < args.len() {
                run_args(args, i + 2, ArgsView { profile: Some(args[i + 1int]), ..st }, table)
            } else {
                Err(ArgFault::Missing("--profile"@))
            }
        } else if starts_with(a, "--set="@) {
            match set_step(st, a.skip(6), table) {
                Ok(next) => run_args(args, i + 1, next, table),
                Err(f) => Err(f),
            }
        } else if a == "--set"@ {
            if i + 1 < args.len() {
                match set_step(st, args[i + 1int], table) {
                    Ok(next) => run_args(args, i + 2, next, table),
                    Err(f) => Err(f),
                }
            } else {
                Err(ArgFault::Missing("--set"@))
            }
        } else {
            run_args(args, i + 1, st, table)
        }
    }
}

/// Every override text (what follows `--set=`, or the argument after
/// `--set`) is ready.
pub open spec fn args_ready(args: Seq<Seq<char>>, table: Map<Seq<char>, Result<Json, Seq<char>>>) -> bool {
    forall|i: int| 0 <= i < args.len() ==>
        (starts_with(#[trigger] args[i], "--set="@) ==> set_value_ready(args[i].skip(6), table))
        && (args[i] == "--set"@ && i + 1 < args.len() ==> set_value_ready(args[i + 1], table))
}

/// One layer of configuration data with its provenance.
pub struct Layer {
    pub trace: SourceTrace,
    pub value: JsonValue,
    pub entries: StrMap<SourceTrace>,
    pub coercible_string_paths: StrMap<()>,
    pub indexed_array_paths: StrMap<()>,
    pub indexed_array_base_lengths: StrMap<usize>,
    pub direct_array_paths: StrMap<()>,
}

/// What the command line asked for.
pub struct ParsedArgs {
    pub profile: Option<String>,
    pub files: Vec<FileSource>,
    pub layer: Option<Layer>,
}

/// The layer `parse_args` builds from the state `st`.
pub open spec fn args_layer_is(l: Layer, st: ArgsView) -> bool {
    &&& l.trace.kind == SourceKind::Arguments
    &&& l.trace.name@ == "arguments"@
    &&& l.trace.location is None
    &&& l.value@ == st.root
    &&& names_view(l.entries) == st.entries
    &&& argument_traces(l.entries)
    &&& set_view(l.coercible_string_paths) == st.coercible
    &&& set_view(l.indexed_array_paths) == st.indexed
    &&& lengths_view(l.indexed_array_base_lengths) == st.base
    &&& set_view(l.direct_array_paths) == st.direct
}

/// Reads `--config`, `--profile` and `--set` arguments; override text in
/// JSON syntax is read by the JSON parser.
pub fn parse_args(source: ArgsSource) -> (r: Result<ParsedArgs, ConfigError>)
    requires
        args_ready(source@, json_table()),
    ensures
        match run_args(source@, 0, empty_args(), json_table()) {
            Ok(st) => r matches Ok(p) && crate::sources::opt_view(p.profile) == st.profile
                && p.files@.map_values(|f: FileSource| f@) == st.files
                && (p.layer is None <==> st.entries == Map::<Seq<char>, Seq<char>>::empty())
                && (p.layer matches Some(l) ==> args_layer_is(l, st) && crate::sparse::layer_maps_wf(l)),
            Err(f) => r matches Err(e) && arg_fault(e) == Some(f),
        },
{
    let args = source.args();
    let ghost av = source@;
    let ghost tv = json_table();
    let mut st = ArgsState::new();
    let mut i: usize = 0;
    proof {
        reveal_strlit("--config=");
        reveal_strlit("--profile=");
        reveal_strlit("--set=");
    }
    let config_eq = chars_of("--config=");
    let profile_eq = chars_of("--profile=");
    let set_eq = chars_of("--set=");
    while i < args.len()
        invariant
            i <= av.len(),
            av == string_views(args@),
            av == source@,
            st.wf(),
            tv == json_table(),
            args_ready(av, tv),
            config_eq@ == "--config="@,
            profile_eq@ == "--profile="@,
            set_eq@ == "--set="@,
            config_eq@.len() == 9,
            profile_eq@.len() == 10,
            set_eq@.len() == 6,
            av.len() == args@.len(),
            run_args(av, i as nat, st@, tv) == run_args(av, 0, empty_args(), tv),
        decreases av.len() - i,
    {
        let a = &args[i];
        let ac = chars_of(a.as_str());
        assert(av[i as int] == a@);
        if starts_with_chars(&ac, &config_eq) {
            let rest = string_of(&slice_chars(&ac, 9, ac.len()));
            assert(ac@.subrange(9, ac@.len() as int) =~= a@.skip(9));
            st.add_file(rest.as_str());
            i = i + 1;
        } else if str_eq(a.as_str(), "--config") {
            if i + 1 < args.len() {
                assert(av[i + 1] == args@[i + 1]@);
                st.add_file(args[i + 1].as_str());
                i = i + 2;
            } else {
                return Err(ConfigError::MissingArgValue { flag: "--config".to_string() });
            }
        } else if starts_with_chars(&ac, &profile_eq) {
            let rest = string_of(&slice_chars(&ac, 10, ac.len()));
            assert(ac@.subrange(10, ac@.len() as int) =~= a@.skip(10));
            st.set_profile(rest.as_str());
            i = i + 1;
        } else if str_eq(a.as_str(), "--profile") {
            if i + 1 < args.len() {
                assert(av[i + 1] == args@[i + 1]@);
                st.set_profile(args[i + 1].as_str());
                i = i + 2;
            } else {
                return Err(ConfigError::MissingArgValue { flag: "--profile".to_string() });
            }
        } else if starts_with_chars(&ac, &set_eq) {
            let rest = string_of(&slice_chars(&ac, 6, ac.len()));
            assert(ac@.subrange(6, ac@.len() as int) =~= a@.skip(6));
            match st.apply_set(rest.as_str()) {
                Err(e) => {
                    return Err(e);
                },
                Ok(()) => {},
            }
            i = i + 1;
        } else if str_eq(a.as_str(), "--set") {
            if i + 1 < args.len() {
                assert(av[i + 1] == args@[i + 1]@);
                match st.apply_set(args[i + 1].as_str()) {
                    Err(e) => {
                        return Err(e);
                    },
                    Ok(()) => {},
                }
                i = i + 2;
            } else {
                return Err(ConfigError::MissingArgValue { flag: "--set".to_string() });
            }
        } else {
            i = i + 1;
        }
    }
    let ArgsState { files, profile, root, entries, coercible, indexed, base, current: _, direct, claimed: _ } = st;
    proof {
        StrMap::<SourceTrace>::lemma_keys_are_entries(entries);
    }
    let layer = if entries.len() == 0 {
        assert(names_view(entries) =~= Map::<Seq<char>, Seq<char>>::empty());
        None
    } else {
        let ghost k0 = entries.entries()[0].0@;
        assert(names_view(entries).contains_key(k0));
        proof {
            reveal_strlit("arguments");
        }
        Some(Layer {
            trace: SourceTrace::new(SourceKind::Arguments, "arguments"),
            value: root,
            entries,
            coercible_string_paths: coercible,
            indexed_array_paths: indexed,
            indexed_array_base_lengths: base,
            direct_array_paths: direct,
        })
    };
    Ok(ParsedArgs { profile, files, layer })
}

} // verus!
