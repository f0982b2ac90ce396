//! Building the environment layer: the routed variables of a source are
//! read in order, each written at its target path, with conflicting
//! targets refused and fallbacks used only where nothing was set.
use vstd::prelude::*;
use crate::json::{JsonValue, Json, insert_result, insert_path, value_at, get_value_at_path, runtime_path, canonicalize_runtime_path};
use crate::args::{Layer, ParsedOverride, bounded_path, suffix_paths, names_view, prefix_str, split_segments, union_into, add_suffix_paths};
use crate::arrays::{set_view, lengths_view, container_paths, grown_lengths, recorded_bases, lengths_into, cleared,
    indexed_array_container_paths, record_indexed_array_state, record_direct_array_state};
use crate::config::{ConfigMetadata, FieldMetadata, fields_readable};
use crate::field::field_for;
use crate::metadata::EnvDecoder;
use crate::overrides::{env_override_result, parse_env_override_value, ensure_path_safe_keys, first_bad_key, key_error_is,
    env_conflict, env_claim_message, claim_env_path};
use crate::sources::{EnvAssignment, assignment_view, SourceTrace, SourceKind, cat};
use crate::syntax::{external_path_result, index_overflows, try_normalize_external_path};
use crate::path::{normalized, normalize_path};
use crate::strmap::StrMap;
use crate::error::ConfigError;
use crate::text::{string_views, split, chars_of, string_of, str_eq, copy_string};
use crate::args::json_table;

verus! {

/// What building the environment layer has written so far.
pub struct EnvBuild {
    pub root: Json,
    pub entries: Map<Seq<char>, Seq<char>>,
    pub coercible: Set<Seq<char>>,
    pub indexed: Set<Seq<char>>,
    pub base: Map<Seq<char>, nat>,
    pub current: Map<Seq<char>, nat>,
    pub direct: Set<Seq<char>>,
    pub claimed: Map<Seq<char>, Seq<char>>,
}

pub open spec fn empty_build() -> EnvBuild {
    EnvBuild {
        root: Json::Object(Seq::empty()),
        entries: Map::empty(),
        coercible: Set::empty(),
        indexed: Set::empty(),
        base: Map::empty(),
        current: Map::empty(),
        direct: Set::empty(),
        claimed: Map::empty(),
    }
}

/// Why building the environment layer stopped: a variable's name, the
/// path and the message; or a target that this machine cannot address (an
/// array index at the limit of `usize`).
pub enum EnvFault {
    Env(Seq<char>, Seq<char>, Seq<char>),
    Stuck,
}

/// A path spelled as the values of the first `n` layers spell it, each in
/// turn, starting from its form without empty segments.
pub open spec fn across_layers(p: Seq<char>, ls: Seq<Layer>, n: int) -> Seq<char>
    decreases n,
{
    if n <= 0 {
        normalized(p)
    } else {
        runtime_path(ls[n - 1].value@, across_layers(p, ls, n - 1))
    }
}

/// Where a variable's value goes: its path read (refused when unreadable
/// or empty), spelled as the earlier layers spell it, then as the value
/// built so far spells it.
pub open spec fn env_target(name: Seq<char>, path: Seq<char>, ls: Seq<Layer>, root: Json) -> Result<Seq<char>, EnvFault> {
    match external_path_result(path) {
        Err(m) => Err(EnvFault::Env(name, path, m)),
        Ok(p) => if p.len() == 0 {
            Err(EnvFault::Env(name, path, "environment binding path cannot be empty"@))
        } else {
            Ok(runtime_path(root, across_layers(p, ls, ls.len() as int)))
        },
    }
}

/// The provenance entries after a variable `name` writes `path`: the path
/// itself, then each prefix, which becomes generic when another variable
/// wrote there first.
pub open spec fn env_entries(e: Map<Seq<char>, Seq<char>>, path: Seq<char>, segs: Seq<Seq<char>>, name: Seq<char>, n: nat) -> Map<Seq<char>, Seq<char>>
    decreases n,
{
    if n == 0 {
        e.insert(path, name)
    } else {
        let m = env_entries(e, path, segs, name, (n - 1) as nat);
        let p = prefix_str(segs, n);
        if !m.contains_key(p) {
            m.insert(p, name)
        } else if p != path && m[p] != name {
            m.insert(p, "environment"@)
        } else {
            m
        }
    }
}

/// The decoder for a variable: its binding's, else the one the field at the
/// path declares.
pub open spec fn env_decoder(bound: Option<EnvDecoder>, fs: Seq<FieldMetadata>, path: Seq<char>) -> Option<EnvDecoder> {
    if bound is Some {
        bound
    } else {
        match field_for(fs, path) {
            Some(j) => fs[j].env_decode,
            None => None,
        }
    }
}

/// One routed variable written into the layer: a fallback is skipped when
/// its target is already set; the target must not be claimed by another
/// variable; the value is read with the variable's decoder (or what a user
/// decoder gave for it, unless the binding names a decoder), must hold only
/// usable object keys, and is inserted, with the array, provenance and
/// string-coercion records kept up to date.
pub open spec fn env_apply(
    b: EnvBuild,
    a: (Seq<char>, Seq<char>, Seq<char>, Option<EnvDecoder>, bool),
    ls: Seq<Layer>,
    fs: Seq<FieldMetadata>,
    custom: Option<Result<Json, Seq<char>>>,
    pieces: Seq<Seq<char>>,
) -> Result<EnvBuild, EnvFault> {
    let name = a.0;
    match env_target(name, a.2, ls, b.root) {
        Err(f) => Err(f),
        Ok(path) => if path.len() == 0 || (a.4 && value_at(b.root, path) is Some) {
            Ok(b)
        } else if index_overflows(path) || !bounded_path(path) {
            Err(EnvFault::Stuck)
        } else {
            match env_conflict(b.claimed, name, path) {
                Some(k) => Err(EnvFault::Env(name, path, env_claim_message(k, b.claimed[k], name, path))),
                None => {
                    let cust = if a.3 is Some { None } else { custom };
                    match env_override_result(a.1, env_decoder(a.3, fs, path), cust, pieces, json_table()) {
                        Err(m) => Err(EnvFault::Env(name, path, m)),
                        Ok((v, suffixes)) => match first_bad_key(v, path) {
                            Some((p, k, m)) => Err(EnvFault::Env(name, p,
                                "decoded environment value contains unsupported object key `"@ + k + "`: "@ + m)),
                            None => {
                                let segs = split(path, '.');
                                let is_direct = v is Array;
                                let cur1 = grown_lengths(b.current, path, segs);
                                let base1 = recorded_bases(b.base, b.current, path, segs);
                                match insert_result(b.root, segs, v) {
                                    Err(m) => Err(EnvFault::Env(name, path, m)),
                                    Ok(root) => Ok(EnvBuild {
                                        root,
                                        entries: env_entries(b.entries, path, segs, name, segs.len()),
                                        coercible: b.coercible + suffix_paths(path, suffixes),
                                        indexed: b.indexed + container_paths(segs),
                                        base: if is_direct { cleared(base1, path) } else { base1 },
                                        current: if is_direct { lengths_into(v, path, cleared(cur1, path)) } else { cur1 },
                                        direct: if is_direct { b.direct.insert(path) } else { b.direct },
                                        claimed: b.claimed.insert(path, name),
                                    }),
                                }
                            },
                        },
                    }
                },
            }
        },
    }
}

/// The first `n` routed variables written in order, or the first fault.
pub open spec fn env_fold(
    plan: Seq<(Seq<char>, Seq<char>, Seq<char>, Option<EnvDecoder>, bool)>,
    n: int,
    ls: Seq<Layer>,
    fs: Seq<FieldMetadata>,
    customs: Seq<Option<Result<Json, Seq<char>>>>,
    pieces: Seq<Seq<Seq<char>>>,
) -> Result<EnvBuild, EnvFault>
    decreases n,
{
    if n <= 0 {
        Ok(empty_build())
    } else {
        match env_fold(plan, n - 1, ls, fs, customs, pieces) {
            Err(f) => Err(f),
            Ok(b) => env_apply(b, plan[n - 1], ls, fs, customs[n - 1], pieces[n - 1]),
        }
    }
}

pub open spec fn custom_view(c: Option<Result<JsonValue, String>>) -> Option<Result<Json, Seq<char>>> {
    match c {
        Some(Ok(v)) => Some(Ok(v@)),
        Some(Err(e)) => Some(Err(e@)),
        None => None,
    }
}

/// Every trace is an environment trace without a location.
pub open spec fn env_traces(m: StrMap<SourceTrace>) -> bool {
    forall|k: Seq<char>| #[trigger] m.get_spec(k) matches Some(t) ==> t.kind == SourceKind::Environment && t.location is None
}

/// The layer holds what was built.
pub open spec fn env_layer_is(l: Layer, b: EnvBuild) -> bool {
    &&& l.trace.kind == SourceKind::Environment
    &&& l.trace.name@ == "environment"@
    &&& l.trace.location is None
    &&& l.value@ == b.root
    &&& names_view(l.entries) == b.entries
    &&& env_traces(l.entries)
    &&& set_view(l.coercible_string_paths) == b.coercible
    &&& set_view(l.indexed_array_paths) == b.indexed
    &&& lengths_view(l.indexed_array_base_lengths) == b.base
    &&& set_view(l.direct_array_paths) == b.direct
}

/// A fallback variable yields: when its target is already set in the layer
/// being built, it changes nothing.
pub proof fn law_fallback_yields(
    b: EnvBuild,
    a: (Seq<char>, Seq<char>, Seq<char>, Option<EnvDecoder>, bool),
    ls: Seq<Layer>,
    fs: Seq<FieldMetadata>,
    custom: Option<Result<Json, Seq<char>>>,
    pieces: Seq<Seq<char>>,
)
    requires
        a.4,
        env_target(a.0, a.2, ls, b.root) matches Ok(p) && value_at(b.root, p) is Some,
    ensures
        env_apply(b, a, ls, fs, custom, pieces) == Ok::<EnvBuild, EnvFault>(b),
{
}

/// Within one source, a variable whose target is the same as, or lies above
/// or below, a path another variable already set is refused, with both
/// variables and paths named.
pub proof fn law_claimed_paths_conflict(
    b: EnvBuild,
    a: (Seq<char>, Seq<char>, Seq<char>, Option<EnvDecoder>, bool),
    ls: Seq<Layer>,
    fs: Seq<FieldMetadata>,
    custom: Option<Result<Json, Seq<char>>>,
    pieces: Seq<Seq<char>>,
)
    requires
        env_target(a.0, a.2, ls, b.root) matches Ok(p)
            && p.len() > 0
            && !(a.4 && value_at(b.root, p) is Some)
            && !index_overflows(p) && bounded_path(p)
            && env_conflict(b.claimed, a.0, p) is Some,
    ensures
        env_apply(b, a, ls, fs, custom, pieces) matches Err(EnvFault::Env(n, q, m))
            && n == a.0 && q == env_target(a.0, a.2, ls, b.root)->Ok_0
            && m == env_claim_message(env_conflict(b.claimed, a.0, q)->Some_0,
                b.claimed[env_conflict(b.claimed, a.0, q)->Some_0], a.0, q),
{
}

proof fn lemma_fold_err_stays(
    plan: Seq<(Seq<char>, Seq<char>, Seq<char>, Option<EnvDecoder>, bool)>,
    k: int, m: int,
    ls: Seq<Layer>, fs: Seq<FieldMetadata>,
    customs: Seq<Option<Result<Json, Seq<char>>>>, pieces: Seq<Seq<Seq<char>>>,
)
    requires
        0 <= k <= m,
        env_fold(plan, k, ls, fs, customs, pieces) is Err,
    ensures
        env_fold(plan, m, ls, fs, customs, pieces) == env_fold(plan, k, ls, fs, customs, pieces),
    decreases m - k,
{
    if m > k {
        lemma_fold_err_stays(plan, k, m - 1, ls, fs, customs, pieces);
    }
}

/// The layer being built.
struct EnvBuilder {
    root: JsonValue,
    entries: StrMap<SourceTrace>,
    coercible: StrMap<()>,
    indexed: StrMap<()>,
    base: StrMap<usize>,
    current: StrMap<usize>,
    direct: StrMap<()>,
    claimed: StrMap<String>,
}

impl View for EnvBuilder {
    type V = EnvBuild;

    closed spec fn view(&self) -> EnvBuild {
        EnvBuild {
            root: self.root@,
            entries: names_view(self.entries),
            coercible: set_view(self.coercible),
            indexed: set_view(self.indexed),
            base: lengths_view(self.base),
            current: lengths_view(self.current),
            direct: set_view(self.direct),
            claimed: crate::sources::strmap_view(self.claimed),
        }
    }
}

impl EnvBuilder {
    closed spec fn wf(&self) -> bool {
        &&& self.entries.wf()
        &&& self.coercible.wf()
        &&& self.indexed.wf()
        &&& self.base.wf()
        &&& self.current.wf()
        &&& self.direct.wf()
        &&& self.claimed.wf()
        &&& env_traces(self.entries)
    }

    fn new() -> (r: Self)
        ensures
            r.wf(),
            r@ == empty_build(),
    {
        let r = EnvBuilder {
            root: JsonValue::Object(Vec::new()),
            entries: StrMap::new(),
            coercible: StrMap::new(),
            indexed: StrMap::new(),
            base: StrMap::new(),
            current: StrMap::new(),
            direct: StrMap::new(),
            claimed: StrMap::new(),
        };
        assert(r@.root->Object_0 =~= Seq::<(Seq<char>, Json)>::empty());
        assert(r@.entries =~= Map::<Seq<char>, Seq<char>>::empty());
        assert(r@.coercible =~= Set::<Seq<char>>::empty());
        assert(r@.indexed =~= Set::<Seq<char>>::empty());
        assert(r@.base =~= Map::<Seq<char>, nat>::empty());
        assert(r@.current =~= Map::<Seq<char>, nat>::empty());
        assert(r@.direct =~= Set::<Seq<char>>::empty());
        assert(r@.claimed =~= Map::<Seq<char>, Seq<char>>::empty());
        r
    }

    fn record_entries(&mut self, path: &str, segments: &Vec<String>, name: &str)
        requires
            old(self).wf(),
        ensures
            final(self).wf(),
            final(self)@ == (EnvBuild { entries: env_entries(old(self)@.entries, path@, string_views(segments@), name@, segments@.len()), ..old(self)@ }),
    {
        let ghost e0 = names_view(self.entries);
        let ghost sv = string_views(segments@);
        self.entries.insert(path.to_string(), SourceTrace::new(SourceKind::Environment, name));
        assert(names_view(self.entries) =~= e0.insert(path@, name@));
        let mut prefix: Vec<char> = Vec::new();
        let mut k: usize = 0;
        while k < segments.len()
            invariant
                k <= segments@.len(),
                sv == string_views(segments@),
                self.root == old(self).root,
                self.coercible == old(self).coercible,
                self.indexed == old(self).indexed,
                self.base == old(self).base,
                self.current == old(self).current,
                self.direct == old(self).direct,
                self.claimed == old(self).claimed,
                old(self).wf(),
                self.entries.wf(),
                env_traces(self.entries),
                prefix@ == prefix_str(sv, k as nat),
                names_view(self.entries) == env_entries(e0, path@, sv, name@, k as nat),
            decreases segments@.len() - k,
        {
            let ghost pre = prefix@;
            if prefix.len() > 0 {
                prefix.push('.');
            }
            let seg = chars_of(segments[k].as_str());
            crate::text::append_chars(&mut prefix, &seg);
            assert(sv[k as int] == segments@[k as int]@);
            assert(prefix@ == (if pre.len() == 0 { pre } else { pre.push('.') }) + sv[k as int]);
            assert(prefix@ == prefix_str(sv, (k + 1) as nat));
            let pstr = string_of(&prefix);
            let ghost m = names_view(self.entries);
            let existing = match self.entries.get(pstr.as_str()) {
                None => None,
                Some(t) => Some(copy_string(&t.name)),
            };
            match existing {
                None => {
                    let ghost pv = pstr@;
                    self.entries.insert(pstr, SourceTrace::new(SourceKind::Environment, name));
                    assert(names_view(self.entries) =~= m.insert(pv, name@));
                },
                Some(ename) => {
                    if !str_eq(pstr.as_str(), path) && !str_eq(ename.as_str(), name) {
                        let ghost pv = pstr@;
                        self.entries.insert(pstr, SourceTrace::new(SourceKind::Environment, "environment"));
                        proof {
                            reveal_strlit("environment");
                        }
                        assert(names_view(self.entries) =~= m.insert(pv, "environment"@));
                    }
                },
            }
            k = k + 1;
        }
    }
}

/// Where a variable's value goes (see `env_target`).
fn target_path(name: &str, path: &str, layers: &Vec<Layer>, root: &JsonValue) -> (r: Result<String, ConfigError>)
    ensures
        match env_target(name@, path@, layers@, root@) {
            Ok(p) => r matches Ok(s) && s@ == p,
            Err(EnvFault::Env(n, p, m)) => r matches Err(ConfigError::InvalidEnv { name: a, path: b, message: c })
                && a@ == n && b@ == p && c@ == m,
            Err(EnvFault::Stuck) => false,
        },
{
    let p = match try_normalize_external_path(path) {
        Err(m) => {
            return Err(ConfigError::InvalidEnv { name: name.to_string(), path: path.to_string(), message: m });
        },
        Ok(p) => p,
    };
    if p.as_str().is_empty() {
        return Err(ConfigError::InvalidEnv {
            name: name.to_string(),
            path: path.to_string(),
            message: "environment binding path cannot be empty".to_string(),
        });
    }
    let mut cur = normalize_path(p.as_str());
    let mut i: usize = 0;
    while i < layers.len()
        invariant
            i <= layers@.len(),
            cur@ == across_layers(p@, layers@, i as int),
        decreases layers@.len() - i,
    {
        cur = canonicalize_runtime_path(&layers[i].value, cur.as_str());
        i = i + 1;
    }
    Ok(canonicalize_runtime_path(root, cur.as_str()))
}

fn copy_custom(c: &Option<Result<JsonValue, String>>) -> (r: Option<Result<JsonValue, String>>)
    ensures
        custom_view(r) == custom_view(*c),
{
    match c {
        None => None,
        Some(Ok(v)) => Some(Ok(crate::json::clone_value(v))),
        Some(Err(e)) => Some(Err(copy_string(e))),
    }
}

fn copy_pieces(v: &Vec<String>) -> (r: Vec<String>)
    ensures
        string_views(r@) == string_views(v@),
{
    let mut out: Vec<String> = Vec::new();
    let mut i: usize = 0;
    while i < v.len()
        invariant
            i <= v@.len(),
            string_views(out@) == string_views(v@).take(i as int),
        decreases v@.len() - i,
    {
        let ghost before = string_views(out@);
        out.push(copy_string(&v[i]));
        assert(string_views(out@) =~= before.push(v@[i as int]@));
        assert(string_views(v@).take(i + 1) =~= string_views(v@).take(i as int).push(v@[i as int]@));
        i = i + 1;
    }
    assert(string_views(v@).take(v@.len() as int) =~= string_views(v@));
    out
}

impl EnvBuilder {
    #[verifier::rlimit(60)]
    fn apply(
        &mut self,
        a: &EnvAssignment,
        layers: &Vec<Layer>,
        metadata: &ConfigMetadata,
        custom: &Option<Result<JsonValue, String>>,
        pieces: &Vec<String>,
    ) -> (r: Result<(), ConfigError>)
        requires
            old(self).wf(),
            env_apply(old(self)@, assignment_view(*a), layers@, metadata.fields_spec(), custom_view(*custom), string_views(pieces@))
                != Err::<EnvBuild, EnvFault>(EnvFault::Stuck),
        ensures
            final(self).wf(),
            match env_apply(old(self)@, assignment_view(*a), layers@, metadata.fields_spec(), custom_view(*custom), string_views(pieces@)) {
                Ok(b) => r is Ok && final(self)@ == b,
                Err(EnvFault::Env(n, p, m)) => r matches Err(ConfigError::InvalidEnv { name, path, message })
                    && name@ == n && path@ == p && message@ == m,
                Err(EnvFault::Stuck) => false,
            },
    {
        let name = a.name.as_str();
        let path = target_path(name, a.path.as_str(), layers, &self.root)?;
        if path.as_str().is_empty() {
            return Ok(());
        }
        if a.fallback {
            match get_value_at_path(&self.root, path.as_str()) {
                Some(_) => {
                    return Ok(());
                },
                None => {},
            }
        }
        claim_env_path(name, path.as_str(), &mut self.claimed)?;
        let decoder: Option<EnvDecoder> = match a.decoder {
            Some(d) => Some(d),
            None => match metadata.field(path.as_str()) {
                Some(f) => match f.env_decode {
                    Some(d) => Some(d),
                    None => None,
                },
                None => None,
            },
        };
        let cust = match a.decoder {
            Some(_) => None,
            None => copy_custom(custom),
        };
        let parsed = match parse_env_override_value(a.value.as_str(), decoder, cust, &copy_pieces(pieces)) {
            Err(m) => {
                return Err(ConfigError::InvalidEnv { name: name.to_string(), path: copy_string(&path), message: m });
            },
            Ok(p) => p,
        };
        match ensure_path_safe_keys(&parsed.value, path.as_str()) {
            Err(ConfigError::InvalidPathKey { path: p, key, message }) => {
                let m1 = cat("decoded environment value contains unsupported object key `", key.as_str());
                let m2 = cat(m1.as_str(), "`: ");
                let m3 = cat(m2.as_str(), message.as_str());
                return Err(ConfigError::InvalidEnv { name: name.to_string(), path: p, message: m3 });
            },
            Err(e) => {
                return Err(e);
            },
            Ok(()) => {},
        }
        let segments = split_segments(path.as_str());
        let is_direct = match &parsed.value {
            JsonValue::Array(_) => true,
            _ => false,
        };
        record_indexed_array_state(&mut self.current, &mut self.base, path.as_str(), &segments);
        if is_direct {
            record_direct_array_state(&mut self.current, &mut self.base, path.as_str(), &parsed.value);
        }
        let ParsedOverride { value, string_coercion_suffixes } = parsed;
        match insert_path(&mut self.root, &segments, value) {
            Err(m) => {
                return Err(ConfigError::InvalidEnv { name: name.to_string(), path: copy_string(&path), message: m });
            },
            Ok(()) => {},
        }
        add_suffix_paths(&mut self.coercible, path.as_str(), &string_coercion_suffixes);
        let containers = indexed_array_container_paths(&segments);
        union_into(&mut self.indexed, &containers);
        if is_direct {
            let ghost d0 = set_view(self.direct);
            self.direct.insert(copy_string(&path), ());
            assert(set_view(self.direct) =~= d0.insert(path@));
        }
        self.record_entries(path.as_str(), &segments, name);
        Ok(())
    }
}

/// Builds the environment layer from the variables of a source, routed in
/// the order `EnvSource::env_assignments` gives (`plan`), over the layers
/// already read (`layers`). `customs[i]` is what a user decoder gave for the
/// `i`-th variable, if one is registered; `pieces[i]` is its value split as
/// a platform path list. `None` when nothing was written.
pub fn env_layer(
    plan: &Vec<EnvAssignment>,
    layers: &Vec<Layer>,
    metadata: &ConfigMetadata,
    customs: &Vec<Option<Result<JsonValue, String>>>,
    pieces: &Vec<Vec<String>>,
) -> (r: Result<Option<Layer>, ConfigError>)
    requires
        customs@.len() == plan@.len(),
        pieces@.len() == plan@.len(),
        env_fold(plan@.map_values(|a: EnvAssignment| assignment_view(a)), plan@.len() as int, layers@, metadata.fields_spec(),
            customs@.map_values(|c: Option<Result<JsonValue, String>>| custom_view(c)),
            pieces@.map_values(|v: Vec<String>| string_views(v@))) != Err::<EnvBuild, EnvFault>(EnvFault::Stuck),
    ensures
        match env_fold(plan@.map_values(|a: EnvAssignment| assignment_view(a)), plan@.len() as int, layers@, metadata.fields_spec(),
            customs@.map_values(|c: Option<Result<JsonValue, String>>| custom_view(c)),
            pieces@.map_values(|v: Vec<String>| string_views(v@))) {
            Ok(b) => if b.entries == Map::<Seq<char>, Seq<char>>::empty() {
                r matches Ok(None)
            } else {
                r matches Ok(Some(l)) && env_layer_is(l, b) && crate::sparse::layer_maps_wf(l)
            },
            Err(EnvFault::Env(n, p, m)) => r matches Err(ConfigError::InvalidEnv { name, path, message })
                && name@ == n && path@ == p && message@ == m,
            Err(EnvFault::Stuck) => false,
        },
{
    let ghost pv = plan@.map_values(|a: EnvAssignment| assignment_view(a));
    let ghost cv = customs@.map_values(|c: Option<Result<JsonValue, String>>| custom_view(c));
    let ghost qv = pieces@.map_values(|v: Vec<String>| string_views(v@));
    let ghost fs = metadata.fields_spec();
    let mut b = EnvBuilder::new();
    let mut i: usize = 0;
    while i < plan.len()
        invariant
            i <= plan@.len(),
            customs@.len() == plan@.len(),
            pieces@.len() == plan@.len(),
            pv == plan@.map_values(|a: EnvAssignment| assignment_view(a)),
            cv == customs@.map_values(|c: Option<Result<JsonValue, String>>| custom_view(c)),
            qv == pieces@.map_values(|v: Vec<String>| string_views(v@)),
            fs == metadata.fields_spec(),
            env_fold(pv, plan@.len() as int, layers@, fs, cv, qv) != Err::<EnvBuild, EnvFault>(EnvFault::Stuck),
            b.wf(),
            env_fold(pv, i as int, layers@, fs, cv, qv) == Ok::<EnvBuild, EnvFault>(b@),
        decreases plan@.len() - i,
    {
        assert(pv[i as int] == assignment_view(plan@[i as int]));
        assert(cv[i as int] == custom_view(customs@[i as int]));
        assert(qv[i as int] == string_views(pieces@[i as int]@));
        proof {
            if env_fold(pv, i + 1, layers@, fs, cv, qv) is Err {
                lemma_fold_err_stays(pv, i + 1, plan@.len() as int, layers@, fs, cv, qv);
            }
        }
        match b.apply(&plan[i], layers, metadata, &customs[i], &pieces[i]) {
            Err(e) => {
                proof {
                    lemma_fold_err_stays(pv, i + 1, plan@.len() as int, layers@, fs, cv, qv);
                }
                return Err(e);
            },
            Ok(()) => {},
        }
        i = i + 1;
    }
    let EnvBuilder { root, entries, coercible, indexed, base, current: _, direct, claimed: _ } = b;
    proof {
        StrMap::<SourceTrace>::lemma_keys_are_entries(entries);
    }
    if entries.len() == 0 {
        assert(names_view(entries) =~= Map::<Seq<char>, Seq<char>>::empty());
        Ok(None)
    } else {
        let ghost k0 = entries.entries()[0].0@;
        assert(names_view(entries).contains_key(k0));
        proof {
            reveal_strlit("environment");
        }
        Ok(Some(Layer {
            trace: SourceTrace::new(SourceKind::Environment, "environment"),
            value: root,
            entries,
            coercible_string_paths: coercible,
            indexed_array_paths: indexed,
            indexed_array_base_lengths: base,
            direct_array_paths: direct,
        }))
    }
}

} // verus!
