//! Where configuration values come from: source kinds, traces and the
//! file, environment and argument source definitions.
use vstd::prelude::*;
use crate::text::{
    join, views, string_views, chars_of, string_of, join_chars, concat_chars, lower_all,
    lower_chars, chars_eq,
};
use crate::env::{split_at_sep, split_at_sep_exec};
use crate::strmap::{StrMap, seq_lt};
use crate::env::{env_var_path, path_for_env_var};
use crate::error::ConfigError;
use crate::text::copy_string;
use crate::metadata::EnvDecoder;

verus! {

/// Kind of source that contributed configuration values.
#[derive(Clone, Copy, PartialEq, Eq, Structural, Debug, Hash)]
pub enum SourceKind {
    /// Values originating from in-code defaults.
    Default,
    /// Values originating from configuration files.
    File,
    /// Values originating from environment variables.
    Environment,
    /// Values originating from CLI overrides.
    Arguments,
    /// Values originating from normalization hooks.
    Normalization,
    /// Values originating from a custom layer.
    Custom,
}

/// The short name of a source kind.
pub open spec fn kind_label(k: SourceKind) -> Seq<char> {
    match k {
        SourceKind::Default => "default"@,
        SourceKind::File => "file"@,
        SourceKind::Environment => "env"@,
        SourceKind::Arguments => "cli"@,
        SourceKind::Normalization => "normalize"@,
        SourceKind::Custom => "custom"@,
    }
}

impl SourceKind {
    /// The short name shown in diagnostics.
    pub fn label(&self) -> (r: String)
        ensures
            r@ == kind_label(*self),
    {
        match self {
            SourceKind::Default => "default".to_string(),
            SourceKind::File => "file".to_string(),
            SourceKind::Environment => "env".to_string(),
            SourceKind::Arguments => "cli".to_string(),
            SourceKind::Normalization => "normalize".to_string(),
            SourceKind::Custom => "custom".to_string(),
        }
    }
}

/// Human-readable description of where a configuration value came from.
#[derive(Debug)]
pub struct SourceTrace {
    /// High-level source category.
    pub kind: SourceKind,
    /// Source name, such as a file path or environment variable name.
    pub name: String,
    /// Optional location inside the source, when available.
    pub location: Option<String>,
}

/// How a trace is shown: `kind`, `kind(name)`, `kind(location)` or `kind(name:location)`.
pub open spec fn trace_text(kind: SourceKind, name: Seq<char>, location: Option<Seq<char>>) -> Seq<char> {
    match location {
        Some(l) => if name.len() == 0 {
            kind_label(kind) + "("@ + l + ")"@
        } else {
            kind_label(kind) + "("@ + name + ":"@ + l + ")"@
        },
        None => if name.len() == 0 {
            kind_label(kind)
        } else {
            kind_label(kind) + "("@ + name + ")"@
        },
    }
}

pub open spec fn opt_view(o: Option<String>) -> Option<Seq<char>> {
    match o {
        Some(s) => Some(s@),
        None => None,
    }
}

pub fn cat(a: &str, b: &str) -> (r: String)
    ensures
        r@ == a@ + b@,
{
    string_of(&concat_chars(&chars_of(a), &chars_of(b)))
}

impl SourceTrace {
    /// A trace with no location.
    pub fn new(kind: SourceKind, name: &str) -> (r: Self)
        ensures
            r.kind == kind,
            r.name@ == name@,
            r.location is None,
    {
        SourceTrace { kind, name: name.to_string(), location: None }
    }

    /// A copy of this trace.
    pub fn duplicate(&self) -> (r: Self)
        ensures
            r.kind == self.kind,
            r.name@ == self.name@,
            opt_view(r.location) == opt_view(self.location),
    {
        SourceTrace {
            kind: self.kind,
            name: self.name.clone(),
            location: match &self.location {
                Some(l) => Some(l.clone()),
                None => None,
            },
        }
    }

    /// How this trace is shown in diagnostics.
    pub fn render(&self) -> (r: String)
        ensures
            r@ == trace_text(self.kind, self.name@, opt_view(self.location)),
    {
        let k = self.kind.label();
        match &self.location {
            Some(l) => {
                if self.name.as_str().is_empty() {
                    cat(&cat(&cat(k.as_str(), "("), l.as_str()), ")")
                } else {
                    cat(&cat(&cat(&cat(&cat(k.as_str(), "("), self.name.as_str()), ":"), l.as_str()), ")")
                }
            },
            None => {
                if self.name.as_str().is_empty() {
                    k
                } else {
                    cat(&cat(&cat(k.as_str(), "("), self.name.as_str()), ")")
                }
            },
        }
    }
}

/// Policy applied when unknown configuration paths are discovered.
#[derive(Clone, Copy, PartialEq, Eq, Structural, Debug)]
pub enum UnknownFieldPolicy {
    /// Accept unknown fields silently.
    Allow,
    /// Accept unknown fields but emit warnings.
    Warn,
    /// Reject unknown fields with an error.
    Deny,
}

impl Default for UnknownFieldPolicy {
    fn default() -> (r: Self)
        ensures
            r == UnknownFieldPolicy::Deny,
    {
        UnknownFieldPolicy::Deny
    }
}

impl UnknownFieldPolicy {
    /// The policy's name.
    pub fn label(&self) -> (r: String)
        ensures
            r@ == match *self {
                UnknownFieldPolicy::Allow => "allow"@,
                UnknownFieldPolicy::Warn => "warn"@,
                UnknownFieldPolicy::Deny => "deny"@,
            },
    {
        match self {
            UnknownFieldPolicy::Allow => "allow".to_string(),
            UnknownFieldPolicy::Warn => "warn".to_string(),
            UnknownFieldPolicy::Deny => "deny".to_string(),
        }
    }
}

/// Supported on-disk configuration file formats.
#[derive(Clone, Copy, PartialEq, Eq, Structural, Debug)]
pub enum FileFormat {
    /// JSON source file.
    Json,
    /// TOML source file.
    Toml,
    /// YAML source file.
    Yaml,
}

impl FileFormat {
    /// The format's name.
    pub fn label(&self) -> (r: String)
        ensures
            r@ == match *self {
                FileFormat::Json => "json"@,
                FileFormat::Toml => "toml"@,
                FileFormat::Yaml => "yaml"@,
            },
    {
        match self {
            FileFormat::Json => "json".to_string(),
            FileFormat::Toml => "toml".to_string(),
            FileFormat::Yaml => "yaml".to_string(),
        }
    }
}

/// File-backed configuration source definition: candidate paths searched
/// in order, whether one must exist, and an optional explicit format.
pub struct FileSource {
    candidates: Vec<String>,
    required: bool,
    format: Option<FileFormat>,
}

/// What a `FileSource` holds.
pub struct FileSourceView {
    pub candidates: Seq<Seq<char>>,
    pub required: bool,
    pub format: Option<FileFormat>,
}

impl View for FileSource {
    type V = FileSourceView;

    closed spec fn view(&self) -> FileSourceView {
        FileSourceView { candidates: string_views(self.candidates@), required: self.required, format: self.format }
    }
}

impl FileSource {
    /// Creates a required file source for a single path.
    pub fn new(path: &str) -> (r: Self)
        ensures
            r@ == (FileSourceView { candidates: seq![path@], required: true, format: None }),
    {
        let mut c: Vec<String> = Vec::new();
        c.push(path.to_string());
        let r = FileSource { candidates: c, required: true, format: None };
        assert(string_views(r.candidates@) =~= seq![path@]);
        r
    }

    /// Creates an optional file source for a single path.
    pub fn optional(path: &str) -> (r: Self)
        ensures
            r@ == (FileSourceView { candidates: seq![path@], required: false, format: None }),
    {
        let mut c: Vec<String> = Vec::new();
        c.push(path.to_string());
        let r = FileSource { candidates: c, required: false, format: None };
        assert(string_views(r.candidates@) =~= seq![path@]);
        r
    }

    /// Creates a required file source that searches candidate paths in order.
    pub fn search(paths: Vec<String>) -> (r: Self)
        ensures
            r@ == (FileSourceView { candidates: string_views(paths@), required: true, format: None }),
    {
        FileSource { candidates: paths, required: true, format: None }
    }

    /// Creates an optional file source that searches candidate paths in order.
    pub fn optional_search(paths: Vec<String>) -> (r: Self)
        ensures
            r@ == (FileSourceView { candidates: string_views(paths@), required: false, format: None }),
    {
        FileSource { candidates: paths, required: false, format: None }
    }

    /// Returns configured candidate paths in priority order.
    pub fn candidates(&self) -> (r: &Vec<String>)
        ensures
            string_views(r@) == self@.candidates,
    {
        &self.candidates
    }

    /// Whether one of the candidates must exist.
    pub fn is_required(&self) -> (r: bool)
        ensures
            r == self@.required,
    {
        self.required
    }

    /// The explicit format, if one was set.
    pub fn explicit_format(&self) -> (r: Option<FileFormat>)
        ensures
            r == self@.format,
    {
        self.format
    }

    /// Overrides format inference with an explicit file format.
    pub fn format(self, format: FileFormat) -> (r: Self)
        ensures
            r@ == (FileSourceView { format: Some(format), ..self@ }),
    {
        FileSource { candidates: self.candidates, required: self.required, format: Some(format) }
    }
}

/// CLI override source definition: the raw argument vector.
pub struct ArgsSource {
    args: Vec<String>,
}

impl View for ArgsSource {
    type V = Seq<Seq<char>>;

    closed spec fn view(&self) -> Seq<Seq<char>> {
        string_views(self.args@)
    }
}

impl ArgsSource {
    /// Creates an argument source from explicit argv values.
    pub fn from_args(args: Vec<String>) -> (r: Self)
        ensures
            r@ == string_views(args@),
    {
        ArgsSource { args }
    }

    /// The argument vector.
    pub fn args(&self) -> (r: &Vec<String>)
        ensures
            string_views(r@) == self@,
    {
        &self.args
    }
}

/// Migration action applied when upgrading older configuration payloads.
pub enum ConfigMigrationKind {
    /// Renames one configuration path to another.
    Rename {
        /// Path used by older configs.
        from: String,
        /// Replacement path used by newer configs.
        to: String,
    },
    /// Removes a configuration path that is no longer supported.
    Remove {
        /// Path removed from newer configs.
        path: String,
    },
}

/// Declarative migration rule applied to loaded configuration values.
pub struct ConfigMigration {
    /// Version introduced by this migration rule.
    pub since_version: u32,
    /// Concrete migration action.
    pub kind: ConfigMigrationKind,
    /// Optional operator-facing migration note.
    pub note: Option<String>,
}

impl ConfigMigration {
    /// Creates a rename migration from `from` to `to`.
    pub fn rename(from: &str, to: &str, since_version: u32) -> (r: Self)
        ensures
            r.since_version == since_version,
            r.kind matches ConfigMigrationKind::Rename { from: f, to: t } && f@ == from@ && t@ == to@,
            r.note is None,
    {
        ConfigMigration {
            since_version,
            kind: ConfigMigrationKind::Rename { from: from.to_string(), to: to.to_string() },
            note: None,
        }
    }

    /// Creates a removal migration for `path`.
    pub fn remove(path: &str, since_version: u32) -> (r: Self)
        ensures
            r.since_version == since_version,
            r.kind matches ConfigMigrationKind::Remove { path: p } && p@ == path@,
            r.note is None,
    {
        ConfigMigration { since_version, kind: ConfigMigrationKind::Remove { path: path.to_string() }, note: None }
    }

    /// Attaches an operator-facing migration note.
    pub fn with_note(self, note: &str) -> (r: Self)
        ensures
            r.since_version == self.since_version,
            r.kind == self.kind,
            r.note matches Some(n) && n@ == note@,
    {
        ConfigMigration { since_version: self.since_version, kind: self.kind, note: Some(note.to_string()) }
    }
}

/// Loaded configuration plus its diagnostic report.
pub struct LoadedConfig<T, R> {
    config: T,
    report: R,
}

impl<T, R> LoadedConfig<T, R> {
    /// Pairs a loaded configuration with its report.
    pub fn new(config: T, report: R) -> (r: Self)
        ensures
            r.config_spec() == config,
            r.report_spec() == report,
    {
        LoadedConfig { config, report }
    }

    pub closed spec fn config_spec(&self) -> T {
        self.config
    }

    pub closed spec fn report_spec(&self) -> R {
        self.report
    }

    /// Returns the loaded configuration value.
    pub fn config(&self) -> (r: &T)
        ensures
            *r == self.config_spec(),
    {
        &self.config
    }

    /// Returns the diagnostic report associated with the load.
    pub fn report(&self) -> (r: &R)
        ensures
            *r == self.report_spec(),
    {
        &self.report
    }

    /// Splits the loaded configuration into its value and report.
    pub fn into_parts(self) -> (r: (T, R))
        ensures
            r.0 == self.config_spec(),
            r.1 == self.report_spec(),
    {
        (self.config, self.report)
    }

    /// Returns the loaded configuration value, discarding the report.
    pub fn into_inner(self) -> (r: T)
        ensures
            r == self.config_spec(),
    {
        self.config
    }
}

/// An explicit environment variable binding.
pub struct EnvBinding {
    pub path: String,
    pub decoder: Option<EnvDecoder>,
    pub fallback: bool,
}

pub open spec fn binding_view(b: EnvBinding) -> (Seq<char>, Option<EnvDecoder>, bool) {
    (b.path@, b.decoder, b.fallback)
}

/// A variable name bound twice to different targets.
pub struct EnvBindingConflict {
    pub name: String,
    pub first: EnvBinding,
    pub second: EnvBinding,
}

/// Environment variable source definition.
pub struct EnvSource {
    vars: StrMap<String>,
    prefix: Option<String>,
    separator: String,
    lowercase_segments: bool,
    bindings: StrMap<EnvBinding>,
    binding_conflicts: Vec<EnvBindingConflict>,
}

/// What an `EnvSource` holds: variables by name, the naming convention, the
/// explicit bindings by name, and the conflicting re-bindings in order.
pub struct EnvSourceView {
    pub vars: Map<Seq<char>, Seq<char>>,
    pub prefix: Option<Seq<char>>,
    pub separator: Seq<char>,
    pub lowercase_segments: bool,
    pub bindings: Map<Seq<char>, (Seq<char>, Option<EnvDecoder>, bool)>,
    /// The variables as (name, value) pairs in ascending name order.
    pub var_list: Seq<(Seq<char>, Seq<char>)>,
    pub conflicts: Seq<(Seq<char>, (Seq<char>, Option<EnvDecoder>, bool), (Seq<char>, Option<EnvDecoder>, bool))>,
}

pub open spec fn strmap_view(m: StrMap<String>) -> Map<Seq<char>, Seq<char>> {
    Map::new(|k: Seq<char>| m.get_spec(k) is Some, |k: Seq<char>| m.get_spec(k)->Some_0@)
}

pub open spec fn bindings_view(m: StrMap<EnvBinding>) -> Map<Seq<char>, (Seq<char>, Option<EnvDecoder>, bool)> {
    Map::new(|k: Seq<char>| m.get_spec(k) is Some, |k: Seq<char>| binding_view(m.get_spec(k)->Some_0))
}

impl View for EnvSource {
    type V = EnvSourceView;

    closed spec fn view(&self) -> EnvSourceView {
        EnvSourceView {
            vars: strmap_view(self.vars),
            prefix: opt_view(self.prefix),
            separator: self.separator@,
            lowercase_segments: self.lowercase_segments,
            bindings: bindings_view(self.bindings),
            var_list: self.vars.entries().map_values(|e: (String, String)| (e.0@, e.1@)),
            conflicts: self.binding_conflicts@.map_values(|c: EnvBindingConflict| (c.name@, binding_view(c.first), binding_view(c.second))),
        }
    }
}

/// The variables of a list of pairs, later pairs replacing earlier ones
/// with the same name.
pub open spec fn pairs_map(pairs: Seq<(String, String)>) -> Map<Seq<char>, Seq<char>>
    decreases pairs.len(),
{
    if pairs.len() == 0 {
        Map::empty()
    } else {
        pairs_map(pairs.drop_last()).insert(pairs.last().0@, pairs.last().1@)
    }
}

impl EnvSource {
    pub closed spec fn wf(&self) -> bool {
        self.vars.wf() && self.bindings.wf()
    }

    /// Creates an environment source from explicit key/value pairs.
    pub fn from_pairs(pairs: Vec<(String, String)>) -> (r: Self)
        ensures
            r.wf(),
            r@.vars == pairs_map(pairs@),
            r@.prefix is None,
            r@.separator == seq!['_', '_'],
            r@.lowercase_segments,
            r@.bindings == Map::<Seq<char>, (Seq<char>, Option<EnvDecoder>, bool)>::empty(),
            r@.conflicts.len() == 0,
    {
        let mut vars: StrMap<String> = StrMap::new();
        let mut i: usize = 0;
        assert(pairs@.take(0) =~= Seq::<(String, String)>::empty());
        assert(strmap_view(vars) =~= Map::<Seq<char>, Seq<char>>::empty());
        while i < pairs.len()
            invariant
                i <= pairs.len(),
                vars.wf(),
                strmap_view(vars) == pairs_map(pairs@.take(i as int)),
            decreases pairs.len() - i,
        {
            let ghost before = strmap_view(vars);
            let k = pairs[i].0.clone();
            let v = pairs[i].1.clone();
            let ghost kv = k@;
            let ghost vv = v@;
            vars.insert(k, v);
            proof {
                assert(pairs@.take(i + 1).drop_last() =~= pairs@.take(i as int));
                assert(strmap_view(vars) =~= before.insert(kv, vv)) by {
                    assert forall|x: Seq<char>| #[trigger] strmap_view(vars).contains_key(x) == before.insert(kv, vv).contains_key(x) by {}
                    assert forall|x: Seq<char>| #[trigger] strmap_view(vars).contains_key(x) implies strmap_view(vars)[x] == before.insert(kv, vv)[x] by {}
                }
            }
            i = i + 1;
        }
        assert(pairs@.take(pairs.len() as int) =~= pairs@);
        let empty_bindings: StrMap<EnvBinding> = StrMap::new();
        let sep = string_of(&['_', '_']);
        let r = EnvSource {
            vars,
            prefix: None,
            separator: sep,
            lowercase_segments: true,
            bindings: empty_bindings,
            binding_conflicts: Vec::new(),
        };
        assert(r@.separator =~= seq!['_', '_']);
        assert(bindings_view(r.bindings) =~= Map::<Seq<char>, (Seq<char>, Option<EnvDecoder>, bool)>::empty());
        r
    }
}


fn copy_binding(b: &EnvBinding) -> (r: EnvBinding)
    ensures
        binding_view(r) == binding_view(*b),
{
    EnvBinding { path: b.path.clone(), decoder: b.decoder, fallback: b.fallback }
}

/// The bindings after binding `name` to `b`: a first binding is kept, a
/// different re-binding is recorded as a conflict and changes nothing else.
pub open spec fn bound(v: EnvSourceView, name: Seq<char>, b: (Seq<char>, Option<EnvDecoder>, bool)) -> EnvSourceView {
    if v.bindings.contains_key(name) {
        if v.bindings[name] != b {
            EnvSourceView { conflicts: v.conflicts.push((name, v.bindings[name], b)), ..v }
        } else {
            v
        }
    } else {
        EnvSourceView { bindings: v.bindings.insert(name, b), ..v }
    }
}

impl EnvSource {
    /// Environment variables (as read by the caller) filtered by `prefix`.
    pub fn prefixed(prefix: &str, vars: Vec<(String, String)>) -> (r: Self)
        ensures
            r.wf(),
            r@.vars == pairs_map(vars@),
            r@.prefix == Some(prefix@),
            r@.separator == seq!['_', '_'],
            r@.lowercase_segments,
            r@.bindings == Map::<Seq<char>, (Seq<char>, Option<EnvDecoder>, bool)>::empty(),
            r@.conflicts.len() == 0,
    {
        let s = Self::from_pairs(vars);
        s.prefix(prefix)
    }

    /// Sets the variable name prefix.
    pub fn prefix(self, prefix: &str) -> (r: Self)
        requires
            self.wf(),
        ensures
            r.wf(),
            r@ == (EnvSourceView { prefix: Some(prefix@), ..self@ }),
    {
        let mut s = self;
        s.prefix = Some(prefix.to_string());
        s
    }

    /// Sets the segment separator; an empty one is ignored.
    pub fn separator(self, separator: &str) -> (r: Self)
        requires
            self.wf(),
        ensures
            r.wf(),
            r@ == (if separator@.len() == 0 { self@ } else { EnvSourceView { separator: separator@, ..self@ } }),
    {
        let mut s = self;
        if !separator.is_empty() {
            s.separator = separator.to_string();
        }
        s
    }

    /// Keeps the case of path segments.
    pub fn preserve_case(self) -> (r: Self)
        requires
            self.wf(),
        ensures
            r.wf(),
            r@ == (EnvSourceView { lowercase_segments: false, ..self@ }),
    {
        let mut s = self;
        s.lowercase_segments = false;
        s
    }

    fn insert_binding(&mut self, name: String, binding: EnvBinding)
        requires
            old(self).wf(),
        ensures
            final(self).wf(),
            final(self)@ == bound(old(self)@, name@, binding_view(binding)),
    {
        let ghost v0 = self@;
        match self.bindings.get(name.as_str()) {
            Some(existing) => {
                let same = crate::text::str_eq(existing.path.as_str(), binding.path.as_str())
                    && existing.decoder == binding.decoder && existing.fallback == binding.fallback;
                if !same {
                    let first = copy_binding(existing);
                    let ghost bv = binding_view(binding);
                    self.binding_conflicts.push(EnvBindingConflict { name, first, second: binding });
                    assert(self@.conflicts =~= v0.conflicts.push((self@.conflicts.last().0, v0.bindings[self@.conflicts.last().0], bv)));
                }
            },
            None => {
                let ghost nv = name@;
                let ghost bv = binding_view(binding);
                self.bindings.insert(name, binding);
                assert(bindings_view(self.bindings) =~= v0.bindings.insert(nv, bv));
            },
        }
    }

    fn bind(self, name: &str, path: &str, decoder: Option<EnvDecoder>, fallback: bool) -> (r: Self)
        requires
            self.wf(),
        ensures
            r.wf(),
            r@ == bound(self@, name@, (path@, decoder, fallback)),
    {
        let mut s = self;
        s.insert_binding(name.to_string(), EnvBinding { path: path.to_string(), decoder, fallback });
        s
    }

    /// Binds the variable `name` to `path`.
    pub fn with_alias(self, name: &str, path: &str) -> (r: Self)
        requires
            self.wf(),
        ensures
            r.wf(),
            r@ == bound(self@, name@, (path@, None, false)),
    {
        self.bind(name, path, None, false)
    }

    /// Binds the variable `name` to `path`, decoding it with `decoder`.
    pub fn with_alias_decoder(self, name: &str, path: &str, decoder: EnvDecoder) -> (r: Self)
        requires
            self.wf(),
        ensures
            r.wf(),
            r@ == bound(self@, name@, (path@, Some(decoder), false)),
    {
        self.bind(name, path, Some(decoder), false)
    }

    /// Binds the variable `name` to `path` as a fallback, used only where
    /// no other variable of this source set the path.
    pub fn with_fallback(self, name: &str, path: &str) -> (r: Self)
        requires
            self.wf(),
        ensures
            r.wf(),
            r@ == bound(self@, name@, (path@, None, true)),
    {
        self.bind(name, path, None, true)
    }

    /// A fallback binding with a decoder.
    pub fn with_fallback_decoder(self, name: &str, path: &str, decoder: EnvDecoder) -> (r: Self)
        requires
            self.wf(),
        ensures
            r.wf(),
            r@ == bound(self@, name@, (path@, Some(decoder), true)),
    {
        self.bind(name, path, Some(decoder), true)
    }
}


/// A variable routed to a configuration path: its name, its raw value, the
/// target path, the decoder bound to it, and whether it only fills a path
/// that nothing else set.
pub struct EnvAssignment {
    pub name: String,
    pub value: String,
    pub path: String,
    pub decoder: Option<EnvDecoder>,
    pub fallback: bool,
}

pub open spec fn assignment_view(a: EnvAssignment) -> (Seq<char>, Seq<char>, Seq<char>, Option<EnvDecoder>, bool) {
    (a.name@, a.value@, a.path@, a.decoder, a.fallback)
}

/// Where one variable goes: an explicit binding wins, then a name declared
/// in metadata, then the path derived from the name by the source's naming
/// convention (a name outside the prefix goes nowhere). An error is the
/// variable's name, the path built so far and the message.
pub open spec fn route_var(
    v: EnvSourceView,
    declared: Map<Seq<char>, Seq<char>>,
    name: Seq<char>,
    value: Seq<char>,
) -> Result<Option<(Seq<char>, Seq<char>, Seq<char>, Option<EnvDecoder>, bool)>, (Seq<char>, Seq<char>, Seq<char>)> {
    if v.bindings.contains_key(name) {
        let b = v.bindings[name];
        Ok(Some((name, value, b.0, b.1, b.2)))
    } else if declared.contains_key(name) {
        Ok(Some((name, value, declared[name], None, false)))
    } else {
        match env_var_path(name, v.prefix, v.separator, v.lowercase_segments) {
            Err((p, m)) => Err((name, p, m)),
            Ok(None) => Ok(None),
            Ok(Some(p)) => Ok(Some((name, value, p, None, false))),
        }
    }
}

/// The routes of the first `n` variables in name order, or the first error.
pub open spec fn routed(v: EnvSourceView, declared: Map<Seq<char>, Seq<char>>, n: int)
    -> Result<Seq<(Seq<char>, Seq<char>, Seq<char>, Option<EnvDecoder>, bool)>, (Seq<char>, Seq<char>, Seq<char>)>
    decreases n,
{
    if n <= 0 {
        Ok(Seq::empty())
    } else {
        match routed(v, declared, n - 1) {
            Err(e) => Err(e),
            Ok(s) => match route_var(v, declared, v.var_list[n - 1].0, v.var_list[n - 1].1) {
                Err(e) => Err(e),
                Ok(None) => Ok(s),
                Ok(Some(a)) => Ok(s.push(a)),
            },
        }
    }
}

/// The message for a name bound twice to different targets.
pub open spec fn conflict_message(first: Seq<char>, second: Seq<char>) -> Seq<char> {
    "conflicting explicit env bindings target `"@ + first + "` and `"@ + second + "`"@
}

/// The order in which an environment source sets paths: refused when a name
/// was bound twice to different targets (the first such conflict, reported
/// at the second target); otherwise every routed variable in name order,
/// the fallback bindings moved after all others.
pub open spec fn env_plan(v: EnvSourceView, declared: Map<Seq<char>, Seq<char>>)
    -> Result<Seq<(Seq<char>, Seq<char>, Seq<char>, Option<EnvDecoder>, bool)>, (Seq<char>, Seq<char>, Seq<char>)>
{
    if v.conflicts.len() > 0 {
        let c = v.conflicts[0];
        Err((c.0, c.2.0, conflict_message(c.1.0, c.2.0)))
    } else {
        match routed(v, declared, v.var_list.len() as int) {
            Err(e) => Err(e),
            Ok(s) => Ok(s.filter(|a: (Seq<char>, Seq<char>, Seq<char>, Option<EnvDecoder>, bool)| !a.4)
                + s.filter(|a: (Seq<char>, Seq<char>, Seq<char>, Option<EnvDecoder>, bool)| a.4)),
        }
    }
}

proof fn lemma_filter_push<A>(s: Seq<A>, a: A, f: spec_fn(A) -> bool)
    ensures
        s.push(a).filter(f) == if f(a) { s.filter(f).push(a) } else { s.filter(f) },
{
    reveal_with_fuel(Seq::filter, 1);
    assert(s.push(a).drop_last() =~= s);
}

/// The listed variables are exactly the source's variables, each with its
/// value, in strictly ascending name order.
pub open spec fn vars_listed(v: EnvSourceView) -> bool {
    &&& forall|i: int, j: int| 0 <= i < j < v.var_list.len() ==> seq_lt(#[trigger] v.var_list[i].0, #[trigger] v.var_list[j].0)
    &&& forall|i: int| 0 <= i < v.var_list.len() ==> v.vars.contains_key(#[trigger] v.var_list[i].0)
        && v.vars[v.var_list[i].0] == v.var_list[i].1
    &&& forall|k: Seq<char>| #[trigger] v.vars.contains_key(k) ==> exists|i: int| 0 <= i < v.var_list.len() && #[trigger] v.var_list[i].0 == k
}

impl EnvSource {
    /// A well-formed source lists its variables in name order.
    pub proof fn lemma_vars_listed(&self)
        requires
            self.wf(),
        ensures
            vars_listed(self@),
    {
        let v = self@;
        self.vars.lemma_wf_sorted();
        StrMap::lemma_keys_are_entries(self.vars);
        assert forall|i: int| 0 <= i < v.var_list.len() implies v.vars.contains_key(#[trigger] v.var_list[i].0)
            && v.vars[v.var_list[i].0] == v.var_list[i].1 by {
            self.vars.lemma_entry(i);
        }
        assert forall|k: Seq<char>| #[trigger] v.vars.contains_key(k) implies exists|i: int| 0 <= i < v.var_list.len() && #[trigger] v.var_list[i].0 == k by {
            let j = choose|j: int| 0 <= j < self.vars.entries().len() && #[trigger] self.vars.entries()[j].0@ == k;
            assert(v.var_list[j].0 == k);
        }
    }
}

/// In the order in which an environment source applies its variables, every
/// fallback binding comes after every variable that is not one.
pub proof fn law_fallbacks_last(v: EnvSourceView, declared: Map<Seq<char>, Seq<char>>)
    ensures
        env_plan(v, declared) matches Ok(p) ==> forall|j: int, k: int|
            0 <= j < k < p.len() && (#[trigger] p[j]).4 ==> (#[trigger] p[k]).4,
{
    if env_plan(v, declared) is Ok {
        let s = routed(v, declared, v.var_list.len() as int)->Ok_0;
        let keep = |a: (Seq<char>, Seq<char>, Seq<char>, Option<EnvDecoder>, bool)| !a.4;
        let late = |a: (Seq<char>, Seq<char>, Seq<char>, Option<EnvDecoder>, bool)| a.4;
        let a = s.filter(keep);
        let b = s.filter(late);
        let p = env_plan(v, declared)->Ok_0;
        assert(p == a + b);
        assert forall|j: int, k: int| 0 <= j < k < p.len() && (#[trigger] p[j]).4 implies (#[trigger] p[k]).4 by {
            if j < a.len() {
                s.lemma_filter_pred(keep, j);
                assert(p[j] == a[j]);
            } else {
                s.lemma_filter_pred(late, k - a.len());
                assert(p[k] == b[k - a.len()]);
            }
        }
    }
}

proof fn lemma_routed_contains(v: EnvSourceView, d: Map<Seq<char>, Seq<char>>, i: int, m: int)
    requires
        0 <= i < m,
        routed(v, d, m) is Ok,
        route_var(v, d, v.var_list[i].0, v.var_list[i].1) matches Ok(Some(_)),
    ensures
        routed(v, d, m)->Ok_0.contains(route_var(v, d, v.var_list[i].0, v.var_list[i].1)->Ok_0->Some_0),
    decreases m,
{
    let x = route_var(v, d, v.var_list[i].0, v.var_list[i].1)->Ok_0->Some_0;
    let prev = routed(v, d, m - 1);
    let sm = routed(v, d, m)->Ok_0;
    if i == m - 1 {
        assert(sm == prev->Ok_0.push(x));
        assert(sm[sm.len() - 1] == x);
    } else {
        lemma_routed_contains(v, d, i, m - 1);
        let s1 = prev->Ok_0;
        let j = choose|j: int| 0 <= j < s1.len() && s1[j] == x;
        if sm != s1 {
            assert(sm[j] == x);
        }
    }
}

/// A variable with an explicit binding is applied to the binding's path,
/// with the binding's decoder and fallback flag, whenever the source can be
/// applied at all.
pub proof fn law_bindings_win(v: EnvSourceView, declared: Map<Seq<char>, Seq<char>>, i: int)
    requires
        0 <= i < v.var_list.len(),
        v.bindings.contains_key(v.var_list[i].0),
    ensures
        env_plan(v, declared) matches Ok(p) ==> p.contains((
            v.var_list[i].0,
            v.var_list[i].1,
            v.bindings[v.var_list[i].0].0,
            v.bindings[v.var_list[i].0].1,
            v.bindings[v.var_list[i].0].2,
        )),
{
    if env_plan(v, declared) is Ok {
        let n = v.var_list.len() as int;
        lemma_routed_contains(v, declared, i, n);
        let s = routed(v, declared, n)->Ok_0;
        let b = v.bindings[v.var_list[i].0];
        let x = (v.var_list[i].0, v.var_list[i].1, b.0, b.1, b.2);
        let keep = |a: (Seq<char>, Seq<char>, Seq<char>, Option<EnvDecoder>, bool)| !a.4;
        let late = |a: (Seq<char>, Seq<char>, Seq<char>, Option<EnvDecoder>, bool)| a.4;
        let k = choose|k: int| 0 <= k < s.len() && s[k] == x;
        let p = env_plan(v, declared)->Ok_0;
        let fa = s.filter(keep);
        let fb = s.filter(late);
        assert(p == fa + fb);
        if x.4 {
            s.lemma_filter_contains(late, k);
            let t = choose|t: int| 0 <= t < fb.len() && fb[t] == x;
            assert(p[fa.len() + t] == x);
        } else {
            s.lemma_filter_contains(keep, k);
            let t = choose|t: int| 0 <= t < fa.len() && fa[t] == x;
            assert(p[t] == x);
        }
    }
}

proof fn lemma_routed_err_stays(v: EnvSourceView, d: Map<Seq<char>, Seq<char>>, k: int, m: int)
    requires
        0 <= k <= m,
        routed(v, d, k) is Err,
    ensures
        routed(v, d, m) == routed(v, d, k),
    decreases m - k,
{
    if m > k {
        lemma_routed_err_stays(v, d, k, m - 1);
    }
}

fn copy_binding_decoder(d: &Option<EnvDecoder>) -> (r: Option<EnvDecoder>)
    ensures
        r == *d,
{
    match d {
        Some(x) => Some(*x),
        None => None,
    }
}

impl EnvSource {
    /// Routes every variable of the source to the path it sets, in the order
    /// in which they are applied; `declared` maps the environment names that
    /// metadata declares to their paths.
    pub fn env_assignments(&self, declared: &StrMap<String>) -> (r: Result<Vec<EnvAssignment>, ConfigError>)
        requires
            self.wf(),
            declared.wf(),
        ensures
            match env_plan(self@, strmap_view(*declared)) {
                Ok(s) => r matches Ok(v) && v@.map_values(|a: EnvAssignment| assignment_view(a)) == s,
                Err((n, p, m)) => r matches Err(ConfigError::InvalidEnv { name, path, message })
                    && name@ == n && path@ == p && message@ == m,
            },
    {
        if self.binding_conflicts.len() > 0 {
            let c = &self.binding_conflicts[0];
            let m1 = cat("conflicting explicit env bindings target `", c.first.path.as_str());
            let m2 = cat(m1.as_str(), "` and `");
            let m3 = cat(m2.as_str(), c.second.path.as_str());
            let message = cat(m3.as_str(), "`");
            return Err(ConfigError::InvalidEnv { name: copy_string(&c.name), path: copy_string(&c.second.path), message });
        }
        let ghost v = self@;
        let ghost d = strmap_view(*declared);
        assert(v.conflicts.len() == 0);
        let ghost keep = |a: (Seq<char>, Seq<char>, Seq<char>, Option<EnvDecoder>, bool)| !a.4;
        let ghost late = |a: (Seq<char>, Seq<char>, Seq<char>, Option<EnvDecoder>, bool)| a.4;
        let mut direct: Vec<EnvAssignment> = Vec::new();
        let mut fallback: Vec<EnvAssignment> = Vec::new();
        let n = self.vars.len();
        let mut i: usize = 0;
        while i < n
            invariant
                i <= n,
                n == v.var_list.len(),
                v == self@,
                v.conflicts.len() == 0,
                keep == (|a: (Seq<char>, Seq<char>, Seq<char>, Option<EnvDecoder>, bool)| !a.4),
                late == (|a: (Seq<char>, Seq<char>, Seq<char>, Option<EnvDecoder>, bool)| a.4),
                d == strmap_view(*declared),
                self.wf(),
                declared.wf(),
                routed(v, d, i as int) matches Ok(s) && direct@.map_values(|a: EnvAssignment| assignment_view(a)) == s.filter(keep)
                    && fallback@.map_values(|a: EnvAssignment| assignment_view(a)) == s.filter(late),
            decreases n - i,
        {
            let ghost s = routed(v, d, i as int)->Ok_0;
            let (name, value) = self.vars.entry_at(i);
            assert(v.var_list[i as int] == (name@, value@));
            let routed_to: Option<(String, Option<EnvDecoder>, bool)> = match self.bindings.get(name.as_str()) {
                Some(b) => Some((copy_string(&b.path), copy_binding_decoder(&b.decoder), b.fallback)),
                None => match declared.get(name.as_str()) {
                    Some(p) => Some((copy_string(p), None, false)),
                    None => {
                        let pre: Option<&str> = match &self.prefix {
                            Some(p) => Some(p.as_str()),
                            None => None,
                        };
                        match path_for_env_var(name.as_str(), pre, self.separator.as_str(), self.lowercase_segments) {
                            Err(e) => {
                                proof {
                                    assert(route_var(v, d, name@, value@) == Err::<Option<(Seq<char>, Seq<char>, Seq<char>, Option<EnvDecoder>, bool)>, (Seq<char>, Seq<char>, Seq<char>)>((name@, e.path@, e.message@)));
                                    assert(routed(v, d, i + 1) == Err::<Seq<(Seq<char>, Seq<char>, Seq<char>, Option<EnvDecoder>, bool)>, (Seq<char>, Seq<char>, Seq<char>)>((name@, e.path@, e.message@)));
                                    lemma_routed_err_stays(v, d, i + 1, n as int);
                                }
                                return Err(ConfigError::InvalidEnv { name: copy_string(name), path: e.path, message: e.message });
                            },
                            Ok(None) => None,
                            Ok(Some(p)) => Some((p, None, false)),
                        }
                    },
                },
            };
            assert(match routed_to {
                None => route_var(v, d, name@, value@) is Ok && route_var(v, d, name@, value@)->Ok_0 is None,
                Some(t) => route_var(v, d, name@, value@) is Ok
                    && route_var(v, d, name@, value@)->Ok_0 == Some((name@, value@, t.0@, t.1, t.2)),
            });
            match routed_to {
                None => {
                    assert(routed(v, d, i + 1) == Ok::<Seq<(Seq<char>, Seq<char>, Seq<char>, Option<EnvDecoder>, bool)>, (Seq<char>, Seq<char>, Seq<char>)>(s));
                },
                Some((path, decoder, fb)) => {
                    let a = EnvAssignment { name: copy_string(name), value: copy_string(value), path, decoder, fallback: fb };
                    let ghost av = assignment_view(a);
                    proof {
                        lemma_filter_push(s, av, keep);
                        lemma_filter_push(s, av, late);
                    }
                    let ghost od = direct@.map_values(|a: EnvAssignment| assignment_view(a));
                    let ghost of = fallback@.map_values(|a: EnvAssignment| assignment_view(a));
                    if fb {
                        fallback.push(a);
                        assert(fallback@.map_values(|a: EnvAssignment| assignment_view(a)) =~= of.push(av));
                    } else {
                        direct.push(a);
                        assert(direct@.map_values(|a: EnvAssignment| assignment_view(a)) =~= od.push(av));
                    }
                    assert(routed(v, d, i + 1) == Ok::<Seq<(Seq<char>, Seq<char>, Seq<char>, Option<EnvDecoder>, bool)>, (Seq<char>, Seq<char>, Seq<char>)>(s.push(av)));
                },
            }
            i = i + 1;
        }
        let ghost s = routed(v, d, n as int)->Ok_0;
        let ghost dv = direct@.map_values(|a: EnvAssignment| assignment_view(a));
        let ghost fv = fallback@.map_values(|a: EnvAssignment| assignment_view(a));
        direct.append(&mut fallback);
        assert(direct@.map_values(|a: EnvAssignment| assignment_view(a)) =~= dv + fv);
        Ok(direct)
    }
}

} // verus!
