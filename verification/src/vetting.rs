//! Whether a metadata set can be used: every field path and alias is
//! readable, and root-level declarations that cannot apply to the root are
//! refused.
use vstd::prelude::*;
use crate::config::{ConfigMetadata, FieldMetadata, fields_readable, MetaFault, meta_fault, alias_run, alias_steps, canonical_set};
use crate::strmap::StrMap;
use crate::sources::strmap_view;
use crate::text::{split, split_chars, chars_of, chars_eq};
use crate::syntax::{metadata_path_result, index_overflows};
use crate::metadata::{validate_metadata_path, validate_check_path, kind_overlap, source_kind_overlap};
use crate::metachecks::{CheckModel, check_model, check_readable, checks_readable};
use crate::rules::ValidationCheck;
use crate::text::string_views;
use crate::sources::{cat, kind_label};
use crate::error::{ConfigError, format_source_kind_list};
use crate::text::{join, copy_string};

verus! {

/// The fault of a path that cannot be read: the path and the message.
pub open spec fn path_fault(p: Seq<char>) -> Option<(Seq<char>, Seq<char>)> {
    match metadata_path_result(p) {
        Err(e) => Some((p, "invalid metadata path: "@ + e)),
        Ok(_) => None,
    }
}

/// The first fault among the aliases from index `i` on: an alias that
/// cannot be read, or one that names the root.
pub open spec fn alias_fault_from(aliases: Seq<String>, i: int) -> Option<(Seq<char>, Seq<char>)>
    decreases aliases.len() - i,
{
    if i < 0 || i >= aliases.len() {
        None
    } else {
        let a = aliases[i]@;
        match path_fault(a) {
            Some(f) => Some(f),
            None => if a.len() == 0 {
                Some((a, "aliases cannot target the root path"@))
            } else {
                alias_fault_from(aliases, i + 1)
            },
        }
    }
}

/// The message for kinds that a field both allows and denies.
pub open spec fn overlap_message(overlap: Seq<crate::sources::SourceKind>) -> Seq<char> {
    "source policies cannot both allow and deny the same source kinds: "@
        + join(overlap.map_values(|k: crate::sources::SourceKind| kind_label(k)), ", "@)
}

/// The first fault of one field, checked in this order: its path; an alias,
/// an explicit merge strategy or a source policy on the root; an empty allow
/// list; kinds both allowed and denied; a secret, a deprecation or a decoder
/// on the root; then each alias.
pub open spec fn field_fault(f: FieldMetadata) -> Option<(Seq<char>, Seq<char>)> {
    let p = f.path@;
    let root = p.len() == 0;
    if path_fault(p) is Some {
        path_fault(p)
    } else if root && f.aliases@.len() > 0 {
        Some((f.aliases@[0]@, "aliases cannot rewrite the root path"@))
    } else if root && f.merge_explicit {
        Some((p, "merge strategies cannot target the root path"@))
    } else if root && (f.allowed_sources is Some || f.denied_sources is Some) {
        Some((p, "source policies cannot target the root path"@))
    } else if f.allowed_sources matches Some(a) && a@.len() == 0 {
        Some((p, "source policies must allow at least one source kind"@))
    } else if f.allowed_sources matches Some(a) && f.denied_sources matches Some(d)
        && kind_overlap(a@, d@).len() > 0 {
        Some((p, overlap_message(kind_overlap(f.allowed_sources->Some_0@, f.denied_sources->Some_0@))))
    } else if root && f.secret {
        Some((p, "secret metadata cannot target the root path"@))
    } else if root && f.deprecated is Some {
        Some((p, "deprecation metadata cannot target the root path"@))
    } else if root && f.env_decode is Some {
        Some((p, "environment decoder paths cannot target the root path"@))
    } else {
        alias_fault_from(f.aliases@, 0)
    }
}

/// The first fault among the fields from index `i` on.
pub open spec fn fields_fault_from(fs: Seq<FieldMetadata>, i: int) -> Option<(Seq<char>, Seq<char>)>
    decreases fs.len() - i,
{
    if i < 0 || i >= fs.len() {
        None
    } else {
        match field_fault(fs[i]) {
            Some(f) => Some(f),
            None => fields_fault_from(fs, i + 1),
        }
    }
}

/// A refusal of metadata with the given path and message.
pub open spec fn refused_as(r: Result<(), ConfigError>, fault: (Seq<char>, Seq<char>)) -> bool {
    r matches Err(ConfigError::MetadataInvalid { path, message }) && path@ == fault.0 && message@ == fault.1
}

fn check_aliases(aliases: &Vec<String>) -> (r: Result<(), ConfigError>)
    requires
        forall|j: int| 0 <= j < aliases@.len() ==> !index_overflows(#[trigger] aliases@[j]@),
    ensures
        match alias_fault_from(aliases@, 0) {
            None => r is Ok,
            Some(f) => refused_as(r, f),
        },
{
    let mut i: usize = 0;
    while i < aliases.len()
        invariant
            i <= aliases.len(),
            forall|j: int| 0 <= j < aliases@.len() ==> !index_overflows(#[trigger] aliases@[j]@),
            alias_fault_from(aliases@, 0) == alias_fault_from(aliases@, i as int),
        decreases aliases.len() - i,
    {
        assert(!index_overflows(aliases@[i as int]@));
        validate_metadata_path(aliases[i].as_str())?;
        if aliases[i].as_str().is_empty() {
            return Err(ConfigError::MetadataInvalid {
                path: copy_string(&aliases[i]),
                message: "aliases cannot target the root path".to_string(),
            });
        }
        i = i + 1;
    }
    Ok(())
}

fn root_error(path: &String, message: &str) -> (r: Result<(), ConfigError>)
    ensures
        refused_as(r, (path@, message@)),
{
    Err(ConfigError::MetadataInvalid { path: copy_string(path), message: message.to_string() })
}

/// Checks one field.
pub fn check_field(f: &FieldMetadata) -> (r: Result<(), ConfigError>)
    requires
        !index_overflows(f.path@),
        forall|j: int| 0 <= j < f.aliases@.len() ==> !index_overflows(#[trigger] f.aliases@[j]@),
    ensures
        match field_fault(*f) {
            None => r is Ok,
            Some(fault) => refused_as(r, fault),
        },
{
    validate_metadata_path(f.path.as_str())?;
    let root = f.path.as_str().is_empty();
    if root && f.aliases.len() > 0 {
        return root_error(&f.aliases[0], "aliases cannot rewrite the root path");
    }
    if root && f.merge_explicit {
        return root_error(&f.path, "merge strategies cannot target the root path");
    }
    if root && (f.allowed_sources.is_some() || f.denied_sources.is_some()) {
        return root_error(&f.path, "source policies cannot target the root path");
    }
    if let Some(a) = &f.allowed_sources {
        if a.len() == 0 {
            return root_error(&f.path, "source policies must allow at least one source kind");
        }
        if let Some(d) = &f.denied_sources {
            let overlap = source_kind_overlap(a, d);
            if overlap.len() > 0 {
                let listed = format_source_kind_list(&overlap);
                let message = cat("source policies cannot both allow and deny the same source kinds: ", listed.as_str());
                return Err(ConfigError::MetadataInvalid { path: copy_string(&f.path), message });
            }
        }
    }
    if root && f.secret {
        return root_error(&f.path, "secret metadata cannot target the root path");
    }
    if root && f.deprecated.is_some() {
        return root_error(&f.path, "deprecation metadata cannot target the root path");
    }
    if root && f.env_decode.is_some() {
        return root_error(&f.path, "environment decoder paths cannot target the root path");
    }
    check_aliases(&f.aliases)
}

/// One field's explicit environment name added to the names mapped so far:
/// the name must not be empty, the path must be readable and neither the
/// root nor a wildcard path, and a name already mapped to another path is a
/// conflict.
pub open spec fn env_step(m: Map<Seq<char>, Seq<char>>, f: FieldMetadata) -> Result<Map<Seq<char>, Seq<char>>, MetaFault> {
    match f.env {
        None => Ok(m),
        Some(e) => {
            let p = f.path@;
            if e@.len() == 0 {
                Err(MetaFault::Invalid(p, "explicit environment variable names cannot be empty"@))
            } else if metadata_path_result(p) is Err {
                Err(MetaFault::Invalid(p, "invalid metadata path: "@ + metadata_path_result(p)->Err_0))
            } else if p.len() == 0 {
                Err(MetaFault::Invalid(p, "explicit environment variable names cannot target the root path"@))
            } else if split(p, '.').contains(seq!['*']) {
                Err(MetaFault::Invalid(p, "explicit environment variable names cannot target wildcard paths"@))
            } else if m.contains_key(e@) && m[e@] != p {
                Err(MetaFault::Conflict("environment variable"@, e@, m[e@], p))
            } else {
                Ok(m.insert(e@, p))
            }
        },
    }
}

/// The explicit environment names of the first `n` fields, or the first
/// fault.
pub open spec fn env_run(fs: Seq<FieldMetadata>, n: int) -> Result<Map<Seq<char>, Seq<char>>, MetaFault>
    decreases n,
{
    if n <= 0 {
        Ok(Map::empty())
    } else {
        match env_run(fs, n - 1) {
            Err(f) => Err(f),
            Ok(m) => env_step(m, fs[n - 1]),
        }
    }
}

/// What `env_overrides` gives: the alias map's fault first, then the
/// environment names' map or its first fault.
pub open spec fn env_outcome(fs: Seq<FieldMetadata>) -> Result<Map<Seq<char>, Seq<char>>, MetaFault> {
    match alias_run(alias_steps(fs), canonical_set(fs)) {
        Err(f) => Err(f),
        Ok(_) => env_run(fs, fs.len() as int),
    }
}

proof fn lemma_env_err_stays(fs: Seq<FieldMetadata>, k: int, m: int)
    requires
        0 <= k <= m,
        env_run(fs, k) is Err,
    ensures
        env_run(fs, m) == env_run(fs, k),
    decreases m - k,
{
    if m > k {
        lemma_env_err_stays(fs, k, m - 1);
    }
}

fn has_wildcard_segment(p: &str) -> (r: bool)
    ensures
        r == split(p@, '.').contains(seq!['*']),
{
    let parts = split_chars(&chars_of(p), '.');
    let star = ['*'];
    assert(star@ =~= seq!['*']);
    let mut i: usize = 0;
    while i < parts.len()
        invariant
            i <= parts@.len(),
            parts@.len() == split(p@, '.').len(),
            forall|j: int| 0 <= j < parts@.len() ==> (#[trigger] parts@[j])@ == split(p@, '.')[j],
            forall|j: int| 0 <= j < i ==> split(p@, '.')[j] != seq!['*'],
            star@ == seq!['*'],
        decreases parts@.len() - i,
    {
        if chars_eq(&parts[i], &star) {
            assert(split(p@, '.')[i as int] == seq!['*']);
            return true;
        }
        i = i + 1;
    }
    assert forall|j: int| 0 <= j < split(p@, '.').len() implies split(p@, '.')[j] != seq!['*'] by {}
    false
}

fn env_field_step(field: &FieldMetadata, envs: &mut StrMap<String>) -> (r: Result<(), ConfigError>)
    requires
        old(envs).wf(),
        !index_overflows(field.path@),
    ensures
        match env_step(strmap_view(*old(envs)), *field) {
            Ok(m) => r is Ok && final(envs).wf() && strmap_view(*final(envs)) == m,
            Err(f) => r matches Err(e) && meta_fault(e) == Some(f),
        },
{
    let ghost m = strmap_view(*envs);
    match &field.env {
        None => Ok(()),
        Some(e) => {
            if e.as_str().is_empty() {
                return Err(ConfigError::MetadataInvalid {
                    path: copy_string(&field.path),
                    message: "explicit environment variable names cannot be empty".to_string(),
                });
            }
            validate_metadata_path(field.path.as_str())?;
            if field.path.as_str().is_empty() {
                return Err(ConfigError::MetadataInvalid {
                    path: copy_string(&field.path),
                    message: "explicit environment variable names cannot target the root path".to_string(),
                });
            }
            if has_wildcard_segment(field.path.as_str()) {
                return Err(ConfigError::MetadataInvalid {
                    path: copy_string(&field.path),
                    message: "explicit environment variable names cannot target wildcard paths".to_string(),
                });
            }
            match envs.get(e.as_str()) {
                Some(first) => {
                    if !crate::text::str_eq(first.as_str(), field.path.as_str()) {
                        return Err(ConfigError::MetadataConflict {
                            kind: "environment variable".to_string(),
                            name: copy_string(e),
                            first_path: copy_string(first),
                            second_path: copy_string(&field.path),
                        });
                    }
                },
                None => {},
            }
            let ghost ev = e@;
            let ghost pv = field.path@;
            envs.insert(copy_string(e), copy_string(&field.path));
            assert(strmap_view(*envs) =~= m.insert(ev, pv));
            Ok(())
        },
    }
}

impl ConfigMetadata {
    /// The explicit environment variable names of the fields, mapped to
    /// their paths, after the aliases are checked. Two fields with different
    /// paths are different targets: a path is not rewritten through an alias
    /// that is a prefix of it.
    pub fn env_overrides(&self) -> (r: Result<StrMap<String>, ConfigError>)
        requires
            fields_readable(self.fields_spec()),
        ensures
            match env_outcome(self.fields_spec()) {
                Ok(m) => r matches Ok(a) && a.wf() && strmap_view(a) == m,
                Err(f) => r matches Err(e) && meta_fault(e) == Some(f),
            },
    {
        let _ = self.alias_overrides()?;
        let fields = self.fields();
        let ghost fs = fields@;
        let mut envs: StrMap<String> = StrMap::new();
        assert(strmap_view(envs) =~= Map::<Seq<char>, Seq<char>>::empty());
        let mut i: usize = 0;
        while i < fields.len()
            invariant
                i <= fs.len(),
                fs == fields@,
                fs == self.fields_spec(),
                fields_readable(fs),
                alias_run(alias_steps(fs), canonical_set(fs)) is Ok,
                env_outcome(fs) == env_run(fs, fs.len() as int),
                envs.wf(),
                env_run(fs, i as int) == Ok::<Map<Seq<char>, Seq<char>>, MetaFault>(strmap_view(envs)),
            decreases fs.len() - i,
        {
            assert(!index_overflows(fs[i as int].path@));
            match env_field_step(&fields[i], &mut envs) {
                Err(e) => {
                    proof {
                        lemma_env_err_stays(fs, i + 1, fs.len() as int);
                    }
                    return Err(e);
                },
                Ok(()) => {},
            }
            i = i + 1;
        }
        Ok(envs)
    }
}

/// The fault of a check path: unreadable, or the root.
pub open spec fn check_path_fault(p: Seq<char>) -> Option<(Seq<char>, Seq<char>)> {
    match metadata_path_result(p) {
        Err(e) => Some((p, "invalid metadata path: "@ + e)),
        Ok(n) => if n.len() == 0 {
            Some((p, "invalid metadata path: cross-field checks cannot use the root path"@))
        } else {
            None
        },
    }
}

/// The first faulty path from index `i` on.
pub open spec fn paths_fault_from(ps: Seq<Seq<char>>, i: int) -> Option<(Seq<char>, Seq<char>)>
    decreases ps.len() - i,
{
    if i < 0 || i >= ps.len() {
        None
    } else {
        match check_path_fault(ps[i]) {
            Some(f) => Some(f),
            None => paths_fault_from(ps, i + 1),
        }
    }
}

/// The first faulty path of a check: those of a group in order, or the
/// checked path and then the required ones.
pub open spec fn check_fault(m: CheckModel) -> Option<(Seq<char>, Seq<char>)> {
    if m.kind <= 2 {
        paths_fault_from(m.group, 0)
    } else {
        match check_path_fault(m.path) {
            Some(f) => Some(f),
            None => paths_fault_from(m.requires, 0),
        }
    }
}

/// The first fault among the checks from index `i` on.
pub open spec fn checks_fault_from(ms: Seq<CheckModel>, i: int) -> Option<(Seq<char>, Seq<char>)>
    decreases ms.len() - i,
{
    if i < 0 || i >= ms.len() {
        None
    } else {
        match check_fault(ms[i]) {
            Some(f) => Some(f),
            None => checks_fault_from(ms, i + 1),
        }
    }
}

/// The first fault of a metadata set: its fields in order, then its checks.
pub open spec fn metadata_fault(fs: Seq<FieldMetadata>, ms: Seq<CheckModel>) -> Option<(Seq<char>, Seq<char>)> {
    match fields_fault_from(fs, 0) {
        Some(f) => Some(f),
        None => checks_fault_from(ms, 0),
    }
}

fn check_paths(ps: &Vec<String>) -> (r: Result<(), ConfigError>)
    requires
        forall|i: int| 0 <= i < string_views(ps@).len() ==> !index_overflows(#[trigger] string_views(ps@)[i]),
    ensures
        match paths_fault_from(string_views(ps@), 0) {
            None => r is Ok,
            Some(f) => refused_as(r, f),
        },
{
    let ghost v = string_views(ps@);
    let mut i: usize = 0;
    while i < ps.len()
        invariant
            i <= ps@.len(),
            v == string_views(ps@),
            forall|j: int| 0 <= j < v.len() ==> !index_overflows(#[trigger] v[j]),
            paths_fault_from(v, 0) == paths_fault_from(v, i as int),
        decreases ps@.len() - i,
    {
        assert(v[i as int] == ps@[i as int]@);
        validate_check_path(ps[i].as_str())?;
        i = i + 1;
    }
    Ok(())
}

fn check_one(c: &ValidationCheck) -> (r: Result<(), ConfigError>)
    requires
        check_readable(check_model(*c)),
    ensures
        match check_fault(check_model(*c)) {
            None => r is Ok,
            Some(f) => refused_as(r, f),
        },
{
    match c {
        ValidationCheck::AtLeastOneOf { paths } => check_paths(paths),
        ValidationCheck::ExactlyOneOf { paths } => check_paths(paths),
        ValidationCheck::MutuallyExclusive { paths } => check_paths(paths),
        ValidationCheck::RequiredWith { path, requires: req } => {
            validate_check_path(path.as_str())?;
            check_paths(req)
        },
        ValidationCheck::RequiredIf { path, requires: req, .. } => {
            validate_check_path(path.as_str())?;
            check_paths(req)
        },
    }
}

impl ConfigMetadata {
    /// Checks the aliases and explicit environment names first (as
    /// `env_overrides` does), then every field in order and every
    /// cross-field check, and reports the first fault: an unreadable path or alias, a declaration
    /// that cannot apply to the root path, a source policy that allows
    /// nothing or both allows and denies a kind, or a check path that is
    /// unreadable or the root.
    pub fn validate_paths(&self) -> (r: Result<(), ConfigError>)
        requires
            fields_readable(self.fields_spec()),
            checks_readable(self.checks_spec()),
        ensures
            match env_outcome(self.fields_spec()) {
                Err(f) => r matches Err(e) && meta_fault(e) == Some(f),
                Ok(_) => match metadata_fault(self.fields_spec(), self.checks_spec()) {
                    None => r is Ok,
                    Some(fault) => refused_as(r, fault),
                },
            },
    {
        let _ = self.env_overrides()?;
        let fields = self.fields();
        let mut i: usize = 0;
        while i < fields.len()
            invariant
                i <= fields.len(),
                fields@ == self.fields_spec(),
                fields_readable(fields@),
                env_outcome(self.fields_spec()) is Ok,
                fields_fault_from(fields@, 0) == fields_fault_from(fields@, i as int),
            decreases fields.len() - i,
        {
            check_field(&fields[i])?;
            i = i + 1;
        }
        let checks = self.checks();
        let ghost ms = self.checks_spec();
        let mut k: usize = 0;
        while k < checks.len()
            invariant
                k <= checks@.len(),
                checks@.map_values(|c: ValidationCheck| check_model(c)) == ms,
                ms == self.checks_spec(),
                checks_readable(ms),
                fields_fault_from(self.fields_spec(), 0) is None,
                env_outcome(self.fields_spec()) is Ok,
                checks_fault_from(ms, 0) == checks_fault_from(ms, k as int),
            decreases checks@.len() - k,
        {
            assert(ms[k as int] == check_model(checks@[k as int]));
            check_one(&checks[k])?;
            k = k + 1;
        }
        Ok(())
    }
}

} // verus!
