//! Field metadata and the metadata set of a configuration type: lookup by
//! path, merge strategies, aliases and explicit environment names.
use vstd::prelude::*;
use crate::text::{string_views, chars_of, string_of, str_eq, copy_string};
use crate::strmap::{seq_lt, chars_lt};
use crate::syntax::{metadata_path_result, index_overflows, try_normalize_metadata_path, normalize_metadata_path};
use crate::metadata::{EnvDecoder, MergeStrategy, MetadataMatchScore, match_score, score_lt, metadata_match_score,
    validate_metadata_path, alias_lossless, alias_mapping_is_lossless, aliases_ambiguous, alias_patterns_are_ambiguous,
    sample_segments, alias_overlap_sample_path};
use crate::strmap::{StrMap, lemma_lt_total, lemma_lt_irrefl};
use crate::sources::{cat, strmap_view};
use crate::error::ConfigError;
use crate::text::join;
use crate::path::segments;
use crate::sources::SourceKind;
use crate::rules::ValidationCheck;
use crate::metachecks::{CheckModel, check_model};

verus! {

/// Metadata for a single configuration path.
pub struct FieldMetadata {
    /// Dot-delimited configuration path.
    pub path: String,
    /// Alternate dot-delimited paths accepted for this field.
    pub aliases: Vec<String>,
    /// Whether values at this path are sensitive.
    pub secret: bool,
    /// Exact environment variable name mapped to this path.
    pub env: Option<String>,
    /// Decoder applied to environment variable values for this path.
    pub env_decode: Option<EnvDecoder>,
    /// Human-readable field documentation.
    pub doc: Option<String>,
    /// Example value rendered in generated docs.
    pub example: Option<String>,
    /// Deprecation note.
    pub deprecated: Option<String>,
    /// Whether the field may be omitted.
    pub has_default: bool,
    /// Strategy used when merging layered values into this field.
    pub merge: MergeStrategy,
    /// Whether the merge strategy was declared explicitly.
    pub merge_explicit: bool,
    /// Source kinds allowed to set this field (any when unset).
    pub allowed_sources: Option<Vec<SourceKind>>,
    /// Source kinds denied from setting this field.
    pub denied_sources: Option<Vec<SourceKind>>,
}

/// The paths by which a field can be found: its own, then its aliases.
pub open spec fn candidates(f: FieldMetadata) -> Seq<Seq<char>> {
    seq![f.path@] + string_views(f.aliases@)
}

/// The best score of any candidate path for `path`.
pub open spec fn best_score(path: Seq<char>, cands: Seq<Seq<char>>) -> Option<(nat, nat, Seq<bool>)>
    decreases cands.len(),
{
    if cands.len() == 0 {
        None
    } else {
        let prev = best_score(path, cands.drop_last());
        match match_score(path, cands.last()) {
            None => prev,
            Some(s) => match prev {
                Some(p) => if score_lt(s, p) { Some(p) } else { Some(s) },
                None => Some(s),
            },
        }
    }
}

/// The order in which matching fields are applied: by score, then by path.
pub open spec fn key_lt(a: ((nat, nat, Seq<bool>), Seq<char>), b: ((nat, nat, Seq<bool>), Seq<char>)) -> bool {
    score_lt(a.0, b.0) || (!score_lt(b.0, a.0) && seq_lt(a.1, b.1))
}

/// Over the fields `fs` matching `path`: the index of the first in
/// application order, and of the last one with an explicit strategy.
pub open spec fn strategy_scan(fs: Seq<FieldMetadata>, path: Seq<char>) -> (Option<int>, Option<int>)
    decreases fs.len(),
{
    if fs.len() == 0 {
        (None, None)
    } else {
        let prev = strategy_scan(fs.drop_last(), path);
        let i = fs.len() - 1;
        match best_score(path, candidates(fs[i])) {
            None => prev,
            Some(s) => {
                let k = (s, fs[i].path@);
                let lo = match prev.0 {
                    Some(j) => if key_lt(k, (best_score(path, candidates(fs[j]))->Some_0, fs[j].path@)) { Some(i) } else { Some(j) },
                    None => Some(i),
                };
                let hi = if !fs[i].merge_explicit {
                    prev.1
                } else {
                    match prev.1 {
                        Some(j) => if key_lt((best_score(path, candidates(fs[j]))->Some_0, fs[j].path@), k) { Some(i) } else { Some(j) },
                        None => Some(i),
                    }
                };
                (lo, hi)
            },
        }
    }
}

/// The effective merge strategy for `path`: among the fields that match it,
/// the one applied last with an explicit strategy decides; without one, the
/// first applied decides; with no match there is none.
pub open spec fn strategy_for(fs: Seq<FieldMetadata>, path: Seq<char>) -> Option<MergeStrategy> {
    match metadata_path_result(path) {
        Err(_) => None,
        Ok(np) => {
            let scan = strategy_scan(fs, np);
            match scan.1 {
                Some(j) => Some(fs[j].merge),
                None => match scan.0 {
                    Some(j) => Some(fs[j].merge),
                    None => None,
                },
            }
        },
    }
}

proof fn lemma_scan_bounds(fs: Seq<FieldMetadata>, path: Seq<char>)
    ensures
        strategy_scan(fs, path).0 matches Some(j) ==> 0 <= j < fs.len() && best_score(path, candidates(fs[j])) is Some,
        strategy_scan(fs, path).1 matches Some(j) ==> 0 <= j < fs.len() && best_score(path, candidates(fs[j])) is Some,
        strategy_scan(fs, path).0 is None ==> strategy_scan(fs, path).1 is None,
    decreases fs.len(),
{
    if fs.len() > 0 {
        lemma_scan_bounds(fs.drop_last(), path);
        let prev = strategy_scan(fs.drop_last(), path);
        if let Some(j) = prev.0 {
            assert(fs.drop_last()[j] == fs[j]);
        }
        if let Some(j) = prev.1 {
            assert(fs.drop_last()[j] == fs[j]);
        }
    }
}

/// The best score of a field's candidates for a normalized path.
pub(crate) fn field_best_score(path: &str, f: &FieldMetadata) -> (r: Option<MetadataMatchScore>)
    ensures
        match r {
            Some(s) => best_score(path@, candidates(*f)) == Some(s.as_tuple()),
            None => best_score(path@, candidates(*f)) is None,
        },
{
    let ghost cs = candidates(*f);
    let mut best = metadata_match_score(path, f.path.as_str());
    assert(cs.take(1).drop_last() =~= Seq::<Seq<char>>::empty());
    assert(cs.take(1).last() == f.path@);
    assert(best_score(path@, Seq::<Seq<char>>::empty()) is None);
    assert(best_score(path@, cs.take(1)) == match_score(path@, f.path@));
    let mut i: usize = 0;
    while i < f.aliases.len()
        invariant
            i <= f.aliases@.len(),
            cs == candidates(*f),
            match best {
                Some(s) => best_score(path@, cs.take(i + 1)) == Some(s.as_tuple()),
                None => best_score(path@, cs.take(i + 1)) is None,
            },
        decreases f.aliases@.len() - i,
    {
        assert(cs.take(i + 2).drop_last() =~= cs.take(i + 1));
        assert(cs.take(i + 2).last() == f.aliases@[i as int]@);
        let s = metadata_match_score(path, f.aliases[i].as_str());
        match s {
            Some(s) => {
                let keep = match &best {
                    Some(b) => s.less_than(b),
                    None => false,
                };
                if !keep {
                    best = Some(s);
                }
            },
            None => {},
        }
        i = i + 1;
    }
    assert(cs.take(f.aliases@.len() + 1int) =~= cs);
    best
}

/// Whether `(a, pa)` comes before `(b, pb)` in application order.
fn key_less(a: &MetadataMatchScore, pa: &String, b: &MetadataMatchScore, pb: &String) -> (r: bool)
    ensures
        r == key_lt((a.as_tuple(), pa@), (b.as_tuple(), pb@)),
{
    if a.less_than(b) {
        true
    } else if b.less_than(a) {
        false
    } else {
        chars_lt(&chars_of(pa.as_str()), &chars_of(pb.as_str()))
    }
}

/// The set of field metadata for a configuration type, merged by path.
pub struct ConfigMetadata {
    pub(crate) fields: Vec<FieldMetadata>,
    pub(crate) checks: Vec<ValidationCheck>,
}

impl ConfigMetadata {
    /// The field entries.
    pub closed spec fn fields_spec(&self) -> Seq<FieldMetadata> {
        self.fields@
    }

    /// The cross-field checks as held.
    pub closed spec fn check_list(&self) -> Seq<ValidationCheck> {
        self.checks@
    }

    /// The cross-field checks, in the order they were added.
    pub closed spec fn checks_spec(&self) -> Seq<CheckModel> {
        self.checks@.map_values(|c: ValidationCheck| check_model(c))
    }

    /// An empty metadata set.
    pub fn new() -> (r: Self)
        ensures
            r.fields_spec().len() == 0,
            r.checks_spec().len() == 0,
    {
        ConfigMetadata { fields: Vec::new(), checks: Vec::new() }
    }

    /// The field entries.
    pub fn fields(&self) -> (r: &Vec<FieldMetadata>)
        ensures
            r@ == self.fields_spec(),
    {
        &self.fields
    }

    /// The effective merge strategy for a concrete configuration path.
    pub fn merge_strategy_for(&self, path: &str) -> (r: Option<MergeStrategy>)
        requires
            !index_overflows(path@),
        ensures
            r == strategy_for(self.fields_spec(), path@),
    {
        let np = match try_normalize_metadata_path(path) {
            Ok(np) => np,
            Err(_) => {
                return None;
            },
        };
        let ghost fs = self.fields@;
        let mut lo: Option<(usize, MetadataMatchScore)> = None;
        let mut hi: Option<(usize, MetadataMatchScore)> = None;
        let mut i: usize = 0;
        while i < self.fields.len()
            invariant
                i <= fs.len(),
                fs == self.fields@,
                strategy_scan(fs.take(i as int), np@).0 == match lo {
                    Some(p) => Some(p.0 as int),
                    None => None::<int>,
                },
                strategy_scan(fs.take(i as int), np@).1 == match hi {
                    Some(p) => Some(p.0 as int),
                    None => None::<int>,
                },
                lo matches Some(p) ==> p.0 < i && best_score(np@, candidates(fs[p.0 as int])) == Some(p.1.as_tuple()),
                hi matches Some(p) ==> p.0 < i && best_score(np@, candidates(fs[p.0 as int])) == Some(p.1.as_tuple()),
            decreases fs.len() - i,
        {
            let ghost pre = fs.take(i as int);
            assert(fs.take(i + 1).drop_last() =~= pre);
            assert(fs.take(i + 1)[i as int] == fs[i as int]);
            proof {
                lemma_scan_bounds(pre, np@);
                if lo is Some {
                    assert(fs.take(i + 1)[lo->Some_0.0 as int] == fs[lo->Some_0.0 as int]);
                }
                if hi is Some {
                    assert(fs.take(i + 1)[hi->Some_0.0 as int] == fs[hi->Some_0.0 as int]);
                }
            }
            let f = &self.fields[i];
            match field_best_score(np.as_str(), f) {
                None => {},
                Some(s) => {
                    let take_lo = match &lo {
                        Some(p) => key_less(&s, &f.path, &p.1, &self.fields[p.0].path),
                        None => true,
                    };
                    let take_hi = f.merge_explicit && match &hi {
                        Some(p) => key_less(&p.1, &self.fields[p.0].path, &s, &f.path),
                        None => true,
                    };
                    if take_lo && take_hi {
                        lo = Some((i, MetadataMatchScore { segment_count: s.segment_count, specificity: s.specificity, positional_specificity: s.positional_specificity.clone() }));
                        hi = Some((i, s));
                    } else if take_lo {
                        lo = Some((i, s));
                    } else if take_hi {
                        hi = Some((i, s));
                    }
                },
            }
            i = i + 1;
        }
        assert(fs.take(fs.len() as int) =~= fs);
        match hi {
            Some(p) => Some(self.fields[p.0].merge),
            None => match lo {
                Some(p) => Some(self.fields[p.0].merge),
                None => None,
            },
        }
    }
}

/// Why metadata was refused.
pub enum MetaFault {
    /// A path and the reason it is invalid.
    Invalid(Seq<char>, Seq<char>),
    /// Two declarations claim one name: the kind, the name, the first and
    /// the second.
    Conflict(Seq<char>, Seq<char>, Seq<char>, Seq<char>),
}

pub open spec fn meta_fault(e: ConfigError) -> Option<MetaFault> {
    match e {
        ConfigError::MetadataInvalid { path, message } => Some(MetaFault::Invalid(path@, message@)),
        ConfigError::MetadataConflict { kind, name, first_path, second_path } =>
            Some(MetaFault::Conflict(kind@, name@, first_path@, second_path@)),
        _ => None,
    }
}

/// Every path and alias of the fields can be read without an index too
/// large for `usize`.
pub open spec fn fields_readable(fs: Seq<FieldMetadata>) -> bool {
    forall|i: int| 0 <= i < fs.len() ==> !index_overflows(#[trigger] fs[i].path@)
        && forall|j: int| 0 <= j < fs[i].aliases@.len() ==> !index_overflows(#[trigger] fs[i].aliases@[j]@)
}

/// The checks of one field, in order: its path, then each alias.
pub open spec fn field_steps(f: FieldMetadata) -> Seq<(Seq<char>, Option<Seq<char>>)> {
    seq![(f.path@, None::<Seq<char>>)] + Seq::new(f.aliases@.len(), |j: int| (f.path@, Some(f.aliases@[j]@)))
}

pub open spec fn alias_steps(fs: Seq<FieldMetadata>) -> Seq<(Seq<char>, Option<Seq<char>>)> {
    fs.map_values(|f: FieldMetadata| field_steps(f)).flatten()
}

/// The declared field paths.
pub open spec fn canonical_set(fs: Seq<FieldMetadata>) -> Set<Seq<char>> {
    Set::new(|p: Seq<char>| exists|i: int| 0 <= i < fs.len() && #[trigger] fs[i].path@ == p)
}

/// The least alias already mapped that `a` (to `p`) overlaps ambiguously.
pub open spec fn first_ambiguous(m: Map<Seq<char>, Seq<char>>, a: Seq<char>, p: Seq<char>) -> Option<Seq<char>> {
    if exists|o: Seq<char>| m.contains_key(o) && #[trigger] aliases_ambiguous(a, p, o, m[o]) {
        Some(choose|o: Seq<char>| m.contains_key(o) && aliases_ambiguous(a, p, o, m[o])
            && forall|o2: Seq<char>| m.contains_key(o2) && #[trigger] aliases_ambiguous(a, p, o2, m[o2]) ==> !seq_lt(o2, o))
    } else {
        None
    }
}

pub open spec fn invalid_path_fault(p: Seq<char>) -> MetaFault {
    MetaFault::Invalid(p, "invalid metadata path: "@ + metadata_path_result(p)->Err_0)
}

/// One check of `alias_overrides`.
pub open spec fn alias_step(m: Map<Seq<char>, Seq<char>>, canon: Set<Seq<char>>, step: (Seq<char>, Option<Seq<char>>)) -> Result<Map<Seq<char>, Seq<char>>, MetaFault> {
    let p = step.0;
    match step.1 {
        None => if metadata_path_result(p) is Err { Err(invalid_path_fault(p)) } else { Ok(m) },
        Some(a) => if metadata_path_result(a) is Err {
            Err(invalid_path_fault(a))
        } else if a.len() == 0 {
            Err(MetaFault::Invalid(a, "aliases cannot target the root path"@))
        } else if p.len() == 0 {
            Err(MetaFault::Invalid(a, "aliases cannot rewrite the root path"@))
        } else if !alias_lossless(a, p) {
            Err(MetaFault::Invalid(a, "alias `"@ + a + "` must preserve wildcard positions and cannot be deeper than canonical path `"@ + p + "`"@))
        } else if canon.contains(a) && a != p {
            Err(MetaFault::Conflict("alias"@, a, a, p))
        } else if m.contains_key(a) && m[a] != p {
            Err(MetaFault::Conflict("alias"@, a, m[a], p))
        } else {
            match first_ambiguous(m, a, p) {
                Some(o) => Err(MetaFault::Invalid(a, "alias `"@ + a + "` overlaps ambiguously with `"@ + o + "` for concrete path `"@
                    + join(sample_segments(segments(a), segments(o)), seq!['.']) + "`"@)),
                None => Ok(m.insert(a, p)),
            }
        },
    }
}

/// The checks run in order; the first failure stops them.
pub open spec fn alias_run(steps: Seq<(Seq<char>, Option<Seq<char>>)>, canon: Set<Seq<char>>) -> Result<Map<Seq<char>, Seq<char>>, MetaFault>
    decreases steps.len(),
{
    if steps.len() == 0 {
        Ok(Map::empty())
    } else {
        match alias_run(steps.drop_last(), canon) {
            Ok(m) => alias_step(m, canon, steps.last()),
            Err(e) => Err(e),
        }
    }
}

proof fn lemma_alias_run_push(s: Seq<(Seq<char>, Option<Seq<char>>)>, x: (Seq<char>, Option<Seq<char>>), canon: Set<Seq<char>>)
    ensures
        alias_run(s.push(x), canon) == match alias_run(s, canon) {
            Ok(m) => alias_step(m, canon, x),
            Err(e) => Err(e),
        },
{
    assert(s.push(x).drop_last() =~= s);
}

proof fn lemma_alias_run_stops(s: Seq<(Seq<char>, Option<Seq<char>>)>, t: Seq<(Seq<char>, Option<Seq<char>>)>, canon: Set<Seq<char>>)
    requires
        alias_run(s, canon) is Err,
    ensures
        alias_run(s + t, canon) == alias_run(s, canon),
    decreases t.len(),
{
    if t.len() > 0 {
        lemma_alias_run_stops(s, t.drop_last(), canon);
        assert((s + t).drop_last() =~= s + t.drop_last());
    } else {
        assert(s + t =~= s);
    }
}

fn is_declared_path(fields: &Vec<FieldMetadata>, a: &str) -> (r: bool)
    ensures
        r == canonical_set(fields@).contains(a@),
{
    let mut i: usize = 0;
    while i < fields.len()
        invariant
            i <= fields@.len(),
            forall|j: int| 0 <= j < i ==> fields@[j].path@ != a@,
        decreases fields@.len() - i,
    {
        if str_eq(fields[i].path.as_str(), a) {
            assert(fields@[i as int].path@ == a@);
            return true;
        }
        i = i + 1;
    }
    false
}

impl ConfigMetadata {
    /// The explicit aliases, keyed by alias path: each alias must be
    /// readable, below the root, as deep as its field at most with the same
    /// wildcards, not another field's path, not mapped elsewhere, and not
    /// ambiguous with an alias already mapped.
    pub fn alias_overrides(&self) -> (r: Result<StrMap<String>, ConfigError>)
        requires
            fields_readable(self.fields_spec()),
        ensures
            match alias_run(alias_steps(self.fields_spec()), canonical_set(self.fields_spec())) {
                Ok(m) => r matches Ok(a) && a.wf() && strmap_view(a) == m,
                Err(f) => r matches Err(e) && meta_fault(e) == Some(f),
            },
    {
        proof {
            lemma_fields_spec(*self);
        }
        Self::alias_overrides_in(&self.fields)
    }

    /// The explicit aliases, keyed by alias path: each alias must be
    /// readable, below the root, as deep as its field at most with the same
    /// wildcards, not another field's path, not mapped elsewhere, and not
    /// ambiguous with an alias already mapped.
    #[verifier::rlimit(80)]
    #[verifier::spinoff_prover]
    fn alias_overrides_in(fields: &Vec<FieldMetadata>) -> (r: Result<StrMap<String>, ConfigError>)
        requires
            fields_readable(fields@),
        ensures
            match alias_run(alias_steps(fields@), canonical_set(fields@)) {
                Ok(m) => r matches Ok(a) && a.wf() && strmap_view(a) == m,
                Err(f) => r matches Err(e) && meta_fault(e) == Some(f),
            },
    {
        let ghost fs = fields@;
        let ghost canon = canonical_set(fs);
        let mut aliases: StrMap<String> = StrMap::new();
        assert(strmap_view(aliases) =~= Map::<Seq<char>, Seq<char>>::empty());
        let mut i: usize = 0;
        proof {
            lemma_no_steps(fs);
        }
        while i < fields.len()
            invariant
                i <= fs.len(),
                fs == fields@,
                canon == canonical_set(fs),
                fields_readable(fs),
                aliases.wf(),
                alias_run(alias_steps(fs.take(i as int)), canon) == Ok::<Map<Seq<char>, Seq<char>>, MetaFault>(strmap_view(aliases)),
            decreases fs.len() - i,
        {
            match Self::add_field(fields, i, &mut aliases) {
                Err(e) => {
                    return Err(e);
                },
                Ok(()) => {},
            }
            i = i + 1;
        }
        assert(fs.take(fs.len() as int) =~= fs);
        Ok(aliases)
    }

    /// Checks the path of field `i` and maps its aliases.
    #[verifier::spinoff_prover]
    fn add_field(fields: &Vec<FieldMetadata>, i: usize, aliases: &mut StrMap<String>) -> (r: Result<(), ConfigError>)
        requires
            i < fields@.len(),
            fields_readable(fields@),
            old(aliases).wf(),
            alias_run(alias_steps(fields@.take(i as int)), canonical_set(fields@))
                == Ok::<Map<Seq<char>, Seq<char>>, MetaFault>(strmap_view(*old(aliases))),
        ensures
            match r {
                Ok(()) => final(aliases).wf() && alias_run(alias_steps(fields@.take(i + 1)), canonical_set(fields@))
                    == Ok::<Map<Seq<char>, Seq<char>>, MetaFault>(strmap_view(*final(aliases))),
                Err(e) => alias_run(alias_steps(fields@), canonical_set(fields@)) matches Err(f) && meta_fault(e) == Some(f),
            },
    {
        let ghost fs = fields@;
        let ghost canon = canonical_set(fs);
        let field = &fields[i];
        let ghost done = alias_steps(fs.take(i as int));
        let ghost steps = field_steps(fs[i as int]);
        proof {
            lemma_steps_push(fs, i as int);
            lemma_alias_run_push(done, steps[0], canon);
            assert(done + steps.take(1) =~= done.push(steps[0]));
        }
        match validate_metadata_path(field.path.as_str()) {
            Err(e) => {
                proof {
                    lemma_fail_stays(fs, i as int, 0, canon);
                }
                return Err(e);
            },
            Ok(()) => {},
        }
        Self::add_field_aliases(fields, i, aliases)
    }

    /// Maps the aliases of field `i`, after those of the fields before it.
    #[verifier::rlimit(40)]
    fn add_field_aliases(fields: &Vec<FieldMetadata>, i: usize, aliases: &mut StrMap<String>) -> (r: Result<(), ConfigError>)
        requires
            i < fields@.len(),
            fields_readable(fields@),
            old(aliases).wf(),
            alias_run(alias_steps(fields@.take(i as int)) + field_steps(fields@[i as int]).take(1), canonical_set(fields@))
                == Ok::<Map<Seq<char>, Seq<char>>, MetaFault>(strmap_view(*old(aliases))),
        ensures
            match r {
                Ok(()) => final(aliases).wf() && alias_run(alias_steps(fields@.take(i + 1)), canonical_set(fields@))
                    == Ok::<Map<Seq<char>, Seq<char>>, MetaFault>(strmap_view(*final(aliases))),
                Err(e) => alias_run(alias_steps(fields@), canonical_set(fields@)) matches Err(f) && meta_fault(e) == Some(f),
            },
    {
        let ghost fs = fields@;
        let ghost canon = canonical_set(fs);
        let ghost done = alias_steps(fs.take(i as int));
        let ghost steps = field_steps(fs[i as int]);
        let field = &fields[i];
        proof {
            lemma_steps_push(fs, i as int);
        }
        let mut j: usize = 0;
            while j < field.aliases.len()
                invariant
                    i < fs.len(),
                    j <= fs[i as int].aliases@.len(),
                    fs == fields@,
                    *field == fs[i as int],
                    canon == canonical_set(fs),
                    fields_readable(fs),
                    aliases.wf(),
                    done == alias_steps(fs.take(i as int)),
                    steps == field_steps(fs[i as int]),
                    alias_steps(fs.take(i + 1)) == done + steps,
                    alias_run(done + steps.take(j + 1), canon) == Ok::<Map<Seq<char>, Seq<char>>, MetaFault>(strmap_view(*aliases)),
                decreases fs[i as int].aliases@.len() - j,
            {
                let alias = &field.aliases[j];
                let ghost m = strmap_view(*aliases);
                let ghost x = steps[j + 1];
                assert(x == (field.path@, Some(alias@)));
                proof {
                    lemma_alias_run_push(done + steps.take(j + 1), x, canon);
                    assert(done + steps.take(j + 2) =~= (done + steps.take(j + 1)).push(x));
                    assert(!index_overflows(fs[i as int].aliases@[j as int]@));
                }
                let res = Self::check_alias(fields, aliases, alias, &field.path);
                match res {
                    Err(e) => {
                        proof {
                            lemma_fail_stays(fs, i as int, j + 1, canon);
                        }
                        return Err(e);
                    },
                    Ok(()) => {},
                }
                let ghost av = alias@;
                let ghost pv = field.path@;
                aliases.insert(copy_string(alias), copy_string(&field.path));
                assert(strmap_view(*aliases) =~= m.insert(av, pv));
                j = j + 1;
            }
        assert(steps.take(fs[i as int].aliases@.len() + 1int) =~= steps);
        Ok(())
    }

    /// The checks of one alias against the aliases mapped so far.
    #[verifier::loop_isolation(false)]
    #[verifier::rlimit(80)]
    #[verifier::spinoff_prover]
    fn check_alias(fields: &Vec<FieldMetadata>, aliases: &StrMap<String>, alias: &String, path: &String) -> (r: Result<(), ConfigError>)
        requires
            aliases.wf(),
            !index_overflows(alias@),
        ensures
            match alias_step(strmap_view(*aliases), canonical_set(fields@), (path@, Some(alias@))) {
                Ok(m) => r is Ok && m == strmap_view(*aliases).insert(alias@, path@),
                Err(f) => r matches Err(e) && meta_fault(e) == Some(f),
            },
    {
        let ghost m = strmap_view(*aliases);
        match validate_metadata_path(alias.as_str()) {
            Err(e) => {
                return Err(e);
            },
            Ok(()) => {},
        }
        if alias.as_str().is_empty() {
            return Err(ConfigError::MetadataInvalid { path: copy_string(alias), message: "aliases cannot target the root path".to_string() });
        }
        if path.as_str().is_empty() {
            return Err(ConfigError::MetadataInvalid { path: copy_string(alias), message: "aliases cannot rewrite the root path".to_string() });
        }
        if !alias_mapping_is_lossless(alias.as_str(), path.as_str()) {
            let message = cat(&cat(&cat(&cat("alias `", alias.as_str()), "` must preserve wildcard positions and cannot be deeper than canonical path `"), path.as_str()), "`");
            return Err(ConfigError::MetadataInvalid { path: copy_string(alias), message });
        }
        if is_declared_path(fields, alias.as_str()) && !str_eq(alias.as_str(), path.as_str()) {
            return Err(ConfigError::MetadataConflict { kind: "alias".to_string(), name: copy_string(alias), first_path: copy_string(alias), second_path: copy_string(path) });
        }
        match aliases.get(alias.as_str()) {
            Some(first) => {
                if !str_eq(first.as_str(), path.as_str()) {
                    return Err(ConfigError::MetadataConflict { kind: "alias".to_string(), name: copy_string(alias), first_path: copy_string(first), second_path: copy_string(path) });
                }
            },
            None => {},
        }
        let ghost es = aliases.entries();
        proof {
            StrMap::<String>::lemma_keys_are_entries(*aliases);
        }
        let mut k: usize = 0;
        while k < aliases.len()
            invariant
                k <= es.len(),
                es == aliases.entries(),
                aliases.wf(),
                m == strmap_view(*aliases),
                forall|j: int| 0 <= j < k ==> !aliases_ambiguous(alias@, path@, #[trigger] es[j].0@, es[j].1@),
            decreases es.len() - k,
        {
            let (other, other_canonical) = aliases.entry_at(k);
            if alias_patterns_are_ambiguous(alias.as_str(), path.as_str(), other.as_str(), other_canonical.as_str()) {
                let ghost o = other@;
                proof {
                    StrMap::<String>::lemma_keys_distinct(*aliases, k as int);
                    StrMap::<String>::lemma_keys_are_entries(*aliases);
                    aliases.lemma_wf_sorted();
                    assert(m.contains_key(o) && m[o] == other_canonical@);
                    assert forall|o2: Seq<char>| m.contains_key(o2) && #[trigger] aliases_ambiguous(alias@, path@, o2, m[o2]) implies !seq_lt(o2, o) by {
                        let jj = choose|jj: int| 0 <= jj < es.len() && #[trigger] es[jj].0@ == o2;
                        StrMap::<String>::lemma_keys_distinct(*aliases, jj);
                        lemma_lt_irrefl(o2);
                        if jj > k as int {
                            assert(crate::strmap::seq_lt(es[k as int].0@, es[jj].0@));
                            lemma_lt_total(o, o2);
                        }
                    }
                    let c = first_ambiguous(m, alias@, path@)->Some_0;
                    assert(m.contains_key(c) && aliases_ambiguous(alias@, path@, c, m[c]));
                    assert(!seq_lt(c, o));
                    assert(!seq_lt(o, c));
                    lemma_lt_total(c, o);
                }
                let sample = alias_overlap_sample_path(alias.as_str(), other.as_str());
                let message = cat(&cat(&cat(&cat(&cat(&cat("alias `", alias.as_str()), "` overlaps ambiguously with `"), other.as_str()), "` for concrete path `"), sample.as_str()), "`");
                return Err(ConfigError::MetadataInvalid { path: copy_string(alias), message });
            }
            k = k + 1;
        }
        proof {
            assert forall|o: Seq<char>| m.contains_key(o) implies !#[trigger] aliases_ambiguous(alias@, path@, o, m[o]) by {
                let jj = choose|jj: int| 0 <= jj < es.len() && #[trigger] es[jj].0@ == o;
                StrMap::<String>::lemma_keys_distinct(*aliases, jj);
            }
        }
        Ok(())
    }
}

proof fn lemma_steps_push(fs: Seq<FieldMetadata>, i: int)
    requires
        0 <= i < fs.len(),
    ensures
        alias_steps(fs.take(i + 1)) == alias_steps(fs.take(i)) + field_steps(fs[i]),
{
    let a = fs.take(i).map_values(|f: FieldMetadata| field_steps(f));
    assert(fs.take(i + 1).map_values(|f: FieldMetadata| field_steps(f)) =~= a.push(field_steps(fs[i])));
    a.lemma_flatten_push(field_steps(fs[i]));
}

/// A failure part-way through one field's checks is the overall outcome.
proof fn lemma_fail_stays(fs: Seq<FieldMetadata>, i: int, j: int, canon: Set<Seq<char>>)
    requires
        0 <= i < fs.len(),
        0 <= j <= fs[i].aliases@.len(),
        alias_run(alias_steps(fs.take(i)) + field_steps(fs[i]).take(j + 1), canon) is Err,
    ensures
        alias_run(alias_steps(fs), canon) == alias_run(alias_steps(fs.take(i)) + field_steps(fs[i]).take(j + 1), canon),
{
    let steps = field_steps(fs[i]);
    let prefix = alias_steps(fs.take(i)) + steps.take(j + 1);
    lemma_steps_push(fs, i);
    lemma_steps_prefix(fs, i + 1);
    let rest = alias_steps(fs).skip(alias_steps(fs.take(i + 1)).len() as int);
    lemma_alias_run_stops(prefix, steps.skip(j + 1) + rest, canon);
    assert(prefix + (steps.skip(j + 1) + rest) =~= alias_steps(fs));
}

proof fn lemma_steps_prefix(fs: Seq<FieldMetadata>, n: int)
    requires
        0 <= n <= fs.len(),
    ensures
        alias_steps(fs) == alias_steps(fs.take(n)) + alias_steps(fs).skip(alias_steps(fs.take(n)).len() as int),
    decreases fs.len() - n,
{
    if n < fs.len() {
        lemma_steps_prefix(fs, n + 1);
        let a = fs.take(n).map_values(|f: FieldMetadata| field_steps(f));
        assert(fs.take(n + 1).map_values(|f: FieldMetadata| field_steps(f)) =~= a.push(field_steps(fs[n])));
        a.lemma_flatten_push(field_steps(fs[n]));
        assert(alias_steps(fs) =~= alias_steps(fs.take(n)) + alias_steps(fs).skip(alias_steps(fs.take(n)).len() as int));
    } else {
        assert(fs.take(n) =~= fs);
        assert(alias_steps(fs).skip(alias_steps(fs).len() as int) =~= Seq::<(Seq<char>, Option<Seq<char>>)>::empty());
        assert(alias_steps(fs) + Seq::<(Seq<char>, Option<Seq<char>>)>::empty() =~= alias_steps(fs));
    }
}

/// What `fields_spec` is.
pub(crate) proof fn lemma_fields_spec(m: ConfigMetadata)
    ensures
        m.fields_spec() == m.fields@,
{
}

proof fn lemma_no_steps(fs: Seq<FieldMetadata>)
    ensures
        alias_steps(fs.take(0)) == Seq::<(Seq<char>, Option<Seq<char>>)>::empty(),
{
    assert(fs.take(0).map_values(|f: FieldMetadata| field_steps(f)) =~= Seq::<Seq<(Seq<char>, Option<Seq<char>>)>>::empty());
    assert(alias_steps(fs.take(0)) =~= Seq::<(Seq<char>, Option<Seq<char>>)>::empty());
}

/// What `checks_spec` is.
pub(crate) proof fn lemma_checks_spec(m: ConfigMetadata)
    ensures
        m.checks_spec() == m.checks@.map_values(|c: ValidationCheck| check_model(c)),
        m.check_list() == m.checks@,
{
}

} // verus!
