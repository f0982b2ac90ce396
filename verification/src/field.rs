//! Building field metadata, and the normal form a metadata set keeps its
//! fields in: one field per normalized path, duplicates merged in order.
use vstd::prelude::*;
use crate::text::{string_views, copy_string};
use crate::strmap::{StrMap, seq_lt, lemma_lt_irrefl, lemma_lt_trans, lemma_lt_total, sorted_keys};
use crate::syntax::{metadata_path_result, index_overflows, normalize_metadata_path, lemma_metadata_form_readable, law_metadata_normal_form};
use crate::metadata::{EnvDecoder, MergeStrategy, kind_set, source_kind_set};
use crate::sources::{SourceKind, opt_view};
use crate::arrays::set_view;
use crate::config::{FieldMetadata, ConfigMetadata, best_score, candidates, field_best_score};
use crate::metadata::{MetadataMatchScore, score_lt};
use crate::syntax::try_normalize_metadata_path;

verus! {

/// What a field declares, with its aliases as a set.
pub struct FieldModel {
    pub aliases: Set<Seq<char>>,
    pub secret: bool,
    pub env: Option<Seq<char>>,
    pub env_decode: Option<EnvDecoder>,
    pub doc: Option<Seq<char>>,
    pub example: Option<Seq<char>>,
    pub deprecated: Option<Seq<char>>,
    pub has_default: bool,
    pub merge: MergeStrategy,
    pub merge_explicit: bool,
    pub allowed: Option<Seq<SourceKind>>,
    pub denied: Option<Seq<SourceKind>>,
}

pub open spec fn kinds_view(o: Option<Vec<SourceKind>>) -> Option<Seq<SourceKind>> {
    match o {
        Some(v) => Some(v@),
        None => None,
    }
}

/// The declarations of a field.
pub open spec fn field_model(f: FieldMetadata) -> FieldModel {
    FieldModel {
        aliases: string_views(f.aliases@).to_set(),
        secret: f.secret,
        env: opt_view(f.env),
        env_decode: f.env_decode,
        doc: opt_view(f.doc),
        example: opt_view(f.example),
        deprecated: opt_view(f.deprecated),
        has_default: f.has_default,
        merge: f.merge,
        merge_explicit: f.merge_explicit,
        allowed: kinds_view(f.allowed_sources),
        denied: kinds_view(f.denied_sources),
    }
}

/// Paths in strictly ascending order (sorted, each once).
pub open spec fn ascending(v: Seq<Seq<char>>) -> bool {
    forall|a: int, b: int| 0 <= a < b < v.len() ==> seq_lt(#[trigger] v[a], #[trigger] v[b])
}

/// A metadata path in normal form, or unchanged when it cannot be read.
pub open spec fn meta_norm(p: Seq<char>) -> Seq<char> {
    match metadata_path_result(p) {
        Ok(q) => q,
        Err(_) => p,
    }
}

/// Normalizing a metadata path twice is normalizing it once.
pub proof fn law_meta_norm_idempotent(p: Seq<char>)
    ensures
        meta_norm(meta_norm(p)) == meta_norm(p),
{
    if metadata_path_result(p) is Ok {
        law_metadata_normal_form(p);
    }
}

/// A field as normalization leaves it: its path and aliases normalized, and
/// no alias equal to the path.
pub open spec fn field_canonical(f: FieldMetadata) -> bool {
    &&& meta_norm(f.path@) == f.path@
    &&& forall|i: int| 0 <= i < f.aliases@.len() ==> meta_norm(#[trigger] f.aliases@[i]@) == f.aliases@[i]@
        && f.aliases@[i]@ != f.path@
}

/// The paths of a field can be normalized.
pub open spec fn field_paths_readable(f: FieldMetadata) -> bool {
    &&& !index_overflows(f.path@)
    &&& forall|i: int| 0 <= i < f.aliases@.len() ==> !index_overflows(#[trigger] f.aliases@[i]@)
}

/// A field with its path normalized, and its aliases normalized, without
/// the path itself, sorted and each once.
pub open spec fn normalized_model(f: FieldMetadata) -> FieldModel {
    let p = meta_norm(f.path@);
    FieldModel {
        aliases: string_views(f.aliases@).map_values(|a: Seq<char>| meta_norm(a)).to_set().remove(p),
        ..field_model(f)
    }
}

/// `b` merged into `a`: aliases joined, flags or-ed, and every declaration
/// that `b` makes replacing that of `a`.
pub open spec fn merge_models(a: FieldModel, b: FieldModel) -> FieldModel {
    FieldModel {
        aliases: a.aliases + b.aliases,
        secret: a.secret || b.secret,
        env: if b.env is Some { b.env } else { a.env },
        env_decode: if b.env_decode is Some { b.env_decode } else { a.env_decode },
        doc: if b.doc is Some { b.doc } else { a.doc },
        example: if b.example is Some { b.example } else { a.example },
        deprecated: if b.deprecated is Some { b.deprecated } else { a.deprecated },
        has_default: a.has_default || b.has_default,
        merge: if b.merge_explicit { b.merge } else { a.merge },
        merge_explicit: a.merge_explicit || b.merge_explicit,
        allowed: if b.allowed is Some { b.allowed } else { a.allowed },
        denied: if b.denied is Some { b.denied } else { a.denied },
    }
}

/// The fields `fs` merged by normalized path, in order.
pub open spec fn merged_fields(fs: Seq<FieldMetadata>) -> Map<Seq<char>, FieldModel>
    decreases fs.len(),
{
    if fs.len() == 0 {
        Map::empty()
    } else {
        let m = merged_fields(fs.drop_last());
        let f = fs.last();
        let p = meta_norm(f.path@);
        if m.contains_key(p) {
            m.insert(p, merge_models(m[p], normalized_model(f)))
        } else {
            m.insert(p, normalized_model(f))
        }
    }
}

/// The declarations of a list of fields by path (a later field wins).
pub open spec fn fields_map(fs: Seq<FieldMetadata>) -> Map<Seq<char>, FieldModel>
    decreases fs.len(),
{
    if fs.len() == 0 {
        Map::empty()
    } else {
        fields_map(fs.drop_last()).insert(fs.last().path@, field_model(fs.last()))
    }
}

/// Fields in normal form: ascending by path, aliases ascending.
pub open spec fn fields_normal(fs: Seq<FieldMetadata>) -> bool {
    &&& forall|a: int, b: int| 0 <= a < b < fs.len() ==> seq_lt(#[trigger] fs[a].path@, #[trigger] fs[b].path@)
    &&& forall|i: int| 0 <= i < fs.len() ==> ascending(string_views(#[trigger] fs[i].aliases@))
}

pub(crate) fn copy_opt(o: &Option<String>) -> (r: Option<String>)
    ensures
        opt_view(r) == opt_view(*o),
{
    match o {
        Some(s) => Some(copy_string(s)),
        None => None,
    }
}

pub(crate) fn copy_strings(v: &Vec<String>) -> (r: Vec<String>)
    ensures
        string_views(r@) == string_views(v@),
{
    let mut out: Vec<String> = Vec::new();
    let mut i: usize = 0;
    while i < v.len()
        invariant
            i <= v@.len(),
            string_views(out@) == string_views(v@).take(i as int),
        decreases v@.len() - i,
    {
        let ghost before = out@;
        out.push(copy_string(&v[i]));
        assert(string_views(out@) =~= string_views(before).push(v@[i as int]@));
        assert(string_views(v@).take(i + 1) =~= string_views(v@).take(i as int).push(v@[i as int]@));
        i = i + 1;
    }
    assert(string_views(v@).take(v@.len() as int) =~= string_views(v@));
    out
}

pub(crate) fn copy_kinds(o: &Option<Vec<SourceKind>>) -> (r: Option<Vec<SourceKind>>)
    ensures
        kinds_view(r) == kinds_view(*o),
{
    match o {
        Some(v) => {
            let mut out: Vec<SourceKind> = Vec::new();
            let mut i: usize = 0;
            while i < v.len()
                invariant
                    i <= v@.len(),
                    out@ == v@.take(i as int),
                decreases v@.len() - i,
            {
                out.push(v[i]);
                assert(out@ =~= v@.take(i + 1));
                i = i + 1;
            }
            assert(v@.take(v@.len() as int) =~= v@);
            Some(out)
        },
        None => None,
    }
}

/// A copy of a field.
pub fn copy_field(f: &FieldMetadata) -> (r: FieldMetadata)
    ensures
        r.path@ == f.path@,
        string_views(r.aliases@) == string_views(f.aliases@),
        field_model(r) == field_model(*f),
        field_paths_readable(*f) ==> field_paths_readable(r),
        field_canonical(*f) ==> field_canonical(r),
{
    let r = FieldMetadata {
        path: copy_string(&f.path),
        aliases: copy_strings(&f.aliases),
        secret: f.secret,
        env: copy_opt(&f.env),
        env_decode: f.env_decode,
        doc: copy_opt(&f.doc),
        example: copy_opt(&f.example),
        deprecated: copy_opt(&f.deprecated),
        has_default: f.has_default,
        merge: f.merge,
        merge_explicit: f.merge_explicit,
        allowed_sources: copy_kinds(&f.allowed_sources),
        denied_sources: copy_kinds(&f.denied_sources),
    };
    proof {
        let rv = string_views(r.aliases@);
        let fv = string_views(f.aliases@);
        assert(rv.len() == r.aliases@.len() && fv.len() == f.aliases@.len());
        assert forall|i: int| 0 <= i < r.aliases@.len() implies #[trigger] r.aliases@[i]@ == f.aliases@[i]@ by {
            assert(rv[i] == r.aliases@[i]@);
            assert(fv[i] == f.aliases@[i]@);
        }
    }
    r
}

impl FieldMetadata {
    /// Metadata for a single configuration path (normalized), with nothing
    /// declared yet.
    pub fn new(path: &str) -> (r: Self)
        requires
            !index_overflows(path@),
        ensures
            r.path@ == meta_norm(path@),
            r.aliases@.len() == 0,
            field_model(r) == (FieldModel {
                aliases: Set::empty(),
                secret: false,
                env: None,
                env_decode: None,
                doc: None,
                example: None,
                deprecated: None,
                has_default: false,
                merge: MergeStrategy::Merge,
                merge_explicit: false,
                allowed: None,
                denied: None,
            }),
    {
        let r = FieldMetadata {
            path: normalize_metadata_path(path),
            aliases: Vec::new(),
            secret: false,
            env: None,
            env_decode: None,
            doc: None,
            example: None,
            deprecated: None,
            has_default: false,
            merge: MergeStrategy::Merge,
            merge_explicit: false,
            allowed_sources: None,
            denied_sources: None,
        };
        assert(string_views(r.aliases@).to_set() =~= Set::<Seq<char>>::empty());
        r
    }

    /// Adds an alternate path for this field.
    pub fn alias(self, alias: &str) -> (r: Self)
        ensures
            r.path@ == self.path@,
            string_views(r.aliases@) == string_views(self.aliases@).push(alias@),
            field_model(r) == (FieldModel { aliases: field_model(self).aliases.insert(alias@), ..field_model(self) }),
    {
        let mut s = self;
        let ghost before = string_views(s.aliases@);
        s.aliases.push(alias.to_string());
        assert(string_views(s.aliases@) =~= before.push(alias@));
        assert forall|x: Seq<char>| #[trigger] string_views(s.aliases@).to_set().contains(x)
            == before.to_set().insert(alias@).contains(x) by {
            let after = string_views(s.aliases@);
            if after.contains(x) {
                let k = choose|k: int| 0 <= k < after.len() && after[k] == x;
                if k < before.len() {
                    assert(before[k] == x);
                }
            }
            if before.contains(x) {
                let k = choose|k: int| 0 <= k < before.len() && before[k] == x;
                assert(after[k] == x);
            }
            if x == alias@ {
                assert(after[before.len() as int] == x);
            }
        }
        assert(string_views(s.aliases@).to_set() =~= before.to_set().insert(alias@));
        s
    }

    /// Marks this path as sensitive.
    pub fn secret(self) -> (r: Self)
        ensures
            r.path@ == self.path@,
            string_views(r.aliases@) == string_views(self.aliases@),
            field_model(r) == (FieldModel { secret: true, ..field_model(self) }),
    {
        FieldMetadata { secret: true, ..self }
    }

    /// Sets the environment variable name for this path.
    pub fn env(self, env: &str) -> (r: Self)
        ensures
            r.path@ == self.path@,
            string_views(r.aliases@) == string_views(self.aliases@),
            field_model(r) == (FieldModel { env: Some(env@), ..field_model(self) }),
    {
        FieldMetadata { env: Some(env.to_string()), ..self }
    }

    /// Decodes environment values for this path with a built-in decoder.
    pub fn env_decoder(self, decoder: EnvDecoder) -> (r: Self)
        ensures
            r.path@ == self.path@,
            string_views(r.aliases@) == string_views(self.aliases@),
            field_model(r) == (FieldModel { env_decode: Some(decoder), ..field_model(self) }),
    {
        FieldMetadata { env_decode: Some(decoder), ..self }
    }

    /// Adds human-readable field documentation.
    pub fn doc(self, doc: &str) -> (r: Self)
        ensures
            r.path@ == self.path@,
            string_views(r.aliases@) == string_views(self.aliases@),
            field_model(r) == (FieldModel { doc: Some(doc@), ..field_model(self) }),
    {
        FieldMetadata { doc: Some(doc.to_string()), ..self }
    }

    /// Adds an example value for generated docs.
    pub fn example(self, example: &str) -> (r: Self)
        ensures
            r.path@ == self.path@,
            string_views(r.aliases@) == string_views(self.aliases@),
            field_model(r) == (FieldModel { example: Some(example@), ..field_model(self) }),
    {
        FieldMetadata { example: Some(example.to_string()), ..self }
    }

    /// Marks the field as deprecated, with a note.
    pub fn deprecated(self, note: &str) -> (r: Self)
        ensures
            r.path@ == self.path@,
            string_views(r.aliases@) == string_views(self.aliases@),
            field_model(r) == (FieldModel { deprecated: Some(note@), ..field_model(self) }),
    {
        FieldMetadata { deprecated: Some(note.to_string()), ..self }
    }

    /// Marks the field as having a default, so it may be omitted.
    pub fn defaulted(self) -> (r: Self)
        ensures
            r.path@ == self.path@,
            string_views(r.aliases@) == string_views(self.aliases@),
            field_model(r) == (FieldModel { has_default: true, ..field_model(self) }),
    {
        FieldMetadata { has_default: true, ..self }
    }

    /// Sets the field's merge strategy explicitly.
    pub fn merge_strategy(self, merge: MergeStrategy) -> (r: Self)
        ensures
            r.path@ == self.path@,
            string_views(r.aliases@) == string_views(self.aliases@),
            field_model(r) == (FieldModel { merge, merge_explicit: true, ..field_model(self) }),
    {
        FieldMetadata { merge, merge_explicit: true, ..self }
    }

    /// Restricts the field to the given source kinds (kept as a set, in
    /// kind order).
    pub fn allow_sources(self, sources: Vec<SourceKind>) -> (r: Self)
        ensures
            r.path@ == self.path@,
            string_views(r.aliases@) == string_views(self.aliases@),
            field_model(r) == (FieldModel { allowed: Some(kind_set(sources@)), ..field_model(self) }),
    {
        let set = source_kind_set(&sources);
        FieldMetadata { allowed_sources: Some(set), ..self }
    }

    /// Denies the given source kinds (kept as a set, in kind order).
    pub fn deny_sources(self, sources: Vec<SourceKind>) -> (r: Self)
        ensures
            r.path@ == self.path@,
            string_views(r.aliases@) == string_views(self.aliases@),
            field_model(r) == (FieldModel { denied: Some(kind_set(sources@)), ..field_model(self) }),
    {
        let set = source_kind_set(&sources);
        FieldMetadata { denied_sources: Some(set), ..self }
    }
}

/// The paths of a set, in ascending order.
pub open spec fn key_seq(m: StrMap<()>) -> Seq<Seq<char>> {
    m.entries().map_values(|e: (String, ())| e.0@)
}

/// The keys of a set of paths, ascending.
pub fn keys_of(m: &StrMap<()>) -> (r: Vec<String>)
    requires
        m.wf(),
    ensures
        ascending(string_views(r@)),
        string_views(r@).to_set() == set_view(*m),
        string_views(r@) == key_seq(*m),
{
    let ghost es = m.entries();
    proof {
        m.lemma_wf_sorted();
        StrMap::<()>::lemma_keys_are_entries(*m);
    }
    let mut out: Vec<String> = Vec::new();
    let mut i: usize = 0;
    while i < m.len()
        invariant
            i <= es.len(),
            es == m.entries(),
            sorted_keys(es),
            string_views(out@).len() == i,
            forall|j: int| 0 <= j < i ==> #[trigger] string_views(out@)[j] == es[j].0@,
        decreases es.len() - i,
    {
        let (k, _u) = m.entry_at(i);
        let ghost before = string_views(out@);
        out.push(copy_string(k));
        assert(string_views(out@) =~= before.push(es[i as int].0@));
        i = i + 1;
    }
    let ghost sv = string_views(out@);
    assert(sv =~= key_seq(*m));
    assert forall|a: int, b: int| 0 <= a < b < sv.len() implies seq_lt(#[trigger] sv[a], #[trigger] sv[b]) by {
        assert(seq_lt(es[a].0@, es[b].0@));
    }
    assert forall|x: Seq<char>| #[trigger] sv.to_set().contains(x) == set_view(*m).contains(x) by {
        if sv.contains(x) {
            let j = choose|j: int| 0 <= j < sv.len() && sv[j] == x;
            assert(es[j].0@ == x);
        }
        if set_view(*m).contains(x) {
            let j = choose|j: int| 0 <= j < es.len() && #[trigger] es[j].0@ == x;
            assert(sv[j] == x);
        }
    }
    assert(sv.to_set() =~= set_view(*m));
    out
}

proof fn lemma_norm_readable(p: Seq<char>)
    requires
        !index_overflows(p),
    ensures
        !index_overflows(meta_norm(p)),
{
    if metadata_path_result(p) is Ok {
        lemma_metadata_form_readable(p);
    }
}

/// A field in normal form: path normalized, aliases normalized, without
/// the path, sorted and each once.
pub fn normalize_field(f: &FieldMetadata) -> (r: FieldMetadata)
    requires
        field_paths_readable(*f),
    ensures
        r.path@ == meta_norm(f.path@),
        field_model(r) == normalized_model(*f),
        ascending(string_views(r.aliases@)),
        field_paths_readable(r),
        field_canonical(r),
{
    proof {
        lemma_norm_readable(f.path@);
        law_meta_norm_idempotent(f.path@);
    }
    let path = normalize_metadata_path(f.path.as_str());
    let ghost av = string_views(f.aliases@);
    let ghost p = path@;
    let mut set: StrMap<()> = StrMap::new();
    let mut i: usize = 0;
    assert(set_view(set) =~= Set::<Seq<char>>::empty());
    while i < f.aliases.len()
        invariant
            i <= f.aliases@.len(),
            av == string_views(f.aliases@),
            p == path@,
            field_paths_readable(*f),
            set.wf(),
            set_view(set) == av.take(i as int).map_values(|a: Seq<char>| meta_norm(a)).to_set().remove(p),
        decreases f.aliases@.len() - i,
    {
        let na = normalize_metadata_path(f.aliases[i].as_str());
        assert(av[i as int] == f.aliases@[i as int]@);
        assert(na@ == meta_norm(av[i as int]));
        let ghost old_set = set;
        let keep = !crate::text::str_eq(na.as_str(), path.as_str());
        if keep {
            set.insert(na, ());
        }
        let ghost nxt = av.take(i + 1).map_values(|a: Seq<char>| meta_norm(a));
        let ghost prv = av.take(i as int).map_values(|a: Seq<char>| meta_norm(a));
        let ghost m = meta_norm(av[i as int]);
        assert(nxt =~= prv.push(m));
        assert(nxt.to_set() =~= prv.to_set().insert(m)) by {
            assert forall|x: Seq<char>| #[trigger] nxt.to_set().contains(x) == prv.to_set().insert(m).contains(x) by {
                if nxt.contains(x) {
                    let k = choose|k: int| 0 <= k < nxt.len() && nxt[k] == x;
                    if k < prv.len() {
                        assert(prv[k] == x);
                    }
                }
                if prv.contains(x) {
                    let k = choose|k: int| 0 <= k < prv.len() && prv[k] == x;
                    assert(nxt[k] == x);
                }
                if x == m {
                    assert(nxt[i as int] == x);
                }
            }
        }
        if keep {
            assert(set_view(set) =~= set_view(old_set).insert(m)) by {
                assert forall|x: Seq<char>| #[trigger] set_view(set).contains(x) == set_view(old_set).insert(m).contains(x) by {
                    if x != m {
                        assert(set.get_spec(x) == old_set.get_spec(x));
                    }
                }
            }
        } else {
            assert(m == p);
        }
        assert(set_view(set) =~= nxt.to_set().remove(p));
        i = i + 1;
    }
    assert(av.take(f.aliases@.len() as int) =~= av);
    let aliases = keys_of(&set);
    let r = FieldMetadata {
        path,
        aliases,
        secret: f.secret,
        env: copy_opt(&f.env),
        env_decode: f.env_decode,
        doc: copy_opt(&f.doc),
        example: copy_opt(&f.example),
        deprecated: copy_opt(&f.deprecated),
        has_default: f.has_default,
        merge: f.merge,
        merge_explicit: f.merge_explicit,
        allowed_sources: copy_kinds(&f.allowed_sources),
        denied_sources: copy_kinds(&f.denied_sources),
    };
    assert(field_model(r) =~= normalized_model(*f));
    proof {
        let rv = string_views(r.aliases@);
        assert forall|i: int| 0 <= i < r.aliases@.len() implies !index_overflows(#[trigger] r.aliases@[i]@) by {
            assert(rv[i] == r.aliases@[i]@);
            assert(rv.to_set().contains(rv[i]));
            let nv = av.map_values(|a: Seq<char>| meta_norm(a));
            assert(nv.to_set().contains(rv[i]));
            let k = choose|k: int| 0 <= k < nv.len() && nv[k] == rv[i];
            assert(av[k] == f.aliases@[k]@);
            assert(!index_overflows(f.aliases@[k]@));
            lemma_norm_readable(av[k]);
        }
        assert forall|i: int| 0 <= i < r.aliases@.len() implies meta_norm(#[trigger] r.aliases@[i]@) == r.aliases@[i]@
            && r.aliases@[i]@ != r.path@ by {
            assert(rv[i] == r.aliases@[i]@);
            assert(rv.to_set().contains(rv[i]));
            let nv = av.map_values(|a: Seq<char>| meta_norm(a));
            assert(nv.to_set().remove(p).contains(rv[i]));
            let k = choose|k: int| 0 <= k < nv.len() && nv[k] == rv[i];
            law_meta_norm_idempotent(av[k]);
        }
    }
    r
}

/// Merges the declarations of `b` into a copy of `a` (same path).
pub fn merge_fields(a: &FieldMetadata, b: &FieldMetadata) -> (r: FieldMetadata)
    ensures
        r.path@ == a.path@,
        field_model(r) == merge_models(field_model(*a), field_model(*b)),
        ascending(string_views(r.aliases@)),
        field_paths_readable(*a) && field_paths_readable(*b) ==> field_paths_readable(r),
        field_canonical(*a) && field_canonical(*b) && a.path@ == b.path@ ==> field_canonical(r),
{
    let ghost av = string_views(a.aliases@);
    let ghost bv = string_views(b.aliases@);
    let mut set: StrMap<()> = StrMap::new();
    assert(set_view(set) =~= Set::<Seq<char>>::empty());
    let mut i: usize = 0;
    while i < a.aliases.len()
        invariant
            i <= a.aliases@.len(),
            av == string_views(a.aliases@),
            set.wf(),
            set_view(set) == av.take(i as int).to_set(),
        decreases a.aliases@.len() - i,
    {
        assert(av[i as int] == a.aliases@[i as int]@);
        let ghost old_set = set;
        set.insert(copy_string(&a.aliases[i]), ());
        let ghost m = av[i as int];
        assert(set_view(set) =~= set_view(old_set).insert(m)) by {
            assert forall|x: Seq<char>| #[trigger] set_view(set).contains(x) == set_view(old_set).insert(m).contains(x) by {
                if x != m {
                    assert(set.get_spec(x) == old_set.get_spec(x));
                }
            }
        }
        let ghost t = av.take(i + 1);
        let ghost u = av.take(i as int);
        assert(t =~= u.push(m));
        assert forall|x: Seq<char>| #[trigger] t.to_set().contains(x) == u.to_set().insert(m).contains(x) by {
            if t.contains(x) {
                let k = choose|k: int| 0 <= k < t.len() && t[k] == x;
                if k < u.len() {
                    assert(u[k] == x);
                }
            }
            if u.contains(x) {
                let k = choose|k: int| 0 <= k < u.len() && u[k] == x;
                assert(t[k] == x);
            }
            if x == m {
                assert(t[i as int] == x);
            }
        }
        assert(set_view(set) =~= av.take(i + 1).to_set());
        i = i + 1;
    }
    assert(av.take(a.aliases@.len() as int) =~= av);
    let mut j: usize = 0;
    while j < b.aliases.len()
        invariant
            j <= b.aliases@.len(),
            av == string_views(a.aliases@),
            bv == string_views(b.aliases@),
            set.wf(),
            set_view(set) == av.to_set() + bv.take(j as int).to_set(),
        decreases b.aliases@.len() - j,
    {
        assert(bv[j as int] == b.aliases@[j as int]@);
        let ghost old_set = set;
        set.insert(copy_string(&b.aliases[j]), ());
        let ghost m = bv[j as int];
        assert(set_view(set) =~= set_view(old_set).insert(m)) by {
            assert forall|x: Seq<char>| #[trigger] set_view(set).contains(x) == set_view(old_set).insert(m).contains(x) by {
                if x != m {
                    assert(set.get_spec(x) == old_set.get_spec(x));
                }
            }
        }
        let ghost t = bv.take(j + 1);
        let ghost u = bv.take(j as int);
        assert(t =~= u.push(m));
        assert forall|x: Seq<char>| #[trigger] t.to_set().contains(x) == u.to_set().insert(m).contains(x) by {
            if t.contains(x) {
                let k = choose|k: int| 0 <= k < t.len() && t[k] == x;
                if k < u.len() {
                    assert(u[k] == x);
                }
            }
            if u.contains(x) {
                let k = choose|k: int| 0 <= k < u.len() && u[k] == x;
                assert(t[k] == x);
            }
            if x == m {
                assert(t[j as int] == x);
            }
        }
        assert(set_view(set) =~= av.to_set() + bv.take(j + 1).to_set());
        j = j + 1;
    }
    assert(bv.take(b.aliases@.len() as int) =~= bv);
    let aliases = keys_of(&set);
    let r = FieldMetadata {
        path: copy_string(&a.path),
        aliases,
        secret: a.secret || b.secret,
        env: if b.env.is_some() { copy_opt(&b.env) } else { copy_opt(&a.env) },
        env_decode: if b.env_decode.is_some() { b.env_decode } else { a.env_decode },
        doc: if b.doc.is_some() { copy_opt(&b.doc) } else { copy_opt(&a.doc) },
        example: if b.example.is_some() { copy_opt(&b.example) } else { copy_opt(&a.example) },
        deprecated: if b.deprecated.is_some() { copy_opt(&b.deprecated) } else { copy_opt(&a.deprecated) },
        has_default: a.has_default || b.has_default,
        merge: if b.merge_explicit { b.merge } else { a.merge },
        merge_explicit: a.merge_explicit || b.merge_explicit,
        allowed_sources: if b.allowed_sources.is_some() { copy_kinds(&b.allowed_sources) } else { copy_kinds(&a.allowed_sources) },
        denied_sources: if b.denied_sources.is_some() { copy_kinds(&b.denied_sources) } else { copy_kinds(&a.denied_sources) },
    };
    assert(field_model(r) =~= merge_models(field_model(*a), field_model(*b)));
    proof {
        if field_canonical(*a) && field_canonical(*b) && a.path@ == b.path@ {
            let rv = string_views(r.aliases@);
            assert forall|i: int| 0 <= i < r.aliases@.len() implies meta_norm(#[trigger] r.aliases@[i]@) == r.aliases@[i]@
                && r.aliases@[i]@ != r.path@ by {
                assert(rv[i] == r.aliases@[i]@);
                assert(rv.to_set().contains(rv[i]));
                if av.to_set().contains(rv[i]) {
                    let k = choose|k: int| 0 <= k < av.len() && av[k] == rv[i];
                    assert(av[k] == a.aliases@[k]@);
                } else {
                    assert(bv.to_set().contains(rv[i]));
                    let k = choose|k: int| 0 <= k < bv.len() && bv[k] == rv[i];
                    assert(bv[k] == b.aliases@[k]@);
                }
            }
        }
        if field_paths_readable(*a) && field_paths_readable(*b) {
            let rv = string_views(r.aliases@);
            assert forall|i: int| 0 <= i < r.aliases@.len() implies !index_overflows(#[trigger] r.aliases@[i]@) by {
                assert(rv[i] == r.aliases@[i]@);
                assert(rv.to_set().contains(rv[i]));
                if av.to_set().contains(rv[i]) {
                    let k = choose|k: int| 0 <= k < av.len() && av[k] == rv[i];
                    assert(av[k] == a.aliases@[k]@);
                } else {
                    assert(bv.to_set().contains(rv[i]));
                    let k = choose|k: int| 0 <= k < bv.len() && bv[k] == rv[i];
                    assert(bv[k] == b.aliases@[k]@);
                }
            }
        }
    }
    r
}

/// The declarations held in a map of fields by path.
pub open spec fn map_of(m: StrMap<FieldMetadata>) -> Map<Seq<char>, FieldModel> {
    Map::new(|k: Seq<char>| m.get_spec(k) is Some, |k: Seq<char>| field_model(m.get_spec(k)->Some_0))
}

/// Every field of the map sits under its own path, with ascending aliases.
pub open spec fn map_normal(m: StrMap<FieldMetadata>) -> bool {
    forall|k: Seq<char>| #[trigger] m.get_spec(k) is Some ==> m.get_spec(k)->Some_0.path@ == k
        && ascending(string_views(m.get_spec(k)->Some_0.aliases@))
        && field_paths_readable(m.get_spec(k)->Some_0)
        && field_canonical(m.get_spec(k)->Some_0)
}

/// Merges the fields by normalized path, in order, and lists the result by
/// path.
pub fn normalize_fields(fs: &Vec<FieldMetadata>) -> (r: Vec<FieldMetadata>)
    requires
        forall|i: int| 0 <= i < fs@.len() ==> field_paths_readable(#[trigger] fs@[i]),
    ensures
        fields_map(r@) == merged_fields(fs@),
        fields_normal(r@),
        forall|i: int| 0 <= i < r@.len() ==> field_paths_readable(#[trigger] r@[i]),
        forall|i: int| 0 <= i < r@.len() ==> field_canonical(#[trigger] r@[i]),
{
    let mut merged: StrMap<FieldMetadata> = StrMap::new();
    let mut i: usize = 0;
    assert(map_of(merged) =~= Map::<Seq<char>, FieldModel>::empty());
    assert(fs@.take(0) =~= Seq::<FieldMetadata>::empty());
    while i < fs.len()
        invariant
            i <= fs@.len(),
            forall|i: int| 0 <= i < fs@.len() ==> field_paths_readable(#[trigger] fs@[i]),
            merged.wf(),
            map_normal(merged),
            map_of(merged) == merged_fields(fs@.take(i as int)),
        decreases fs@.len() - i,
    {
        let ghost old_m = merged;
        let nf = normalize_field(&fs[i]);
        let key = copy_string(&nf.path);
        let m = match merged.get(key.as_str()) {
            Some(ex) => merge_fields(ex, &nf),
            None => nf,
        };
        merged.insert(key, m);
        proof {
            let f = fs@[i as int];
            let p = meta_norm(f.path@);
            assert(fs@.take(i + 1).drop_last() =~= fs@.take(i as int));
            assert(fs@.take(i + 1).last() == f);
            let prev = merged_fields(fs@.take(i as int));
            assert(map_of(old_m).contains_key(p) == (old_m.get_spec(p) is Some));
            assert(map_of(merged) =~= merged_fields(fs@.take(i + 1))) by {
                assert forall|k: Seq<char>| #[trigger] map_of(merged).contains_key(k) == merged_fields(fs@.take(i + 1)).contains_key(k) by {
                    if k != p {
                        assert(merged.get_spec(k) == old_m.get_spec(k));
                    }
                }
                assert forall|k: Seq<char>| map_of(merged).contains_key(k) implies #[trigger] map_of(merged)[k] == merged_fields(fs@.take(i + 1))[k] by {
                    if k != p {
                        assert(merged.get_spec(k) == old_m.get_spec(k));
                    }
                }
            }
            assert forall|k: Seq<char>| #[trigger] merged.get_spec(k) is Some implies merged.get_spec(k)->Some_0.path@ == k
                && ascending(string_views(merged.get_spec(k)->Some_0.aliases@))
                && field_paths_readable(merged.get_spec(k)->Some_0)
                && field_canonical(merged.get_spec(k)->Some_0) by {
                if k != p {
                    assert(merged.get_spec(k) == old_m.get_spec(k));
                }
            }
        }
        i = i + 1;
    }
    assert(fs@.take(fs@.len() as int) =~= fs@);
    let ghost es = merged.entries();
    proof {
        merged.lemma_wf_sorted();
        StrMap::<FieldMetadata>::lemma_keys_are_entries(merged);
    }
    let mut out: Vec<FieldMetadata> = Vec::new();
    let mut j: usize = 0;
    assert(fields_map(out@) =~= Map::<Seq<char>, FieldModel>::empty());
    while j < merged.len()
        invariant
            j <= es.len(),
            es == merged.entries(),
            merged.wf(),
            sorted_keys(es),
            map_normal(merged),
            out@.len() == j,
            forall|l: int| 0 <= l < j ==> (#[trigger] out@[l]).path@ == es[l].0@
                && field_model(out@[l]) == field_model(es[l].1)
                && ascending(string_views(out@[l].aliases@))
                && field_paths_readable(out@[l])
                && field_canonical(out@[l]),
            fields_map(out@) == Map::new(|k: Seq<char>| exists|l: int| 0 <= l < j && #[trigger] es[l].0@ == k,
                |k: Seq<char>| field_model(merged.get_spec(k)->Some_0)),
        decreases es.len() - j,
    {
        let (k, f) = merged.entry_at(j);
        let c = copy_field(f);
        proof {
            merged.lemma_entry(j as int);
            assert(merged.get_spec(es[j as int].0@) == Some(es[j as int].1));
        }
        let ghost before = out@;
        out.push(c);
        proof {
            assert(out@.drop_last() =~= before);
            assert(out@.last() == c);
            assert(fields_map(out@) =~= Map::new(|k: Seq<char>| exists|l: int| 0 <= l < j + 1 && #[trigger] es[l].0@ == k,
                |k: Seq<char>| field_model(merged.get_spec(k)->Some_0))) by {
                assert forall|x: Seq<char>| #[trigger] fields_map(out@).contains_key(x) == (exists|l: int| 0 <= l < j + 1 && #[trigger] es[l].0@ == x) by {
                    if exists|l: int| 0 <= l < j + 1 && #[trigger] es[l].0@ == x {
                        let l = choose|l: int| 0 <= l < j + 1 && #[trigger] es[l].0@ == x;
                        if l < j {
                            assert(fields_map(before).contains_key(x));
                        }
                    }
                }
            }
        }
        j = j + 1;
    }
    proof {
        assert(fields_map(out@) =~= merged_fields(fs@)) by {
            assert forall|x: Seq<char>| #[trigger] fields_map(out@).contains_key(x) == map_of(merged).contains_key(x) by {
                if map_of(merged).contains_key(x) {
                    let l = choose|l: int| 0 <= l < es.len() && #[trigger] es[l].0@ == x;
                }
            }
        }
        assert forall|a: int, b: int| 0 <= a < b < out@.len() implies seq_lt(#[trigger] out@[a].path@, #[trigger] out@[b].path@) by {
            assert(seq_lt(es[a].0@, es[b].0@));
        }
        assert forall|l: int| 0 <= l < out@.len() implies ascending(string_views(#[trigger] out@[l].aliases@)) by {
        }
    }
    out
}

/// The paths of the sensitive fields, in order.
pub open spec fn secret_paths_of(fs: Seq<FieldMetadata>) -> Seq<Seq<char>>
    decreases fs.len(),
{
    if fs.len() == 0 {
        Seq::empty()
    } else if fs.last().secret {
        secret_paths_of(fs.drop_last()).push(fs.last().path@)
    } else {
        secret_paths_of(fs.drop_last())
    }
}

/// The explicitly declared merge strategies by path (a later field wins).
pub open spec fn strategies_of(fs: Seq<FieldMetadata>) -> Map<Seq<char>, MergeStrategy>
    decreases fs.len(),
{
    if fs.len() == 0 {
        Map::empty()
    } else if fs.last().merge_explicit {
        strategies_of(fs.drop_last()).insert(fs.last().path@, fs.last().merge)
    } else {
        strategies_of(fs.drop_last())
    }
}

pub open spec fn strategy_view(m: StrMap<MergeStrategy>) -> Map<Seq<char>, MergeStrategy> {
    Map::new(|k: Seq<char>| m.get_spec(k) is Some, |k: Seq<char>| m.get_spec(k)->Some_0)
}

/// The field that best matches a normalized path: the highest score of its
/// path and aliases, the earliest field on a tie.
pub open spec fn field_pick(fs: Seq<FieldMetadata>, path: Seq<char>) -> Option<int>
    decreases fs.len(),
{
    if fs.len() == 0 {
        None
    } else {
        let prev = field_pick(fs.drop_last(), path);
        let i = fs.len() - 1;
        match best_score(path, candidates(fs[i])) {
            None => prev,
            Some(s) => match prev {
                None => Some(i),
                Some(j) => if score_lt(best_score(path, candidates(fs[j]))->Some_0, s) { Some(i) } else { Some(j) },
            },
        }
    }
}

/// The field for a path, if the path can be read and some field matches.
pub open spec fn field_for(fs: Seq<FieldMetadata>, path: Seq<char>) -> Option<int> {
    match metadata_path_result(path) {
        Ok(np) => field_pick(fs, np),
        Err(_) => None,
    }
}

proof fn lemma_pick_bounds(fs: Seq<FieldMetadata>, path: Seq<char>)
    ensures
        field_pick(fs, path) matches Some(j) ==> 0 <= j < fs.len() && best_score(path, candidates(fs[j])) is Some,
    decreases fs.len(),
{
    if fs.len() > 0 {
        lemma_pick_bounds(fs.drop_last(), path);
        if let Some(j) = field_pick(fs.drop_last(), path) {
            assert(fs.drop_last()[j] == fs[j]);
        }
    }
}

/// Merging one more field adds exactly its normalized path: the entry at
/// that path is the new field merged into the old entry (or the new field
/// alone), and every other path keeps its declarations.
pub proof fn law_push_merges(fs: Seq<FieldMetadata>, f: FieldMetadata)
    ensures
        merged_fields(fs.push(f)).dom() == merged_fields(fs).dom().insert(meta_norm(f.path@)),
        merged_fields(fs.push(f))[meta_norm(f.path@)] == (if merged_fields(fs).contains_key(meta_norm(f.path@)) {
            merge_models(merged_fields(fs)[meta_norm(f.path@)], normalized_model(f))
        } else {
            normalized_model(f)
        }),
        forall|k: Seq<char>| #[trigger] merged_fields(fs).contains_key(k) && k != meta_norm(f.path@)
            ==> merged_fields(fs.push(f))[k] == merged_fields(fs)[k],
{
    assert(fs.push(f).drop_last() =~= fs);
    assert(merged_fields(fs.push(f)).dom() =~= merged_fields(fs).dom().insert(meta_norm(f.path@)));
}

/// Fields as a metadata set keeps them: ascending by path, in normal form.
pub open spec fn metadata_normal(fs: Seq<FieldMetadata>) -> bool {
    &&& fields_normal(fs)
    &&& forall|i: int| 0 <= i < fs.len() ==> field_canonical(#[trigger] fs[i])
}

proof fn lemma_fields_map_dom(fs: Seq<FieldMetadata>, k: Seq<char>)
    ensures
        fields_map(fs).contains_key(k) <==> exists|i: int| 0 <= i < fs.len() && #[trigger] fs[i].path@ == k,
    decreases fs.len(),
{
    if fs.len() > 0 {
        lemma_fields_map_dom(fs.drop_last(), k);
        if exists|i: int| 0 <= i < fs.drop_last().len() && #[trigger] fs.drop_last()[i].path@ == k {
            let i = choose|i: int| 0 <= i < fs.drop_last().len() && #[trigger] fs.drop_last()[i].path@ == k;
            assert(fs[i].path@ == k);
        }
        if exists|i: int| 0 <= i < fs.len() && #[trigger] fs[i].path@ == k {
            let i = choose|i: int| 0 <= i < fs.len() && #[trigger] fs[i].path@ == k;
            if i < fs.len() - 1 {
                assert(fs.drop_last()[i].path@ == k);
            }
        }
    }
}

proof fn lemma_canonical_model(f: FieldMetadata)
    requires
        field_canonical(f),
    ensures
        normalized_model(f) == field_model(f),
{
    let av = string_views(f.aliases@);
    let nv = av.map_values(|a: Seq<char>| meta_norm(a));
    assert(nv =~= av) by {
        assert forall|i: int| 0 <= i < av.len() implies nv[i] == av[i] by {
            assert(av[i] == f.aliases@[i]@);
        }
    }
    assert(nv.to_set().remove(f.path@) =~= av.to_set()) by {
        assert forall|x: Seq<char>| av.to_set().contains(x) implies x != f.path@ by {
            let k = choose|k: int| 0 <= k < av.len() && av[k] == x;
            assert(av[k] == f.aliases@[k]@);
        }
    }
    assert(normalized_model(f) =~= field_model(f));
}

/// Merging the fields of a metadata set again changes nothing.
pub proof fn lemma_merged_is_map(fs: Seq<FieldMetadata>)
    requires
        metadata_normal(fs),
    ensures
        merged_fields(fs) == fields_map(fs),
    decreases fs.len(),
{
    if fs.len() > 0 {
        let xs = fs.drop_last();
        let f = fs.last();
        assert forall|a: int, b: int| 0 <= a < b < xs.len() implies seq_lt(#[trigger] xs[a].path@, #[trigger] xs[b].path@) by {
            assert(xs[a] == fs[a] && xs[b] == fs[b]);
        }
        assert forall|i: int| 0 <= i < xs.len() implies ascending(string_views(#[trigger] xs[i].aliases@)) && field_canonical(xs[i]) by {
            assert(xs[i] == fs[i]);
        }
        lemma_merged_is_map(xs);
        assert(field_canonical(fs[fs.len() - 1]));
        lemma_canonical_model(f);
        lemma_fields_map_dom(xs, f.path@);
        assert(!fields_map(xs).contains_key(f.path@)) by {
            if fields_map(xs).contains_key(f.path@) {
                let i = choose|i: int| 0 <= i < xs.len() && #[trigger] xs[i].path@ == f.path@;
                assert(seq_lt(fs[i].path@, fs[fs.len() - 1].path@));
                lemma_lt_irrefl(f.path@);
            }
        }
    }
}

/// Pushing a field into a metadata set adds exactly the field's
/// normalized path: the field at that path is the new field merged into the
/// old one with that path (its declarations winning, flags or-ed), or the
/// new field alone, and every other field stays as it was.
pub proof fn law_push_fields(before: Seq<FieldMetadata>, f: FieldMetadata, after: Seq<FieldMetadata>)
    requires
        metadata_normal(before),
        fields_map(after) == merged_fields(before.push(f)),
    ensures
        fields_map(after).dom() == fields_map(before).dom().insert(meta_norm(f.path@)),
        fields_map(after)[meta_norm(f.path@)] == (if fields_map(before).contains_key(meta_norm(f.path@)) {
            merge_models(fields_map(before)[meta_norm(f.path@)], normalized_model(f))
        } else {
            normalized_model(f)
        }),
        forall|k: Seq<char>| #[trigger] fields_map(before).contains_key(k) && k != meta_norm(f.path@)
            ==> fields_map(after)[k] == fields_map(before)[k],
{
    lemma_merged_is_map(before);
    law_push_merges(before, f);
}

impl ConfigMetadata {
    /// Metadata made of `fields`, merged by normalized path.
    pub fn from_fields(fields: Vec<FieldMetadata>) -> (r: Self)
        requires
            forall|i: int| 0 <= i < fields@.len() ==> field_paths_readable(#[trigger] fields@[i]),
        ensures
            crate::config::fields_readable(r.fields_spec()),
            fields_normal(r.fields_spec()),
            metadata_normal(r.fields_spec()),
            fields_map(r.fields_spec()) == merged_fields(fields@),
            r.checks_spec().len() == 0,
    {
        let r = ConfigMetadata { fields: normalize_fields(&fields), checks: Vec::new() };
        proof {
            crate::config::lemma_fields_spec(r);
            crate::config::lemma_checks_spec(r);
        }
        r
    }

    /// Adds a field, merging it into a field with the same normalized path.
    pub fn push(&mut self, field: FieldMetadata)
        requires
            crate::config::fields_readable(old(self).fields_spec()),
            field_paths_readable(field),
        ensures
            crate::config::fields_readable(final(self).fields_spec()),
            fields_normal(final(self).fields_spec()),
            metadata_normal(final(self).fields_spec()),
            fields_map(final(self).fields_spec()) == merged_fields(old(self).fields_spec().push(field)),
            final(self).checks_spec() == old(self).checks_spec(),
    {
        proof {
            crate::config::lemma_fields_spec(*old(self));
        }
        let mut all: Vec<FieldMetadata> = Vec::new();
        std::mem::swap(&mut all, &mut self.fields);
        all.push(field);
        proof {
            assert forall|i: int| 0 <= i < all@.len() implies field_paths_readable(#[trigger] all@[i]) by {
                if i < all@.len() - 1 {
                    assert(all@[i] == old(self).fields_spec()[i]);
                }
            }
        }
        self.fields = normalize_fields(&all);
        proof {
            crate::config::lemma_fields_spec(*self);
            crate::config::lemma_checks_spec(*self);
            crate::config::lemma_checks_spec(*old(self));
        }
    }

    /// Adds several fields, as `push` does one by one.
    pub fn extend_fields(&mut self, fields: Vec<FieldMetadata>)
        requires
            crate::config::fields_readable(old(self).fields_spec()),
            forall|i: int| 0 <= i < fields@.len() ==> field_paths_readable(#[trigger] fields@[i]),
        ensures
            crate::config::fields_readable(final(self).fields_spec()),
            fields_normal(final(self).fields_spec()),
            metadata_normal(final(self).fields_spec()),
            fields_map(final(self).fields_spec()) == merged_fields(old(self).fields_spec() + fields@),
            final(self).checks_spec() == old(self).checks_spec(),
    {
        proof {
            crate::config::lemma_fields_spec(*old(self));
        }
        let mut all: Vec<FieldMetadata> = Vec::new();
        std::mem::swap(&mut all, &mut self.fields);
        let ghost first = all@;
        let mut rest = fields;
        all.append(&mut rest);
        proof {
            assert forall|i: int| 0 <= i < all@.len() implies field_paths_readable(#[trigger] all@[i]) by {
                if i < first.len() {
                    assert(all@[i] == first[i]);
                } else {
                    assert(all@[i] == fields@[i - first.len()]);
                }
            }
        }
        self.fields = normalize_fields(&all);
        proof {
            crate::config::lemma_fields_spec(*self);
            crate::config::lemma_checks_spec(*self);
            crate::config::lemma_checks_spec(*old(self));
        }
    }

    /// Adds the fields of another metadata set, as `extend_fields` does.
    pub fn extend(&mut self, other: ConfigMetadata)
        requires
            crate::config::fields_readable(old(self).fields_spec()),
            crate::config::fields_readable(other.fields_spec()),
        ensures
            crate::config::fields_readable(final(self).fields_spec()),
            fields_normal(final(self).fields_spec()),
            metadata_normal(final(self).fields_spec()),
            fields_map(final(self).fields_spec()) == merged_fields(old(self).fields_spec() + other.fields_spec()),
    {
        proof {
            crate::config::lemma_fields_spec(other);
        }
        let ghost theirs = other.fields_spec();
        let fields = other.fields;
        assert forall|i: int| 0 <= i < fields@.len() implies field_paths_readable(#[trigger] fields@[i]) by {
            assert(fields@[i] == theirs[i]);
        }
        self.extend_fields(fields);
    }


    /// The paths of the sensitive fields.
    pub fn secret_paths(&self) -> (r: Vec<String>)
        ensures
            string_views(r@) == secret_paths_of(self.fields_spec()),
    {
        proof {
            crate::config::lemma_fields_spec(*self);
        }
        let ghost fs = self.fields@;
        let mut out: Vec<String> = Vec::new();
        let mut i: usize = 0;
        while i < self.fields.len()
            invariant
                i <= fs.len(),
                fs == self.fields@,
                string_views(out@) == secret_paths_of(fs.take(i as int)),
            decreases fs.len() - i,
        {
            assert(fs.take(i + 1).drop_last() =~= fs.take(i as int));
            assert(fs.take(i + 1).last() == fs[i as int]);
            if self.fields[i].secret {
                let ghost before = string_views(out@);
                out.push(copy_string(&self.fields[i].path));
                assert(string_views(out@) =~= before.push(fs[i as int].path@));
            }
            i = i + 1;
        }
        assert(fs.take(fs.len() as int) =~= fs);
        out
    }

    /// The explicitly declared merge strategies by path.
    pub fn merge_strategies(&self) -> (r: StrMap<MergeStrategy>)
        ensures
            r.wf(),
            strategy_view(r) == strategies_of(self.fields_spec()),
    {
        proof {
            crate::config::lemma_fields_spec(*self);
        }
        let ghost fs = self.fields@;
        let mut out: StrMap<MergeStrategy> = StrMap::new();
        assert(strategy_view(out) =~= Map::<Seq<char>, MergeStrategy>::empty());
        let mut i: usize = 0;
        while i < self.fields.len()
            invariant
                i <= fs.len(),
                fs == self.fields@,
                out.wf(),
                strategy_view(out) == strategies_of(fs.take(i as int)),
            decreases fs.len() - i,
        {
            assert(fs.take(i + 1).drop_last() =~= fs.take(i as int));
            assert(fs.take(i + 1).last() == fs[i as int]);
            if self.fields[i].merge_explicit {
                let ghost before = out;
                let p = copy_string(&self.fields[i].path);
                out.insert(p, self.fields[i].merge);
                assert(strategy_view(out) =~= strategy_view(before).insert(fs[i as int].path@, fs[i as int].merge)) by {
                    assert forall|k: Seq<char>| k != fs[i as int].path@ implies #[trigger] out.get_spec(k) == before.get_spec(k) by {
                    }
                }
            }
            i = i + 1;
        }
        assert(fs.take(fs.len() as int) =~= fs);
        out
    }

    /// The fields keyed by their path.
    pub fn fields_by_path(&self) -> (r: StrMap<FieldMetadata>)
        ensures
            r.wf(),
            forall|k: Seq<char>| #[trigger] r.get_spec(k) is Some <==> fields_map(self.fields_spec()).contains_key(k),
            forall|k: Seq<char>| #[trigger] r.get_spec(k) matches Some(f)
                ==> f.path@ == k && field_model(f) == fields_map(self.fields_spec())[k],
    {
        let fs = self.fields();
        let mut out: StrMap<FieldMetadata> = StrMap::new();
        let mut i: usize = 0;
        proof {
            assert(fs@.take(0) =~= Seq::<FieldMetadata>::empty());
            assert forall|k: Seq<char>| #[trigger] out.get_spec(k) is None by {
                crate::strmap::lemma_lookup_absent(out.entries(), k);
            }
        }
        while i < fs.len()
            invariant
                i <= fs.len(),
                fs@ == self.fields_spec(),
                out.wf(),
                forall|k: Seq<char>| #[trigger] out.get_spec(k) is Some <==> fields_map(fs@.take(i as int)).contains_key(k),
                forall|k: Seq<char>| #[trigger] out.get_spec(k) matches Some(f)
                    ==> f.path@ == k && field_model(f) == fields_map(fs@.take(i as int))[k],
            decreases fs.len() - i,
        {
            let f = copy_field(&fs[i]);
            let key = copy_string(&f.path);
            proof {
                assert(fs@.take(i + 1).drop_last() =~= fs@.take(i as int));
                assert(fs@.take(i + 1).last() == fs@[i as int]);
            }
            out.insert(key, f);
            i = i + 1;
        }
        assert(fs@.take(fs.len() as int) =~= fs@);
        out
    }

    /// The field that best matches a configuration path (by its path or an
    /// alias), the earliest one on a tie.
    pub fn field(&self, path: &str) -> (r: Option<&FieldMetadata>)
        requires
            !index_overflows(path@),
        ensures
            match field_for(self.fields_spec(), path@) {
                Some(j) => r matches Some(f) && *f == self.fields_spec()[j],
                None => r is None,
            },
    {
        proof {
            crate::config::lemma_fields_spec(*self);
        }
        let np = match try_normalize_metadata_path(path) {
            Ok(np) => np,
            Err(_) => {
                return None;
            },
        };
        let ghost fs = self.fields@;
        let mut best: Option<(usize, MetadataMatchScore)> = None;
        let mut i: usize = 0;
        while i < self.fields.len()
            invariant
                i <= fs.len(),
                fs == self.fields@,
                field_pick(fs.take(i as int), np@) == match best {
                    Some(p) => Some(p.0 as int),
                    None => None::<int>,
                },
                best matches Some(p) ==> p.0 < i && best_score(np@, candidates(fs[p.0 as int])) == Some(p.1.as_tuple()),
            decreases fs.len() - i,
        {
            let ghost pre = fs.take(i as int);
            assert(fs.take(i + 1).drop_last() =~= pre);
            assert(fs.take(i + 1)[i as int] == fs[i as int]);
            proof {
                lemma_pick_bounds(pre, np@);
                if best is Some {
                    assert(fs.take(i + 1)[best->Some_0.0 as int] == fs[best->Some_0.0 as int]);
                }
            }
            match field_best_score(np.as_str(), &self.fields[i]) {
                None => {},
                Some(s) => {
                    let take = match &best {
                        Some(p) => p.1.less_than(&s),
                        None => true,
                    };
                    if take {
                        best = Some((i, s));
                    }
                },
            }
            i = i + 1;
        }
        assert(fs.take(fs.len() as int) =~= fs);
        match best {
            Some(p) => Some(&self.fields[p.0]),
            None => None,
        }
    }
}

} // verus!
