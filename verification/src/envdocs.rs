//! Environment variable documentation rows derived from a JSON schema: the
//! schema is walked from its root, following `$ref` pointers, and each
//! leaf property becomes a row.
use vstd::prelude::*;
use crate::json::{JsonValue, Json, lemma_object_view, lemma_array_view, entries_view, items_view};
use crate::metadata::MergeStrategy;
use crate::config::{ConfigMetadata, FieldMetadata};
use crate::field::{FieldModel, fields_map, field_model, copy_opt, copy_strings};
use crate::docs::{EnvDocOptions, EnvDocOptionsView, env_doc_name};
use crate::strmap::{StrMap, seq_lt};
use crate::sources::opt_view;
use crate::rules::{json_to_string, compact_text};
use crate::parse::{json_text, read_json};
use crate::path::{joined, join_path};
use crate::text::{join, str_eq, copy_string, string_views, chars_of, string_of, join_chars, views, slice_chars};

verus! {

/// What `serde_json::Value::pointer` finds in a JSON text (read with
/// `serde_json::from_str`) at a pointer, written back as JSON text; `None`
/// when the text cannot be read or nothing is found.
pub uninterp spec fn json_pointer(text: Seq<char>, pointer: Seq<char>) -> Option<Seq<char>>;

/// Reads `text` with `serde_json::from_str::<serde_json::Value>`, looks up
/// `pointer` with `Value::pointer`, and writes what it finds with
/// `serde_json::to_string`. Claimed: the result is the named `json_pointer`.
#[verifier::external_body]
fn pointer_in(text: &str, pointer: &str) -> (r: Option<String>)
    ensures
        match r {
            Some(s) => json_pointer(text@, pointer@) == Some(s@),
            None => json_pointer(text@, pointer@) is None,
        },
{
    let value = serde_json::from_str::<serde_json::Value>(text).ok()?;
    value.pointer(pointer).and_then(|v| serde_json::to_string(v).ok())
}

/// The schema a `$ref` names in the root schema (written as `text`): a
/// reference starting with `#` is a JSON pointer into the root.
pub open spec fn ref_target(text: Seq<char>, reference: Seq<char>) -> Option<Json> {
    if reference.len() > 0 && reference[0] == '#' {
        match json_pointer(text, reference.skip(1)) {
            Some(t) => match json_text(t) {
                Ok(j) => Some(j),
                Err(_) => None,
            },
            None => None,
        }
    } else {
        None
    }
}

/// The value of the first entry with key `k`.
pub open spec fn member(es: Seq<(Seq<char>, Json)>, k: Seq<char>) -> Option<Json>
    decreases es.len(),
{
    if es.len() == 0 {
        None
    } else if es[0].0 == k {
        Some(es[0].1)
    } else {
        member(es.drop_first(), k)
    }
}

/// The string items of a list, in order.
pub open spec fn strings_in(items: Seq<Json>) -> Seq<Seq<char>>
    decreases items.len(),
{
    if items.len() == 0 {
        Seq::empty()
    } else {
        let rest = strings_in(items.drop_last());
        match items.last() {
            Json::Str(s) => rest.push(s),
            _ => rest,
        }
    }
}

/// The type summary of a schema object: its `type` (alternatives joined by
/// ` | `), else `enum`, `array` or `object` by the keywords present.
pub open spec fn schema_type(es: Seq<(Seq<char>, Json)>) -> Seq<char> {
    match member(es, "type"@) {
        Some(Json::Str(t)) => t,
        Some(Json::Array(items)) => join(strings_in(items), " | "@),
        _ => if member(es, "enum"@) is Some {
            "enum"@
        } else if member(es, "items"@) is Some {
            "array"@
        } else {
            "object"@
        },
    }
}

/// A documentation row as plain values: path, variable name, type,
/// required, secret, description, example, deprecation, aliases, whether a
/// default exists, merge strategy.
pub struct DocRow {
    pub path: Seq<char>,
    pub env: Seq<char>,
    pub ty: Seq<char>,
    pub required: bool,
    pub secret: bool,
    pub description: Option<Seq<char>>,
    pub example: Option<Seq<char>>,
    pub deprecated: Option<Seq<char>>,
    pub aliases: Seq<Seq<char>>,
    pub has_default: bool,
    pub merge: MergeStrategy,
}

pub open spec fn plain_row(path: Seq<char>, ty: Seq<char>, required: bool, secret: bool, description: Option<Seq<char>>) -> DocRow {
    DocRow {
        path, env: Seq::empty(), ty, required, secret, description,
        example: None, deprecated: None, aliases: Seq::empty(), has_default: false, merge: MergeStrategy::Merge,
    }
}

/// The row of a schema object without properties.
pub open spec fn leaf_row(path: Seq<char>, required: bool, es: Seq<(Seq<char>, Json)>) -> DocRow {
    plain_row(path, schema_type(es), required,
        member(es, "writeOnly"@) == Some(Json::Bool(true)) || member(es, "x-tier-secret"@) == Some(Json::Bool(true)),
        match member(es, "description"@) {
            Some(Json::Str(d)) => Some(d),
            _ => None,
        })
}

/// The property `key` is listed as required by the schema object.
pub open spec fn listed_required(es: Seq<(Seq<char>, Json)>, key: Seq<char>) -> bool {
    member(es, "required"@) matches Some(Json::Array(items)) && items.contains(Json::Str(key))
}

pub proof fn lemma_member_decreases(es: Seq<(Seq<char>, Json)>, k: Seq<char>)
    requires
        member(es, k) is Some,
    ensures
        exists|i: int| 0 <= i < es.len() && es[i].1 == member(es, k)->Some_0,
    decreases es.len(),
{
    if es[0].0 != k {
        lemma_member_decreases(es.drop_first(), k);
        let i = choose|i: int| 0 <= i < es.drop_first().len() && es.drop_first()[i].1 == member(es.drop_first(), k)->Some_0;
        assert(es[i + 1] == es.drop_first()[i]);
    }
}

/// The rows a schema gives at `path`: a `$ref` not being expanded already
/// is replaced by its target (at most `fuel` references deep); an object
/// with `properties` gives the rows of each property in order, required
/// when the object lists it; another object gives one row, as does any
/// other value (of unknown type); the root itself gives no row.
pub open spec fn doc_rows(schema: Json, text: Seq<char>, path: Seq<char>, required: bool, visited: Seq<Seq<char>>, fuel: nat) -> Seq<DocRow>
    decreases fuel, schema, 0nat,
{
    match schema {
        Json::Object(es) => match member(es, "$ref"@) {
            Some(Json::Str(r)) => if visited.contains(r) || fuel == 0 {
                Seq::empty()
            } else {
                match ref_target(text, r) {
                    Some(t) => doc_rows(t, text, path, required, visited.push(r), (fuel - 1) as nat),
                    None => Seq::empty(),
                }
            },
            _ => match member(es, "properties"@) {
                Some(Json::Object(ps)) => {
                    proof {
                        lemma_member_decreases(es, "properties"@);
                        let i = choose|i: int| 0 <= i < es.len() && es[i].1 == member(es, "properties"@)->Some_0;
                        assert(decreases_to!(es => es[i]));
                    }
                    prop_rows(ps, es, text, path, visited, fuel, ps.len())
                },
                _ => if path.len() == 0 { Seq::empty() } else { seq![leaf_row(path, required, es)] },
            },
        },
        _ => if path.len() == 0 { Seq::empty() } else { seq![plain_row(path, "unknown"@, required, false, None)] },
    }
}

/// The rows of the first `n` properties.
pub open spec fn prop_rows(ps: Seq<(Seq<char>, Json)>, owner: Seq<(Seq<char>, Json)>, text: Seq<char>, path: Seq<char>,
    visited: Seq<Seq<char>>, fuel: nat, n: nat) -> Seq<DocRow>
    decreases fuel, ps, n,
{
    if n == 0 || n > ps.len() {
        Seq::empty()
    } else {
        prop_rows(ps, owner, text, path, visited, fuel, (n - 1) as nat)
            + doc_rows(ps[n - 1].1, text, joined(path, ps[n - 1].0), listed_required(owner, ps[n - 1].0), visited, fuel)
    }
}

/// One row of environment variable documentation.
pub struct EnvDocEntry {
    /// Dot-delimited configuration path.
    pub path: String,
    /// Environment variable name corresponding to the path.
    pub env: String,
    /// Human-readable schema type summary.
    pub ty: String,
    /// Whether the field is required by the schema.
    pub required: bool,
    /// Whether the field should be treated as sensitive.
    pub secret: bool,
    /// Field description pulled from the schema or metadata.
    pub description: Option<String>,
    /// Example value provided by metadata.
    pub example: Option<String>,
    /// Deprecation note provided by metadata.
    pub deprecated: Option<String>,
    /// Alternate paths accepted for this field.
    pub aliases: Vec<String>,
    /// Whether the field can be omitted.
    pub has_default: bool,
    /// Merge policy applied when several layers set this field.
    pub merge: MergeStrategy,
}

pub open spec fn opt_text(o: Option<String>) -> Option<Seq<char>> {
    match o {
        Some(s) => Some(s@),
        None => None,
    }
}

pub open spec fn row_view(e: EnvDocEntry) -> DocRow {
    DocRow {
        path: e.path@,
        env: e.env@,
        ty: e.ty@,
        required: e.required,
        secret: e.secret,
        description: opt_text(e.description),
        example: opt_text(e.example),
        deprecated: opt_text(e.deprecated),
        aliases: string_views(e.aliases@),
        has_default: e.has_default,
        merge: e.merge,
    }
}

pub open spec fn rows_view(v: Seq<EnvDocEntry>) -> Seq<DocRow> {
    v.map_values(|e: EnvDocEntry| row_view(e))
}

proof fn lemma_member_skip(es: Seq<(Seq<char>, Json)>, i: int, k: Seq<char>)
    requires
        0 <= i <= es.len(),
        forall|j: int| 0 <= j < i ==> (#[trigger] es[j]).0 != k,
    ensures
        member(es, k) == member(es.skip(i), k),
    decreases i,
{
    if i == 0 {
        assert(es.skip(0) =~= es);
    } else {
        assert(es[0].0 != k);
        assert forall|j: int| 0 <= j < i - 1 implies (#[trigger] es.drop_first()[j]).0 != k by {
            assert(es.drop_first()[j] == es[j + 1]);
        }
        lemma_member_skip(es.drop_first(), i - 1, k);
        assert(es.drop_first().skip(i - 1) =~= es.skip(i));
    }
}

/// The position of the first entry with key `k`.
fn member_at(es: &Vec<(String, JsonValue)>, k: &str) -> (r: Option<usize>)
    ensures
        match r {
            Some(i) => i < es@.len() && member(entries_view(es@), k@) == Some(es@[i as int].1@),
            None => member(entries_view(es@), k@) is None,
        },
{
    let ghost ev = entries_view(es@);
    let mut i: usize = 0;
    while i < es.len()
        invariant
            i <= es@.len(),
            ev == entries_view(es@),
            forall|j: int| 0 <= j < i ==> (#[trigger] ev[j]).0 != k@,
        decreases es@.len() - i,
    {
        assert(ev[i as int] == (es@[i as int].0@, es@[i as int].1@));
        if str_eq(es[i].0.as_str(), k) {
            proof {
                lemma_member_skip(ev, i as int, k@);
                assert(ev.skip(i as int)[0] == ev[i as int]);
            }
            return Some(i);
        }
        i = i + 1;
    }
    proof {
        lemma_member_skip(ev, i as int, k@);
        assert(ev.skip(i as int).len() == 0);
    }
    None
}

fn is_true(v: &JsonValue) -> (r: bool)
    ensures
        r == (v@ == Json::Bool(true)),
{
    match v {
        JsonValue::Bool(b) => *b,
        _ => false,
    }
}

fn schema_type_of(es: &Vec<(String, JsonValue)>) -> (r: String)
    ensures
        r@ == schema_type(entries_view(es@)),
{
    match member_at(es, "type") {
        Some(i) => match &es[i].1 {
            JsonValue::String(t) => {
                proof { reveal_strlit("type"); }
                return copy_string(t);
            },
            JsonValue::Array(items) => {
                proof {
                    lemma_array_view(*items);
                }
                let ghost iv = items_view(items@);
                let mut parts: Vec<Vec<char>> = Vec::new();
                let mut j: usize = 0;
                while j < items.len()
                    invariant
                        j <= items@.len(),
                        iv == items_view(items@),
                        views(parts@) == strings_in(iv.take(j as int)),
                    decreases items@.len() - j,
                {
                    assert(iv.take(j + 1).drop_last() =~= iv.take(j as int));
                    assert(iv[j as int] == items@[j as int]@);
                    match &items[j] {
                        JsonValue::String(t) => {
                            let ghost before = views(parts@);
                            parts.push(chars_of(t.as_str()));
                            assert(views(parts@) =~= before.push(t@));
                        },
                        _ => {},
                    }
                    j = j + 1;
                }
                assert(iv.take(items@.len() as int) =~= iv);
                let sep = chars_of(" | ");
                return string_of(&join_chars(&parts, &sep));
            },
            _ => {},
        },
        None => {},
    }
    if member_at(es, "enum").is_some() {
        "enum".to_string()
    } else if member_at(es, "items").is_some() {
        "array".to_string()
    } else {
        "object".to_string()
    }
}

fn is_listed_required(es: &Vec<(String, JsonValue)>, key: &str) -> (r: bool)
    ensures
        r == listed_required(entries_view(es@), key@),
{
    match member_at(es, "required") {
        Some(i) => match &es[i].1 {
            JsonValue::Array(items) => {
                proof {
                    lemma_array_view(*items);
                }
                let ghost iv = items_view(items@);
                assert(member(entries_view(es@), "required"@) == Some(Json::Array(iv)));
                let mut j: usize = 0;
                while j < items.len()
                    invariant
                        j <= items@.len(),
                        iv == items_view(items@),
                        member(entries_view(es@), "required"@) == Some(Json::Array(iv)),
                        forall|l: int| 0 <= l < j ==> iv[l] != Json::Str(key@),
                    decreases items@.len() - j,
                {
                    assert(iv[j as int] == items@[j as int]@);
                    match &items[j] {
                        JsonValue::String(t) => {
                            if str_eq(t.as_str(), key) {
                                assert(iv[j as int] == Json::Str(key@));
                                assert(iv.contains(Json::Str(key@)));
                                return true;
                            }
                        },
                        _ => {},
                    }
                    j = j + 1;
                }
                false
            },
            _ => false,
        },
        None => false,
    }
}

fn doc_entry(path: &str, ty: String, required: bool, secret: bool, description: Option<String>) -> (r: EnvDocEntry)
    ensures
        row_view(r) == plain_row(path@, ty@, required, secret, opt_text(description)),
{
    let r = EnvDocEntry {
        path: path.to_string(),
        env: String::new(),
        ty,
        required,
        secret,
        description,
        example: None,
        deprecated: None,
        aliases: Vec::new(),
        has_default: false,
        merge: MergeStrategy::Merge,
    };
    assert(string_views(r.aliases@) =~= Seq::<Seq<char>>::empty());
    r
}

fn contains_text(v: &Vec<String>, s: &str) -> (r: bool)
    ensures
        r == string_views(v@).contains(s@),
{
    let mut i: usize = 0;
    while i < v.len()
        invariant
            i <= v@.len(),
            forall|j: int| 0 <= j < i ==> (#[trigger] v@[j])@ != s@,
        decreases v@.len() - i,
    {
        if str_eq(v[i].as_str(), s) {
            assert(string_views(v@)[i as int] == s@);
            return true;
        }
        i = i + 1;
    }
    assert forall|j: int| 0 <= j < string_views(v@).len() implies string_views(v@)[j] != s@ by {
        assert(string_views(v@)[j] == v@[j]@);
    }
    false
}

fn with_pushed(v: &Vec<String>, s: &str) -> (r: Vec<String>)
    ensures
        string_views(r@) == string_views(v@).push(s@),
{
    let mut out: Vec<String> = Vec::new();
    let mut i: usize = 0;
    while i < v.len()
        invariant
            i <= v@.len(),
            string_views(out@) == string_views(v@).take(i as int),
        decreases v@.len() - i,
    {
        let ghost before = string_views(out@);
        out.push(copy_string(&v[i]));
        assert(string_views(out@) =~= before.push(v@[i as int]@));
        assert(string_views(v@).take(i + 1) =~= string_views(v@).take(i as int).push(v@[i as int]@));
        i = i + 1;
    }
    assert(string_views(v@).take(v@.len() as int) =~= string_views(v@));
    let ghost before = string_views(out@);
    out.push(s.to_string());
    assert(string_views(out@) =~= before.push(s@));
    out
}

/// The schema a `$ref` names (see `ref_target`).
fn ref_schema(r: &String, root_text: &str) -> (out: Option<JsonValue>)
    ensures
        match ref_target(root_text@, r@) {
            Some(t) => out matches Some(v) && v@ == t,
            None => out is None,
        },
{
    let rc = chars_of(r.as_str());
    if rc.len() == 0 || rc[0] != '#' {
        return None;
    }
    let rest = string_of(&slice_chars(&rc, 1, rc.len()));
    assert(rc@.subrange(1, rc@.len() as int) =~= r@.skip(1));
    match pointer_in(root_text, rest.as_str()) {
        Some(t) => match read_json(t.as_str()) {
            Ok(target) => Some(target),
            Err(_) => None,
        },
        None => None,
    }
}

/// Appends the rows the schema gives at `path` (see `doc_rows`); the
/// references being expanded are `visited`, and at most `fuel` more are
/// followed in depth. `root_text` is the root schema as JSON text, which
/// `$ref` pointers are resolved in.
#[verifier::loop_isolation(false)]
pub fn collect_env_docs(schema: &JsonValue, root_text: &str, path: &str, required: bool, docs: &mut Vec<EnvDocEntry>,
    visited: &Vec<String>, fuel: usize)
    ensures
        rows_view(final(docs)@) == rows_view(old(docs)@) + doc_rows(schema@, root_text@, path@, required, string_views(visited@), fuel as nat),
    decreases fuel, schema,
{
    let ghost start = rows_view(docs@);
    match schema {
        JsonValue::Object(es) => {
            proof {
                lemma_object_view(*es);
            }
            let ghost ev = entries_view(es@);
            match member_at(es, "$ref") {
                Some(i) => match &es[i].1 {
                    JsonValue::String(r) => {
                        if contains_text(visited, r.as_str()) || fuel == 0 {
                            assert(rows_view(docs@) =~= start + Seq::<DocRow>::empty());
                            return;
                        }
                        match ref_schema(r, root_text) {
                            Some(target) => {
                                let v2 = with_pushed(visited, r.as_str());
                                collect_env_docs(&target, root_text, path, required, docs, &v2, fuel - 1);
                            },
                            None => {
                                assert(rows_view(docs@) =~= start + Seq::<DocRow>::empty());
                            },
                        }
                        return;
                    },
                    _ => {},
                },
                None => {},
            }
            match member_at(es, "properties") {
                Some(i) => match &es[i].1 {
                    JsonValue::Object(ps) => {
                        proof {
                            lemma_object_view(*ps);
                        }
                        let ghost pv = entries_view(ps@);
                        assert(member(ev, "properties"@) == Some(Json::Object(pv)));
                        let mut j: usize = 0;
                        while j < ps.len()
                            invariant
                                j <= ps@.len(),
                                pv == entries_view(ps@),
                                rows_view(docs@) == start + prop_rows(pv, ev, root_text@, path@, string_views(visited@), fuel as nat, j as nat),
                            decreases ps@.len() - j,
                        {
                            proof {
                                assert(decreases_to!(*schema => *es));
                                assert(decreases_to!(*es => es@));
                                assert(decreases_to!(es@ => es@[i as int]));
                                assert(decreases_to!(es@[i as int] => es@[i as int].1));
                                assert(decreases_to!(es@[i as int].1 => *ps));
                                assert(decreases_to!(*ps => ps@));
                                assert(decreases_to!(ps@ => ps@[j as int]));
                                assert(decreases_to!(ps@[j as int] => ps@[j as int].1));
                            }
                            assert(pv[j as int] == (ps@[j as int].0@, ps@[j as int].1@));
                            let next = join_path(path, ps[j].0.as_str());
                            let req = is_listed_required(es, ps[j].0.as_str());
                            collect_env_docs(&ps[j].1, root_text, next.as_str(), req, docs, visited, fuel);
                            proof {
                                assert(start + prop_rows(pv, ev, root_text@, path@, string_views(visited@), fuel as nat, (j + 1) as nat)
                                    =~= start + prop_rows(pv, ev, root_text@, path@, string_views(visited@), fuel as nat, j as nat)
                                    + doc_rows(pv[j as int].1, root_text@, joined(path@, pv[j as int].0), listed_required(ev, pv[j as int].0),
                                        string_views(visited@), fuel as nat));
                            }
                            j = j + 1;
                        }
                        return;
                    },
                    _ => {},
                },
                None => {},
            }
            if path.is_empty() {
                assert(rows_view(docs@) =~= start + Seq::<DocRow>::empty());
                return;
            }
            let ty = schema_type_of(es);
            let secret = match member_at(es, "writeOnly") {
                Some(i) => is_true(&es[i].1),
                None => false,
            } || match member_at(es, "x-tier-secret") {
                Some(i) => is_true(&es[i].1),
                None => false,
            };
            let description = match member_at(es, "description") {
                Some(i) => match &es[i].1 {
                    JsonValue::String(d) => Some(copy_string(d)),
                    _ => None,
                },
                None => None,
            };
            let e = doc_entry(path, ty, required, secret, description);
            docs.push(e);
            assert(rows_view(docs@) =~= start + seq![leaf_row(path@, required, ev)]);
        },
        _ => {
            if path.is_empty() {
                assert(rows_view(docs@) =~= start + Seq::<DocRow>::empty());
                return;
            }
            let e = doc_entry(path, "unknown".to_string(), required, false, None);
            docs.push(e);
            assert(rows_view(docs@) =~= start + seq![plain_row(path@, "unknown"@, required, false, None)]);
        },
    }
}

/// Each path's row as first collected.
pub open spec fn first_rows(rows: Seq<DocRow>) -> Map<Seq<char>, DocRow>
    decreases rows.len(),
{
    if rows.len() == 0 {
        Map::empty()
    } else {
        let m = first_rows(rows.drop_last());
        if m.contains_key(rows.last().path) { m } else { m.insert(rows.last().path, rows.last()) }
    }
}

/// The rows of a whole schema: walked from its root, with as many
/// references followed in depth as its JSON text has characters (more than
/// any chain of distinct references in it can need).
pub open spec fn schema_rows(schema: Json) -> Seq<DocRow> {
    doc_rows(schema, compact_text(schema), Seq::empty(), true, Seq::empty(), compact_text(schema).len())
}

/// `out` is the row `row` with the field metadata at its path applied: an
/// explicit environment name wins over the derived one; metadata adds
/// secrecy, replaces the description, example and deprecation it declares,
/// sets the aliases, the default and the merge strategy, and a field with a
/// default is not required.
pub open spec fn documented(out: DocRow, row: DocRow, fm: Map<Seq<char>, FieldModel>, o: EnvDocOptionsView) -> bool {
    &&& out.path == row.path
    &&& out.ty == row.ty
    &&& if fm.contains_key(row.path) {
        let m = fm[row.path];
        &&& out.env == (match m.env { Some(e) => e, None => env_doc_name(o, row.path) })
        &&& out.required == (row.required && !m.has_default)
        &&& out.secret == (row.secret || m.secret)
        &&& out.description == (if m.doc is Some { m.doc } else { row.description })
        &&& out.example == (if m.example is Some { m.example } else { row.example })
        &&& out.deprecated == (if m.deprecated is Some { m.deprecated } else { row.deprecated })
        &&& out.aliases.to_set() == m.aliases
        &&& out.has_default == m.has_default
        &&& out.merge == m.merge
    } else {
        &&& out.env == env_doc_name(o, row.path)
        &&& out.required == row.required
        &&& out.secret == row.secret
        &&& out.description == row.description
        &&& out.example == row.example
        &&& out.deprecated == row.deprecated
        &&& out.aliases == row.aliases
        &&& out.has_default == row.has_default
        &&& out.merge == row.merge
    }
}

pub open spec fn docs_view(m: StrMap<EnvDocEntry>) -> Map<Seq<char>, DocRow> {
    Map::new(|k: Seq<char>| m.get_spec(k) is Some, |k: Seq<char>| row_view(m.get_spec(k)->Some_0))
}

fn copy_entry(e: &EnvDocEntry) -> (r: EnvDocEntry)
    ensures
        row_view(r) == row_view(*e),
{
    EnvDocEntry {
        path: copy_string(&e.path),
        env: copy_string(&e.env),
        ty: copy_string(&e.ty),
        required: e.required,
        secret: e.secret,
        description: copy_opt(&e.description),
        example: copy_opt(&e.example),
        deprecated: copy_opt(&e.deprecated),
        aliases: copy_strings(&e.aliases),
        has_default: e.has_default,
        merge: e.merge,
    }
}

fn pick_opt(field: &Option<String>, row: &Option<String>) -> (r: Option<String>)
    ensures
        opt_text(r) == (if field is Some { opt_text(*field) } else { opt_text(*row) }),
{
    match field {
        Some(x) => Some(copy_string(x)),
        None => copy_opt(row),
    }
}

/// The row with the field metadata at its path applied.
fn apply_field_metadata(e: &EnvDocEntry, fields: &StrMap<FieldMetadata>, options: &EnvDocOptions,
    Ghost(fm): Ghost<Map<Seq<char>, FieldModel>>) -> (r: EnvDocEntry)
    requires
        fields.wf(),
        forall|k: Seq<char>| #[trigger] fields.get_spec(k) is Some <==> fm.contains_key(k),
        forall|k: Seq<char>| #[trigger] fields.get_spec(k) matches Some(f) ==> field_model(f) == fm[k],
    ensures
        documented(row_view(r), row_view(*e), fm, options@),
{
    match fields.get(e.path.as_str()) {
        None => EnvDocEntry {
            path: copy_string(&e.path),
            env: options.env_name(e.path.as_str()),
            ty: copy_string(&e.ty),
            required: e.required,
            secret: e.secret,
            description: copy_opt(&e.description),
            example: copy_opt(&e.example),
            deprecated: copy_opt(&e.deprecated),
            aliases: copy_strings(&e.aliases),
            has_default: e.has_default,
            merge: e.merge,
        },
        Some(f) => {
            let env = match &f.env {
                Some(x) => copy_string(x),
                None => options.env_name(e.path.as_str()),
            };
            let r = EnvDocEntry {
                path: copy_string(&e.path),
                env,
                ty: copy_string(&e.ty),
                required: e.required && !f.has_default,
                secret: e.secret || f.secret,
                description: pick_opt(&f.doc, &e.description),
                example: pick_opt(&f.example, &e.example),
                deprecated: pick_opt(&f.deprecated, &e.deprecated),
                aliases: copy_strings(&f.aliases),
                has_default: f.has_default,
                merge: f.merge,
            };
            assert(field_model(*f) == fm[e.path@]);
            r
        },
    }
}

/// Environment variable documentation for a configuration schema: the
/// schema's rows, one per path (the first collected), in ascending path
/// order, each with the field metadata at its path applied.
pub fn env_docs_for_schema(schema: &JsonValue, metadata: &ConfigMetadata, options: &EnvDocOptions) -> (r: Vec<EnvDocEntry>)
    ensures
        forall|i: int, j: int| 0 <= i < j < r@.len() ==> seq_lt(#[trigger] r@[i].path@, #[trigger] r@[j].path@),
        forall|i: int| 0 <= i < r@.len() ==> first_rows(schema_rows(schema@)).contains_key(#[trigger] r@[i].path@)
            && documented(row_view(r@[i]), first_rows(schema_rows(schema@))[r@[i].path@], fields_map(metadata.fields_spec()), options@),
        forall|k: Seq<char>| #[trigger] first_rows(schema_rows(schema@)).contains_key(k)
            ==> exists|i: int| 0 <= i < r@.len() && r@[i].path@ == k,
{
    let text = json_to_string(schema);
    let fuel = text.as_str().unicode_len();
    let mut docs: Vec<EnvDocEntry> = Vec::new();
    let none: Vec<String> = Vec::new();
    proof {
        reveal_strlit("");
        assert(""@ =~= Seq::<char>::empty());
        assert(string_views(none@) =~= Seq::<Seq<char>>::empty());
        assert(rows_view(docs@) =~= Seq::<DocRow>::empty());
    }
    collect_env_docs(schema, text.as_str(), "", true, &mut docs, &none, fuel);
    let ghost rows = rows_view(docs@);
    assert(rows == schema_rows(schema@));
    let mut firsts: StrMap<EnvDocEntry> = StrMap::new();
    proof {
        assert forall|k: Seq<char>| #[trigger] firsts.get_spec(k) is None by {
            crate::strmap::lemma_lookup_absent(firsts.entries(), k);
        }
        assert(docs_view(firsts) =~= Map::<Seq<char>, DocRow>::empty());
        assert(rows.take(0) =~= Seq::<DocRow>::empty());
    }
    let n = docs.len();
    let mut i: usize = 0;
    while i < n
        invariant
            i <= n,
            n == rows.len(),
            docs@.len() == n - i,
            forall|j: int| 0 <= j < docs@.len() ==> row_view(#[trigger] docs@[j]) == rows[i + j],
            firsts.wf(),
            docs_view(firsts) == first_rows(rows.take(i as int)),
            forall|x: Seq<char>| #[trigger] firsts.get_spec(x) matches Some(v) ==> v.path@ == x,
        decreases n - i,
    {
        let e = docs.remove(0);
        assert(row_view(e) == rows[i as int]);
        proof {
            assert(rows.take(i + 1).drop_last() =~= rows.take(i as int));
            assert forall|j: int| 0 <= j < docs@.len() implies row_view(#[trigger] docs@[j]) == rows[i + 1 + j] by {}
        }
        let ghost m = docs_view(firsts);
        if firsts.get(e.path.as_str()).is_none() {
            let ghost ev = row_view(e);
            let key = copy_string(&e.path);
            firsts.insert(key, e);
            assert(docs_view(firsts) =~= m.insert(ev.path, ev));
        }
        i = i + 1;
    }
    assert(rows.take(n as int) =~= rows);
    let ghost first = docs_view(firsts);
    let fields = metadata.fields_by_path();
    let ghost fm = fields_map(metadata.fields_spec());
    proof {
        firsts.lemma_wf_sorted();
        StrMap::<EnvDocEntry>::lemma_keys_are_entries(firsts);
    }
    let mut out: Vec<EnvDocEntry> = Vec::new();
    let mut k: usize = 0;
    while k < firsts.len()
        invariant
            k <= firsts.entries().len(),
            firsts.wf(),
            crate::strmap::sorted_keys(firsts.entries()),
            first == docs_view(firsts),
            first == first_rows(schema_rows(schema@)),
            forall|x: Seq<char>| #[trigger] firsts.get_spec(x) matches Some(v) ==> v.path@ == x,
            fields.wf(),
            forall|x: Seq<char>| #[trigger] fields.get_spec(x) is Some <==> fm.contains_key(x),
            forall|x: Seq<char>| #[trigger] fields.get_spec(x) matches Some(f) ==> field_model(f) == fm[x],
            fm == fields_map(metadata.fields_spec()),
            out@.len() == k,
            forall|l: int| 0 <= l < k ==> (#[trigger] out@[l]).path@ == firsts.entries()[l].0@,
            forall|l: int| 0 <= l < k ==> first.contains_key((#[trigger] out@[l]).path@)
                && documented(row_view(out@[l]), first[out@[l].path@], fm, options@),
        decreases firsts.entries().len() - k,
    {
        let (key, e) = firsts.entry_at(k);
        proof {
            firsts.lemma_entry(k as int);
        }
        assert(first.contains_key(key@));
        assert(first[key@] == row_view(*e));
        assert(e.path@ == key@);
        let a = apply_field_metadata(e, &fields, options, Ghost(fm));
        out.push(a);
        k = k + 1;
    }
    assert forall|x: Seq<char>| #[trigger] first.contains_key(x) implies exists|i: int| 0 <= i < out@.len() && out@[i].path@ == x by {
        assert(firsts.get_spec(x) is Some);
        let j = choose|j: int| 0 <= j < firsts.entries().len() && #[trigger] firsts.entries()[j].0@ == x;
        assert(out@[j].path@ == x);
    }
    out
}

/// A table cell's text: `|` escaped, and line breaks turned into spaces
/// when `newlines` is set.
pub open spec fn cell_text(s: Seq<char>, newlines: bool) -> Seq<char>
    decreases s.len(),
{
    if s.len() == 0 {
        Seq::empty()
    } else {
        let c = s.last();
        cell_text(s.drop_last(), newlines) + (if newlines && c == '\n' {
            seq![' ']
        } else if c == '|' {
            seq!['\\', '|']
        } else {
            seq![c]
        })
    }
}

pub open spec fn yes_no(b: bool) -> Seq<char> {
    if b { "yes"@ } else { "no"@ }
}

pub open spec fn merge_name(m: MergeStrategy) -> Seq<char> {
    match m {
        MergeStrategy::Merge => "merge"@,
        MergeStrategy::Replace => "replace"@,
        MergeStrategy::Append => "append"@,
    }
}

pub open spec fn or_empty(o: Option<Seq<char>>) -> Seq<char> {
    match o {
        Some(s) => s,
        None => Seq::empty(),
    }
}

/// The pieces of one table line for a row (the validation column is
/// empty: fields carry no validation rules here).
pub open spec fn line_pieces(r: DocRow) -> Seq<Seq<char>> {
    seq!["| `"@, r.path, "` | `"@, r.env, "` | `"@, r.ty, "` | "@, yes_no(r.required), " | "@, yes_no(r.has_default),
        " | `"@, merge_name(r.merge), "` | "@, yes_no(r.secret), " | "@, " | "@,
        cell_text(join(r.aliases, ", "@), false), " | "@, cell_text(or_empty(r.deprecated), true),
        " | "@, cell_text(or_empty(r.example), true), " | "@, cell_text(or_empty(r.description), true), " |\n"@]
}

/// One table line for a row.
pub open spec fn markdown_line(r: DocRow) -> Seq<char> {
    join(line_pieces(r), Seq::empty())
}

pub open spec fn markdown_header() -> Seq<char> {
    "| Path | Env | Type | Required | Default | Merge | Secret | Validation | Aliases | Deprecated | Example | Description |\n"@
        + "| --- | --- | --- | --- | --- | --- | --- | --- | --- | --- | --- | --- |\n"@
}

pub open spec fn markdown_lines(rows: Seq<DocRow>) -> Seq<char>
    decreases rows.len(),
{
    if rows.len() == 0 {
        Seq::empty()
    } else {
        markdown_lines(rows.drop_last()) + markdown_line(rows.last())
    }
}

fn push_cell(out: &mut Vec<char>, s: &[char], newlines: bool)
    ensures
        final(out)@ == old(out)@ + cell_text(s@, newlines),
{
    let ghost start = out@;
    let mut i: usize = 0;
    while i < s.len()
        invariant
            i <= s@.len(),
            out@ == start + cell_text(s@.take(i as int), newlines),
        decreases s@.len() - i,
    {
        let c = s[i];
        let ghost before = out@;
        assert(s@.take(i + 1).drop_last() =~= s@.take(i as int));
        if newlines && c == '\n' {
            out.push(' ');
        } else if c == '|' {
            out.push('\\');
            out.push('|');
        } else {
            out.push(c);
        }
        assert(out@ =~= start + cell_text(s@.take(i + 1), newlines));
        i = i + 1;
    }
    assert(s@.take(s@.len() as int) =~= s@);
}

fn push_text(out: &mut Vec<char>, s: &str)
    ensures
        final(out)@ == old(out)@ + s@,
{
    crate::text::append_chars(out, &chars_of(s));
}

fn opt_chars(o: &Option<String>) -> (r: Vec<char>)
    ensures
        r@ == or_empty(opt_text(*o)),
{
    match o {
        Some(s) => chars_of(s.as_str()),
        None => Vec::new(),
    }
}

fn yes_no_text(b: bool) -> (r: &'static str)
    ensures
        r@ == yes_no(b),
{
    if b { "yes" } else { "no" }
}

fn cell_chars(s: &[char], newlines: bool) -> (r: Vec<char>)
    ensures
        r@ == cell_text(s@, newlines),
{
    let mut v: Vec<char> = Vec::new();
    push_cell(&mut v, s, newlines);
    v
}

fn push_markdown_line(out: &mut Vec<char>, e: &EnvDocEntry)
    ensures
        final(out)@ == old(out)@ + markdown_line(row_view(*e)),
{
    let mut parts: Vec<Vec<char>> = Vec::new();
    let mut k: usize = 0;
    while k < e.aliases.len()
        invariant
            k <= e.aliases@.len(),
            views(parts@) == string_views(e.aliases@).take(k as int),
        decreases e.aliases@.len() - k,
    {
        let ghost pb = views(parts@);
        parts.push(chars_of(e.aliases[k].as_str()));
        assert(views(parts@) =~= pb.push(e.aliases@[k as int]@));
        assert(string_views(e.aliases@).take(k + 1) =~= string_views(e.aliases@).take(k as int).push(e.aliases@[k as int]@));
        k = k + 1;
    }
    assert(string_views(e.aliases@).take(e.aliases@.len() as int) =~= string_views(e.aliases@));
    let sep = chars_of(", ");
    let joined_aliases = join_chars(&parts, &sep);
    let mut pieces: Vec<Vec<char>> = Vec::new();
    pieces.push(chars_of("| `"));
    pieces.push(chars_of(e.path.as_str()));
    pieces.push(chars_of("` | `"));
    pieces.push(chars_of(e.env.as_str()));
    pieces.push(chars_of("` | `"));
    pieces.push(chars_of(e.ty.as_str()));
    pieces.push(chars_of("` | "));
    pieces.push(chars_of(yes_no_text(e.required)));
    pieces.push(chars_of(" | "));
    pieces.push(chars_of(yes_no_text(e.has_default)));
    pieces.push(chars_of(" | `"));
    pieces.push(chars_of(e.merge.label().as_str()));
    pieces.push(chars_of("` | "));
    pieces.push(chars_of(yes_no_text(e.secret)));
    pieces.push(chars_of(" | "));
    pieces.push(chars_of(" | "));
    pieces.push(cell_chars(&joined_aliases, false));
    pieces.push(chars_of(" | "));
    pieces.push(cell_chars(&opt_chars(&e.deprecated), true));
    pieces.push(chars_of(" | "));
    pieces.push(cell_chars(&opt_chars(&e.example), true));
    pieces.push(chars_of(" | "));
    pieces.push(cell_chars(&opt_chars(&e.description), true));
    pieces.push(chars_of(" |\n"));
    assert(pieces@.map_values(|p: Vec<char>| p@) =~= line_pieces(row_view(*e)));
    let empty: Vec<char> = Vec::new();
    let line = join_chars(&pieces, &empty);
    assert(empty@ =~= Seq::<char>::empty());
    crate::text::append_chars(out, &line);
}

/// Renders documentation rows as a Markdown table.
pub fn env_docs_markdown(rows: &Vec<EnvDocEntry>) -> (r: String)
    ensures
        r@ == markdown_header() + markdown_lines(rows_view(rows@)),
{
    let mut out: Vec<char> = Vec::new();
    push_text(&mut out, "| Path | Env | Type | Required | Default | Merge | Secret | Validation | Aliases | Deprecated | Example | Description |\n");
    push_text(&mut out, "| --- | --- | --- | --- | --- | --- | --- | --- | --- | --- | --- | --- |\n");
    let ghost head = out@;
    assert(head =~= markdown_header());
    let mut i: usize = 0;
    while i < rows.len()
        invariant
            i <= rows@.len(),
            head == markdown_header(),
            out@ == head + markdown_lines(rows_view(rows@).take(i as int)),
        decreases rows@.len() - i,
    {
        let e = &rows[i];
        let ghost before = out@;
        let ghost rv = row_view(*e);
        push_markdown_line(&mut out, e);
        proof {
            assert(rows_view(rows@)[i as int] == rv);
            assert(rows_view(rows@).take(i + 1).drop_last() =~= rows_view(rows@).take(i as int));
        }
        i = i + 1;
    }
    assert(rows_view(rows@).take(rows@.len() as int) =~= rows_view(rows@));
    string_of(&out)
}

/// Versioned environment variable documentation.
pub struct EnvDocsReport {
    /// The version of this payload's layout.
    pub format_version: u32,
    /// The documentation rows.
    pub entries: Vec<EnvDocEntry>,
}

/// The rows as a versioned report (layout version 1).
pub fn env_docs_report(entries: Vec<EnvDocEntry>) -> (r: EnvDocsReport)
    ensures
        r.format_version == 1,
        rows_view(r.entries@) == rows_view(entries@),
{
    EnvDocsReport { format_version: 1, entries }
}

} // verus!
