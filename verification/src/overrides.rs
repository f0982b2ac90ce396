//! Values decoded from single override texts, and the object keys such
//! values may not hold.
use vstd::prelude::*;
use crate::text::{chars_of, string_of, copy_string, decimal, decimal_chars, string_views};
use crate::json::{JsonValue, Json, json_of, items_view, entries_view, lemma_array_view, lemma_object_view};
use crate::path::{joined, join_path};
use crate::env::{key_problem, invalid_path_key_message};
use crate::error::ConfigError;
use crate::text::{split, nonempty, views, is_space, is_space_char, split_chars, slice_chars};
use crate::docs::{trim, trim_chars};
use crate::metadata::EnvDecoder;
use crate::strmap::StrMap;
use crate::arrays::set_view;
use crate::args::{json_table, char_index, find_char, ParsedOverride, override_result, table_view, json_syntax, parse_override_value};
use crate::json::{entry_insert, entries_insert};
use crate::sources::{cat, strmap_view};
use crate::parse::{json_text, read_json};
use crate::path::{overlap, paths_overlap};
use crate::strmap::{seq_lt, lemma_lt_irrefl, lemma_lt_total};

verus! {

/// The first object key below `j` (at `cur`) that cannot be a path
/// segment, in document order: the path of its object, the key, and why.
pub open spec fn first_bad_key(j: Json, cur: Seq<char>) -> Option<(Seq<char>, Seq<char>, Seq<char>)>
    decreases j, 0nat,
{
    match j {
        Json::Object(es) => bad_entries(es, cur, es.len()),
        Json::Array(items) => bad_items(items, cur, items.len()),
        _ => None,
    }
}

pub open spec fn bad_entries(es: Seq<(Seq<char>, Json)>, cur: Seq<char>, n: nat) -> Option<(Seq<char>, Seq<char>, Seq<char>)>
    decreases es, n,
{
    if n == 0 || n > es.len() {
        None
    } else {
        match bad_entries(es, cur, (n - 1) as nat) {
            Some(x) => Some(x),
            None => match key_problem(es[n - 1].0) {
                Some(m) => Some((cur, es[n - 1].0, m)),
                None => first_bad_key(es[n - 1].1, joined(cur, es[n - 1].0)),
            },
        }
    }
}

pub open spec fn bad_items(items: Seq<Json>, cur: Seq<char>, n: nat) -> Option<(Seq<char>, Seq<char>, Seq<char>)>
    decreases items, n,
{
    if n == 0 || n > items.len() {
        None
    } else {
        match bad_items(items, cur, (n - 1) as nat) {
            Some(x) => Some(x),
            None => first_bad_key(items[n - 1], joined(cur, decimal((n - 1) as nat))),
        }
    }
}

pub open spec fn key_error_is(r: Result<(), ConfigError>, bad: Option<(Seq<char>, Seq<char>, Seq<char>)>) -> bool {
    match bad {
        None => r is Ok,
        Some((p, k, m)) => r matches Err(ConfigError::InvalidPathKey { path, key, message })
            && path@ == p && key@ == k && message@ == m,
    }
}

/// Refuses a value holding an object key that cannot be a path segment.
#[verifier::loop_isolation(false)]
pub fn ensure_path_safe_keys(value: &JsonValue, current_path: &str) -> (r: Result<(), ConfigError>)
    ensures
        key_error_is(r, first_bad_key(value@, current_path@)),
    decreases value,
{
    match value {
        JsonValue::Object(es) => {
            proof {
                lemma_object_view(*es);
            }
            let ghost ev = entries_view(es@);
            let mut i: usize = 0;
            while i < es.len()
                invariant
                    i <= es@.len(),
                    ev == entries_view(es@),
                    *value == JsonValue::Object(*es),
                    bad_entries(ev, current_path@, i as nat) is None,
                decreases es@.len() - i,
            {
                proof {
                    assert(decreases_to!(*value => *es));
                    assert(decreases_to!(*es => es@));
                    assert(decreases_to!(es@ => es@[i as int]));
                    assert(decreases_to!(es@[i as int] => es@[i as int].1));
                }
                assert(ev[i as int] == (es@[i as int].0@, es@[i as int].1@));
                match validate_path_key(current_path, es[i].0.as_str()) {
                    Err(e) => {
                        proof {
                            lemma_bad_entries_stop(ev, current_path@, (i + 1) as nat);
                        }
                        return Err(e);
                    },
                    Ok(()) => {},
                }
                let next = join_path(current_path, es[i].0.as_str());
                match ensure_path_safe_keys(&es[i].1, next.as_str()) {
                    Err(e) => {
                        proof {
                            lemma_bad_entries_stop(ev, current_path@, (i + 1) as nat);
                        }
                        return Err(e);
                    },
                    Ok(()) => {},
                }
                i = i + 1;
            }
            Ok(())
        },
        JsonValue::Array(items) => {
            proof {
                lemma_array_view(*items);
            }
            let ghost iv = items_view(items@);
            let mut i: usize = 0;
            while i < items.len()
                invariant
                    i <= items@.len(),
                    iv == items_view(items@),
                    *value == JsonValue::Array(*items),
                    bad_items(iv, current_path@, i as nat) is None,
                decreases items@.len() - i,
            {
                proof {
                    assert(decreases_to!(*value => *items));
                    assert(decreases_to!(*items => items@));
                    assert(decreases_to!(items@ => items@[i as int]));
                }
                assert(iv[i as int] == items@[i as int]@);
                let idx = string_of(&decimal_chars(i));
                let next = join_path(current_path, idx.as_str());
                match ensure_path_safe_keys(&items[i], next.as_str()) {
                    Err(e) => {
                        proof {
                            lemma_bad_items_stop(iv, current_path@, (i + 1) as nat);
                        }
                        return Err(e);
                    },
                    Ok(()) => {},
                }
                i = i + 1;
            }
            Ok(())
        },
        _ => Ok(()),
    }
}

proof fn lemma_bad_entries_stop(es: Seq<(Seq<char>, Json)>, cur: Seq<char>, n: nat)
    requires
        n <= es.len(),
        bad_entries(es, cur, n) is Some,
    ensures
        bad_entries(es, cur, es.len()) == bad_entries(es, cur, n),
    decreases es.len() - n,
{
    if n < es.len() {
        lemma_bad_entries_stop(es, cur, n + 1);
    }
}

proof fn lemma_bad_items_stop(items: Seq<Json>, cur: Seq<char>, n: nat)
    requires
        n <= items.len(),
        bad_items(items, cur, n) is Some,
    ensures
        bad_items(items, cur, items.len()) == bad_items(items, cur, n),
    decreases items.len() - n,
{
    if n < items.len() {
        lemma_bad_items_stop(items, cur, n + 1);
    }
}

/// Refuses an object key that cannot be a path segment.
pub fn validate_path_key(current_path: &str, key: &str) -> (r: Result<(), ConfigError>)
    ensures
        key_error_is(r, match key_problem(key@) {
            Some(m) => Some((current_path@, key@, m)),
            None => None,
        }),
{
    match invalid_path_key_message(key) {
        Some(message) => Err(ConfigError::InvalidPathKey { path: current_path.to_string(), key: key.to_string(), message }),
        None => Ok(()),
    }
}

/// Splitting at every white-space character (each one ends a piece).
pub open spec fn split_space(s: Seq<char>) -> Seq<Seq<char>>
    decreases s.len(),
{
    if s.len() == 0 {
        seq![Seq::<char>::empty()]
    } else {
        let p = split_space(s.drop_last());
        if is_space(s.last()) {
            p.push(Seq::<char>::empty())
        } else {
            p.update(p.len() - 1, p.last().push(s.last()))
        }
    }
}

proof fn lemma_split_space_nonempty(s: Seq<char>)
    ensures
        split_space(s).len() >= 1,
    decreases s.len(),
{
    if s.len() > 0 {
        lemma_split_space_nonempty(s.drop_last());
    }
}

/// The white-space separated words of `s` (`str::split_whitespace`).
pub open spec fn words(s: Seq<char>) -> Seq<Seq<char>> {
    nonempty(split_space(s))
}

/// The comma-separated items of `s`, trimmed, without empty ones.
pub open spec fn csv_items(s: Seq<char>) -> Seq<Seq<char>> {
    nonempty(split(s, ',').map_values(|p: Seq<char>| trim(p)))
}

pub open spec fn strings_json(ps: Seq<Seq<char>>) -> Json {
    Json::Array(ps.map_values(|p: Seq<char>| Json::Str(p)))
}

/// The first `n` `key=value` entries read into an ordered map.
pub open spec fn kv_fold(entries: Seq<Seq<char>>, n: nat) -> Result<Seq<(Seq<char>, Json)>, Seq<char>>
    decreases n,
{
    if n == 0 || n > entries.len() {
        Ok(Seq::empty())
    } else {
        match kv_fold(entries, (n - 1) as nat) {
            Err(e) => Err(e),
            Ok(es) => {
                let entry = entries[n - 1];
                match char_index(entry, '=') {
                    None => Err("invalid key_value_map entry `"@ + entry + "`, expected key=value"@),
                    Some(i) => {
                        let k = trim(entry.take(i));
                        if k.len() == 0 {
                            Err("key_value_map entries must not use an empty key"@)
                        } else {
                            Ok(entry_insert(es, k, Json::Str(trim(entry.skip(i + 1)))))
                        }
                    },
                }
            },
        }
    }
}

/// What a decoder makes of a variable's text; `paths` is what the platform
/// reads the text as when it is a path list.
pub open spec fn decoded(raw: Seq<char>, decoder: EnvDecoder, paths: Seq<Seq<char>>) -> Result<Json, Seq<char>> {
    match decoder {
        EnvDecoder::Csv => Ok(strings_json(csv_items(raw))),
        EnvDecoder::Whitespace => Ok(strings_json(words(raw))),
        EnvDecoder::PathList => Ok(strings_json(paths)),
        EnvDecoder::KeyValueMap => match kv_fold(csv_items(raw), csv_items(raw).len()) {
            Ok(es) => Ok(Json::Object(es)),
            Err(e) => Err(e),
        },
    }
}

fn csv_items_exec(raw: &str) -> (r: Vec<Vec<char>>)
    ensures
        views(r@) == csv_items(raw@),
{
    let parts = split_chars(&chars_of(raw), ',');
    let ghost sp = split(raw@, ',');
    let ghost tp = sp.map_values(|p: Seq<char>| trim(p));
    let mut out: Vec<Vec<char>> = Vec::new();
    let mut i: usize = 0;
    while i < parts.len()
        invariant
            i <= parts@.len(),
            parts@.len() == sp.len(),
            forall|k: int| 0 <= k < parts@.len() ==> (#[trigger] parts@[k])@ == sp[k],
            tp == sp.map_values(|p: Seq<char>| trim(p)),
            views(out@) == nonempty(tp.take(i as int)),
        decreases parts@.len() - i,
    {
        let t = trim_chars(&parts[i]);
        assert(tp.take(i + 1).drop_last() =~= tp.take(i as int));
        assert(tp.take(i + 1).last() == trim(sp[i as int]));
        if t.len() > 0 {
            let ghost before = views(out@);
            out.push(t);
            assert(views(out@) =~= before.push(trim(sp[i as int])));
        }
        i = i + 1;
    }
    assert(tp.take(parts@.len() as int) =~= tp);
    out
}

fn words_exec(raw: &str) -> (r: Vec<Vec<char>>)
    ensures
        views(r@) == words(raw@),
{
    let cs = chars_of(raw);
    let mut out: Vec<Vec<char>> = Vec::new();
    let mut cur: Vec<char> = Vec::new();
    let mut i: usize = 0;
    proof {
        lemma_split_space_nonempty(Seq::<char>::empty());
        assert(cs@.take(0) =~= Seq::<char>::empty());
    }
    while i < cs.len()
        invariant
            i <= cs@.len(),
            split_space(cs@.take(i as int)).len() >= 1,
            views(out@) == nonempty(split_space(cs@.take(i as int)).drop_last()),
            cur@ == split_space(cs@.take(i as int)).last(),
        decreases cs@.len() - i,
    {
        let c = cs[i];
        let ghost p = split_space(cs@.take(i as int));
        assert(cs@.take(i + 1).drop_last() =~= cs@.take(i as int));
        assert(cs@.take(i + 1).last() == c);
        if is_space_char(c) {
            let ghost q = p.push(Seq::<char>::empty());
            assert(q.drop_last() =~= p);
            assert(p =~= p.drop_last().push(p.last()));
            if cur.len() > 0 {
                let ghost before = views(out@);
                out.push(cur);
                assert(views(out@) =~= before.push(p.last()));
            }
            cur = Vec::new();
            assert(cur@ =~= q.last());
        } else {
            let ghost q = p.update(p.len() - 1, p.last().push(c));
            assert(q.drop_last() =~= p.drop_last());
            cur.push(c);
        }
        i = i + 1;
    }
    assert(cs@.take(cs@.len() as int) =~= cs@);
    let ghost p = split_space(cs@);
    assert(p =~= p.drop_last().push(p.last()));
    if cur.len() > 0 {
        let ghost before = views(out@);
        out.push(cur);
        assert(views(out@) =~= before.push(p.last()));
    }
    out
}

fn strings_value(ps: Vec<Vec<char>>) -> (r: JsonValue)
    ensures
        r@ == strings_json(views(ps@)),
{
    let mut out: Vec<JsonValue> = Vec::new();
    let mut i: usize = 0;
    while i < ps.len()
        invariant
            i <= ps@.len(),
            items_view(out@) == views(ps@).take(i as int).map_values(|p: Seq<char>| Json::Str(p)),
        decreases ps@.len() - i,
    {
        let ghost before = items_view(out@);
        out.push(JsonValue::String(string_of(&ps[i])));
        assert(items_view(out@) =~= before.push(Json::Str(ps@[i as int]@)));
        assert(views(ps@).take(i + 1).map_values(|p: Seq<char>| Json::Str(p))
            =~= views(ps@).take(i as int).map_values(|p: Seq<char>| Json::Str(p)).push(Json::Str(ps@[i as int]@)));
        i = i + 1;
    }
    assert(views(ps@).take(ps@.len() as int) =~= views(ps@));
    proof {
        lemma_array_view(out);
    }
    JsonValue::Array(out)
}

proof fn lemma_kv_stop(entries: Seq<Seq<char>>, n: nat)
    requires
        n <= entries.len(),
        kv_fold(entries, n) is Err,
    ensures
        kv_fold(entries, entries.len()) == kv_fold(entries, n),
    decreases entries.len() - n,
{
    if n < entries.len() {
        lemma_kv_stop(entries, n + 1);
    }
}

/// Decodes a variable's text with a built-in decoder; `split_paths` holds
/// the pieces the platform reads the text as, for a path list.
#[verifier::loop_isolation(false)]
pub fn decode_env_override_value(raw: &str, decoder: EnvDecoder, split_paths: &Vec<String>) -> (r: Result<JsonValue, String>)
    ensures
        match decoded(raw@, decoder, string_views(split_paths@)) {
            Ok(j) => r matches Ok(v) && v@ == j,
            Err(e) => r matches Err(m) && m@ == e,
        },
{
    match decoder {
        EnvDecoder::Csv => Ok(strings_value(csv_items_exec(raw))),
        EnvDecoder::Whitespace => Ok(strings_value(words_exec(raw))),
        EnvDecoder::PathList => {
            let mut ps: Vec<Vec<char>> = Vec::new();
            let mut i: usize = 0;
            while i < split_paths.len()
                invariant
                    i <= split_paths@.len(),
                    views(ps@) == string_views(split_paths@).take(i as int),
                decreases split_paths@.len() - i,
            {
                let ghost before = views(ps@);
                ps.push(chars_of(split_paths[i].as_str()));
                assert(views(ps@) =~= before.push(split_paths@[i as int]@));
                assert(string_views(split_paths@).take(i + 1) =~= string_views(split_paths@).take(i as int).push(split_paths@[i as int]@));
                i = i + 1;
            }
            assert(string_views(split_paths@).take(split_paths@.len() as int) =~= string_views(split_paths@));
            Ok(strings_value(ps))
        },
        EnvDecoder::KeyValueMap => {
            let items = csv_items_exec(raw);
            let ghost iv = views(items@);
            let mut es: Vec<(String, JsonValue)> = Vec::new();
            let mut i: usize = 0;
            assert(entries_view(es@) =~= Seq::<(Seq<char>, Json)>::empty());
            while i < items.len()
                invariant
                    i <= items@.len(),
                    iv == views(items@),
                    iv == csv_items(raw@),
                    kv_fold(iv, i as nat) == Ok::<Seq<(Seq<char>, Json)>, Seq<char>>(entries_view(es@)),
                decreases items@.len() - i,
            {
                let entry = &items[i];
                assert(iv[i as int] == entry@);
                match find_char(entry, '=') {
                    None => {
                        proof {
                            lemma_kv_stop(iv, (i + 1) as nat);
                        }
                        return Err(cat(&cat("invalid key_value_map entry `", string_of(entry).as_str()), "`, expected key=value"));
                    },
                    Some(k) => {
                        let elen = entry.len();
                        assert(k < elen);
                        let key = trim_chars(&slice_chars(entry, 0, k));
                        assert(entry@.subrange(0, k as int) =~= entry@.take(k as int));
                        if key.len() == 0 {
                            proof {
                                lemma_kv_stop(iv, (i + 1) as nat);
                            }
                            return Err("key_value_map entries must not use an empty key".to_string());
                        }
                        let val = trim_chars(&slice_chars(entry, k + 1, entry.len()));
                        assert(entry@.subrange(k + 1, entry@.len() as int) =~= entry@.skip(k + 1));
                        entries_insert(&mut es, string_of(&key), JsonValue::String(string_of(&val)));
                    },
                }
                i = i + 1;
            }
            let r = JsonValue::Object(es);
            proof {
                lemma_object_view(es);
            }
            Ok(r)
        },
    }
}

/// The paths (below `cur`) of the string leaves of `j`.
pub open spec fn leaves(j: Json, cur: Seq<char>) -> Set<Seq<char>>
    decreases j, 0nat,
{
    match j {
        Json::Str(_) => set![cur],
        Json::Array(items) => leaves_items(items, cur, items.len()),
        Json::Object(es) => leaves_entries(es, cur, es.len()),
        _ => Set::empty(),
    }
}

pub open spec fn leaves_items(items: Seq<Json>, cur: Seq<char>, n: nat) -> Set<Seq<char>>
    decreases items, n,
{
    if n == 0 || n > items.len() {
        Set::empty()
    } else {
        leaves_items(items, cur, (n - 1) as nat) + leaves(items[n - 1], joined(cur, decimal((n - 1) as nat)))
    }
}

pub open spec fn leaves_entries(es: Seq<(Seq<char>, Json)>, cur: Seq<char>, n: nat) -> Set<Seq<char>>
    decreases es, n,
{
    if n == 0 || n > es.len() {
        Set::empty()
    } else {
        leaves_entries(es, cur, (n - 1) as nat) + leaves(es[n - 1].1, joined(cur, es[n - 1].0))
    }
}

#[verifier::loop_isolation(false)]
fn collect_leaves(value: &JsonValue, prefix: &str, out: &mut StrMap<()>)
    requires
        old(out).wf(),
    ensures
        final(out).wf(),
        set_view(*final(out)) == set_view(*old(out)) + leaves(value@, prefix@),
    decreases value,
{
    match value {
        JsonValue::String(_) => {
            let ghost before = *out;
            out.insert(prefix.to_string(), ());
            assert(set_view(*out) =~= set_view(before) + set![prefix@]);
        },
        JsonValue::Array(items) => {
            proof {
                lemma_array_view(*items);
            }
            let ghost iv = items_view(items@);
            let ghost start = set_view(*out);
            let mut i: usize = 0;
            assert(start + Set::<Seq<char>>::empty() =~= start);
            while i < items.len()
                invariant
                    i <= items@.len(),
                    out.wf(),
                    iv == items_view(items@),
                    set_view(*out) == start + leaves_items(iv, prefix@, i as nat),
                decreases items@.len() - i,
            {
                proof {
                    assert(decreases_to!(*value => *items));
                    assert(decreases_to!(*items => items@));
                    assert(decreases_to!(items@ => items@[i as int]));
                }
                assert(iv[i as int] == items@[i as int]@);
                let idx = string_of(&decimal_chars(i));
                let next = join_path(prefix, idx.as_str());
                collect_leaves(&items[i], next.as_str(), out);
                assert(start + leaves_items(iv, prefix@, (i + 1) as nat) =~= start + leaves_items(iv, prefix@, i as nat)
                    + leaves(iv[i as int], joined(prefix@, decimal(i as nat))));
                i = i + 1;
            }
        },
        JsonValue::Object(es) => {
            proof {
                lemma_object_view(*es);
            }
            let ghost ev = entries_view(es@);
            let ghost start = set_view(*out);
            let mut i: usize = 0;
            assert(start + Set::<Seq<char>>::empty() =~= start);
            while i < es.len()
                invariant
                    i <= es@.len(),
                    out.wf(),
                    ev == entries_view(es@),
                    set_view(*out) == start + leaves_entries(ev, prefix@, i as nat),
                decreases es@.len() - i,
            {
                proof {
                    assert(decreases_to!(*value => *es));
                    assert(decreases_to!(*es => es@));
                    assert(decreases_to!(es@ => es@[i as int]));
                    assert(decreases_to!(es@[i as int] => es@[i as int].1));
                }
                assert(ev[i as int] == (es@[i as int].0@, es@[i as int].1@));
                let next = join_path(prefix, es[i].0.as_str());
                collect_leaves(&es[i].1, next.as_str(), out);
                assert(start + leaves_entries(ev, prefix@, (i + 1) as nat) =~= start + leaves_entries(ev, prefix@, i as nat)
                    + leaves(ev[i as int].1, joined(prefix@, ev[i as int].0)));
                i = i + 1;
            }
        },
        _ => {
            assert(set_view(*out) + Set::<Seq<char>>::empty() =~= set_view(*out));
        },
    }
}

/// The paths (below `prefix`) of the string leaves of `value`.
pub fn collect_string_leaf_suffixes(value: &JsonValue, prefix: &str) -> (r: StrMap<()>)
    ensures
        r.wf(),
        set_view(r) == leaves(value@, prefix@),
{
    let mut out: StrMap<()> = StrMap::new();
    assert(set_view(out) =~= Set::<Seq<char>>::empty());
    collect_leaves(value, prefix, &mut out);
    assert(set_view(out) =~= leaves(value@, prefix@));
    out
}

/// How an environment variable's text is read: by the custom decoder of
/// its path (whose outcome is `custom`), else by its built-in decoder, else
/// as an override text. Decoded values may retry any string leaf.
pub open spec fn env_override_result(
    raw: Seq<char>,
    decoder: Option<EnvDecoder>,
    custom: Option<Result<Json, Seq<char>>>,
    paths: Seq<Seq<char>>,
    table: Map<Seq<char>, Result<Json, Seq<char>>>,
) -> Result<(Json, Set<Seq<char>>), Seq<char>> {
    match custom {
        Some(Err(e)) => Err(e),
        Some(Ok(v)) => Ok((v, leaves(v, Seq::empty()))),
        None => match decoder {
            Some(d) => match decoded(raw, d, paths) {
                Ok(v) => Ok((v, leaves(v, Seq::empty()))),
                Err(e) => Err(e),
            },
            None => override_result(raw, table),
        },
    }
}

/// Reads an environment variable's text into an override value.
/// `custom` is what the path's custom decoder returned, when it has one;
/// `split_paths` is what the platform reads the text as (for a path list);
/// text in JSON syntax is read by the JSON parser.
pub fn parse_env_override_value(
    raw: &str,
    decoder: Option<EnvDecoder>,
    custom: Option<Result<JsonValue, String>>,
    split_paths: &Vec<String>,
) -> (r: Result<ParsedOverride, String>)
    ensures
        match env_override_result(raw@, decoder, match custom {
            Some(Ok(v)) => Some(Ok(v@)),
            Some(Err(e)) => Some(Err(e@)),
            None => None,
        }, string_views(split_paths@), json_table()) {
            Ok((v, s)) => r matches Ok(p) && p.value@ == v && set_view(p.string_coercion_suffixes) == s
                && p.string_coercion_suffixes.wf(),
            Err(e) => r matches Err(m) && m@ == e,
        },
{
    match custom {
        Some(Err(e)) => Err(e),
        Some(Ok(value)) => {
            let suffixes = collect_string_leaf_suffixes(&value, "");
            proof {
                reveal_strlit("");
                assert(""@ =~= Seq::<char>::empty());
            }
            Ok(ParsedOverride { value, string_coercion_suffixes: suffixes })
        },
        None => match decoder {
            Some(d) => match decode_env_override_value(raw, d, split_paths) {
                Err(e) => Err(e),
                Ok(value) => {
                    let suffixes = collect_string_leaf_suffixes(&value, "");
                    proof {
                        reveal_strlit("");
                        assert(""@ =~= Seq::<char>::empty());
                    }
                    Ok(ParsedOverride { value, string_coercion_suffixes: suffixes })
                },
            },
            None => parse_override_value(raw),
        },
    }
}

/// The scalar that a string override retries as: the JSON read of its
/// trimmed text, kept when it is null, a boolean or a number.
pub open spec fn retried(raw: Seq<char>) -> Option<Json> {
    match json_text(trim(raw)) {
        Ok(j) => if j is Null || j is Bool || j is Number { Some(j) } else { None },
        Err(_) => None,
    }
}

/// Reads a string override again as a JSON scalar (null, boolean or
/// number), ignoring surrounding white space.
pub fn retry_scalar_value(raw: &str) -> (r: Option<JsonValue>)
    ensures
        match r {
            Some(v) => retried(raw@) == Some(v@),
            None => retried(raw@) is None,
        },
{
    let t = string_of(&trim_chars(&chars_of(raw)));
    match read_json(t.as_str()) {
        Ok(v) => match v {
            JsonValue::Null | JsonValue::Bool(_) | JsonValue::Number(_) => Some(v),
            _ => None,
        },
        Err(_) => None,
    }
}

/// `j` (at `cur`) with each string at one of `paths` replaced by the scalar
/// it reads as, where it reads as one.
pub open spec fn coerced(j: Json, cur: Seq<char>, paths: Set<Seq<char>>) -> Json
    decreases j, 0nat,
{
    match j {
        Json::Object(es) => Json::Object(coerced_entries(es, cur, paths, es.len())),
        Json::Array(items) => Json::Array(coerced_items(items, cur, paths, items.len())),
        Json::Str(raw) => if paths.contains(cur) {
            match retried(raw) {
                Some(x) => x,
                None => j,
            }
        } else {
            j
        },
        _ => j,
    }
}

pub open spec fn coerced_items(items: Seq<Json>, cur: Seq<char>, paths: Set<Seq<char>>, n: nat) -> Seq<Json>
    decreases items, n,
{
    if n == 0 || n > items.len() {
        Seq::empty()
    } else {
        coerced_items(items, cur, paths, (n - 1) as nat).push(coerced(items[n - 1], joined(cur, decimal((n - 1) as nat)), paths))
    }
}

pub open spec fn coerced_entries(es: Seq<(Seq<char>, Json)>, cur: Seq<char>, paths: Set<Seq<char>>, n: nat) -> Seq<(Seq<char>, Json)>
    decreases es, n,
{
    if n == 0 || n > es.len() {
        Seq::empty()
    } else {
        coerced_entries(es, cur, paths, (n - 1) as nat).push((es[n - 1].0, coerced(es[n - 1].1, joined(cur, es[n - 1].0), paths)))
    }
}

/// Retries the strings at `string_coercion_paths` as JSON scalars.
#[verifier::loop_isolation(false)]
pub fn coerce_retry_scalars(value: &JsonValue, current_path: &str, string_coercion_paths: &StrMap<()>) -> (r: JsonValue)
    requires
        string_coercion_paths.wf(),
    ensures
        r@ == coerced(value@, current_path@, set_view(*string_coercion_paths)),
    decreases value,
{
    let ghost ps = set_view(*string_coercion_paths);
    match value {
        JsonValue::Object(es) => {
            proof {
                lemma_object_view(*es);
            }
            let ghost ev = entries_view(es@);
            let mut out: Vec<(String, JsonValue)> = Vec::new();
            let mut i: usize = 0;
            while i < es.len()
                invariant
                    i <= es@.len(),
                    ev == entries_view(es@),
                    entries_view(out@) == coerced_entries(ev, current_path@, ps, i as nat),
                decreases es@.len() - i,
            {
                proof {
                    assert(decreases_to!(*value => *es));
                    assert(decreases_to!(*es => es@));
                    assert(decreases_to!(es@ => es@[i as int]));
                    assert(decreases_to!(es@[i as int] => es@[i as int].1));
                }
                assert(ev[i as int] == (es@[i as int].0@, es@[i as int].1@));
                let next = join_path(current_path, es[i].0.as_str());
                let c = coerce_retry_scalars(&es[i].1, next.as_str(), string_coercion_paths);
                let ghost before = entries_view(out@);
                out.push((copy_string(&es[i].0), c));
                assert(entries_view(out@) =~= before.push((es@[i as int].0@, c@)));
                i = i + 1;
            }
            proof {
                lemma_object_view(out);
            }
            JsonValue::Object(out)
        },
        JsonValue::Array(items) => {
            proof {
                lemma_array_view(*items);
            }
            let ghost iv = items_view(items@);
            let mut out: Vec<JsonValue> = Vec::new();
            let mut i: usize = 0;
            while i < items.len()
                invariant
                    i <= items@.len(),
                    iv == items_view(items@),
                    items_view(out@) == coerced_items(iv, current_path@, ps, i as nat),
                decreases items@.len() - i,
            {
                proof {
                    assert(decreases_to!(*value => *items));
                    assert(decreases_to!(*items => items@));
                    assert(decreases_to!(items@ => items@[i as int]));
                }
                assert(iv[i as int] == items@[i as int]@);
                let idx = string_of(&decimal_chars(i));
                let next = join_path(current_path, idx.as_str());
                let c = coerce_retry_scalars(&items[i], next.as_str(), string_coercion_paths);
                let ghost before = items_view(out@);
                out.push(c);
                assert(items_view(out@) =~= before.push(c@));
                i = i + 1;
            }
            proof {
                lemma_array_view(out);
            }
            JsonValue::Array(out)
        },
        JsonValue::String(raw) => {
            if string_coercion_paths.get(current_path).is_some() {
                match retry_scalar_value(raw.as_str()) {
                    Some(x) => x,
                    None => JsonValue::String(copy_string(raw)),
                }
            } else {
                JsonValue::String(copy_string(raw))
            }
        },
        other => crate::json::clone_value(other),
    }
}

/// The first claimed path (in path order) that another variable holds and
/// that `path` equals or lies above or below.
pub open spec fn env_conflict(claimed: Map<Seq<char>, Seq<char>>, name: Seq<char>, path: Seq<char>) -> Option<Seq<char>> {
    if exists|k: Seq<char>| claimed.contains_key(k) && claimed[k] != name && #[trigger] overlap(k, path) {
        Some(choose|k: Seq<char>| claimed.contains_key(k) && claimed[k] != name && overlap(k, path)
            && forall|k2: Seq<char>| claimed.contains_key(k2) && claimed[k2] != name && #[trigger] overlap(k2, path) ==> !seq_lt(k2, k))
    } else {
        None
    }
}

pub open spec fn env_claim_message(existing: Seq<char>, existing_name: Seq<char>, name: Seq<char>, path: Seq<char>) -> Seq<char> {
    if existing == path {
        "conflicting environment variables `"@ + existing_name + "` and `"@ + name + "` both target `"@ + path + "`"@
    } else {
        "conflicting environment variables `"@ + existing_name + "` and `"@ + name
            + "` target overlapping configuration paths `"@ + existing + "` and `"@ + path + "`"@
    }
}

/// Claims `path` for the environment variable `name`, refusing a path that
/// another variable claimed, or one above or below such a path.
pub fn claim_env_path(name: &str, path: &str, claimed_paths: &mut StrMap<String>) -> (r: Result<(), ConfigError>)
    requires
        old(claimed_paths).wf(),
    ensures
        final(claimed_paths).wf(),
        match env_conflict(strmap_view(*old(claimed_paths)), name@, path@) {
            None => r is Ok && strmap_view(*final(claimed_paths)) == strmap_view(*old(claimed_paths)).insert(path@, name@),
            Some(k) => *final(claimed_paths) == *old(claimed_paths)
                && (r matches Err(ConfigError::InvalidEnv { name: n, path: p, message: m })
                && n@ == name@ && p@ == path@
                && m@ == env_claim_message(k, strmap_view(*old(claimed_paths))[k], name@, path@)),
        },
{
    let ghost cv = strmap_view(*claimed_paths);
    let ghost es = claimed_paths.entries();
    proof {
        StrMap::<String>::lemma_keys_are_entries(*claimed_paths);
    }
    let mut i: usize = 0;
    while i < claimed_paths.len()
        invariant
            i <= es.len(),
            es == claimed_paths.entries(),
            claimed_paths.wf(),
            cv == strmap_view(*claimed_paths),
            forall|j: int| 0 <= j < i ==> es[j].1@ == name@ || !overlap(#[trigger] es[j].0@, path@),
        decreases es.len() - i,
    {
        let (existing, existing_name) = claimed_paths.entry_at(i);
        proof {
            claimed_paths.lemma_entry(i as int);
        }
        if !crate::text::str_eq(existing_name.as_str(), name) && paths_overlap(existing.as_str(), path) {
            let ghost k = existing@;
            proof {
                StrMap::<String>::lemma_keys_distinct(*claimed_paths, i as int);
                StrMap::<String>::lemma_keys_are_entries(*claimed_paths);
                claimed_paths.lemma_wf_sorted();
                assert(cv.contains_key(k) && cv[k] == existing_name@);
                assert forall|k2: Seq<char>| cv.contains_key(k2) && cv[k2] != name@ && #[trigger] overlap(k2, path@)
                    implies !seq_lt(k2, k) by {
                    let j = choose|j: int| 0 <= j < es.len() && #[trigger] es[j].0@ == k2;
                    claimed_paths.lemma_entry(j);
                    lemma_lt_irrefl(k2);
                    if j > i as int {
                        assert(seq_lt(es[i as int].0@, es[j].0@));
                        lemma_lt_total(k, k2);
                    }
                }
                let c = env_conflict(cv, name@, path@)->Some_0;
                assert(cv.contains_key(c) && cv[c] != name@ && overlap(c, path@));
                assert(!seq_lt(c, k));
                assert(!seq_lt(k, c));
                lemma_lt_total(c, k);
            }
            let message = if crate::text::str_eq(existing.as_str(), path) {
                cat(&cat(&cat(&cat(&cat(&cat("conflicting environment variables `", existing_name.as_str()), "` and `"), name),
                    "` both target `"), path), "`")
            } else {
                cat(&cat(&cat(&cat(&cat(&cat(&cat(&cat("conflicting environment variables `", existing_name.as_str()),
                    "` and `"), name), "` target overlapping configuration paths `"), existing.as_str()), "` and `"), path), "`")
            };
            return Err(ConfigError::InvalidEnv { name: name.to_string(), path: path.to_string(), message });
        }
        i = i + 1;
    }
    proof {
        assert forall|k: Seq<char>| cv.contains_key(k) && cv[k] != name@ implies !#[trigger] overlap(k, path@) by {
            let j = choose|j: int| 0 <= j < es.len() && #[trigger] es[j].0@ == k;
            claimed_paths.lemma_entry(j);
        }
    }
    let ghost before = *claimed_paths;
    claimed_paths.insert(path.to_string(), name.to_string());
    assert(strmap_view(*claimed_paths) =~= cv.insert(path@, name@)) by {
        assert forall|x: Seq<char>| x != path@ implies #[trigger] claimed_paths.get_spec(x) == before.get_spec(x) by {
        }
    }
    Ok(())
}

} // verus!
