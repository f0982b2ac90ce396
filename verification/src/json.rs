//! The configuration value model: JSON data with object keys kept in
//! ascending order, as the loader's maps keep them.
use vstd::prelude::*;
use crate::text::{chars_of, string_of, copy_string, chars_eq, str_eq, parse_usize, parse_usize_chars, decimal, decimal_chars, split, join, views, split_chars, join_chars, slice_chars};
use crate::path::{segments, path_segments};
use crate::strmap::{seq_lt, chars_lt, lemma_lt_irrefl, lemma_lt_total, lemma_lt_trans};
use crate::sources::cat;
use crate::error::ConfigError;

verus! {

/// A configuration value. Numbers are held as their JSON text.
#[derive(Debug)]
pub enum JsonValue {
    Null,
    Bool(bool),
    Number(String),
    String(String),
    Array(Vec<JsonValue>),
    Object(Vec<(String, JsonValue)>),
}

/// The mathematical form of a [`JsonValue`].
pub enum Json {
    Null,
    Bool(bool),
    Number(Seq<char>),
    Str(Seq<char>),
    Array(Seq<Json>),
    Object(Seq<(Seq<char>, Json)>),
}

pub open spec fn json_of(v: JsonValue) -> Json
    decreases v,
{
    match v {
        JsonValue::Null => Json::Null,
        JsonValue::Bool(b) => Json::Bool(b),
        JsonValue::Number(n) => Json::Number(n@),
        JsonValue::String(s) => Json::Str(s@),
        JsonValue::Array(items) => Json::Array(Seq::new(items@.len(), |i: int|
            if 0 <= i < items@.len() { json_of(items@[i]) } else { Json::Null })),
        JsonValue::Object(entries) => Json::Object(Seq::new(entries@.len(), |i: int|
            if 0 <= i < entries@.len() { (entries@[i].0@, json_of(entries@[i].1)) } else { (Seq::empty(), Json::Null) })),
    }
}

impl View for JsonValue {
    type V = Json;

    open spec fn view(&self) -> Json {
        json_of(*self)
    }
}

/// The views of a list of values.
pub open spec fn items_view(items: Seq<JsonValue>) -> Seq<Json> {
    Seq::new(items.len(), |i: int| json_of(items[i]))
}

/// The views of a list of object entries.
pub open spec fn entries_view(entries: Seq<(String, JsonValue)>) -> Seq<(Seq<char>, Json)> {
    Seq::new(entries.len(), |i: int| (entries[i].0@, json_of(entries[i].1)))
}

pub proof fn lemma_array_view(items: Vec<JsonValue>)
    ensures
        json_of(JsonValue::Array(items)) == Json::Array(items_view(items@)),
{
    let j = json_of(JsonValue::Array(items));
    assert(j->Array_0 =~= items_view(items@));
}

pub proof fn lemma_object_view(entries: Vec<(String, JsonValue)>)
    ensures
        json_of(JsonValue::Object(entries)) == Json::Object(entries_view(entries@)),
{
    let j = json_of(JsonValue::Object(entries));
    assert(j->Object_0 =~= entries_view(entries@));
}

/// The value stored under `k`, found as an ordered map finds it: by
/// walking past the smaller keys.
pub open spec fn entry_get(es: Seq<(Seq<char>, Json)>, k: Seq<char>) -> Option<Json>
    decreases es.len(),
{
    if es.len() == 0 {
        None
    } else if es[0].0 == k {
        Some(es[0].1)
    } else if seq_lt(k, es[0].0) {
        None
    } else {
        entry_get(es.drop_first(), k)
    }
}

/// Ordered-map insertion: replaces the value of an existing key, or places
/// the new entry before the first greater key.
pub open spec fn entry_insert(es: Seq<(Seq<char>, Json)>, k: Seq<char>, v: Json) -> Seq<(Seq<char>, Json)>
    decreases es.len(),
{
    if es.len() == 0 {
        seq![(k, v)]
    } else if es[0].0 == k {
        es.update(0, (k, v))
    } else if seq_lt(k, es[0].0) {
        seq![(k, v)] + es
    } else {
        seq![es[0]] + entry_insert(es.drop_first(), k, v)
    }
}

/// Removes the entry with key `k`, if any.
pub open spec fn entry_remove(es: Seq<(Seq<char>, Json)>, k: Seq<char>) -> Seq<(Seq<char>, Json)>
    decreases es.len(),
{
    if es.len() == 0 {
        es
    } else if es[0].0 == k {
        es.drop_first()
    } else if seq_lt(k, es[0].0) {
        es
    } else {
        seq![es[0]] + entry_remove(es.drop_first(), k)
    }
}

/// The ordered-map position of `k`: past every smaller key.
pub open spec fn is_position(es: Seq<(Seq<char>, Json)>, i: int, k: Seq<char>) -> bool {
    &&& 0 <= i <= es.len()
    &&& forall|j: int| 0 <= j < i ==> seq_lt(#[trigger] es[j].0, k)
    &&& i < es.len() ==> !seq_lt(es[i].0, k)
}

/// What lookup and removal find at the position of `k`.
pub proof fn lemma_at_position(es: Seq<(Seq<char>, Json)>, i: int, k: Seq<char>)
    requires
        is_position(es, i, k),
    ensures
        entry_get(es, k) == (if i < es.len() && es[i].0 == k { Some(es[i].1) } else { None }),
        entry_remove(es, k) == (if i < es.len() && es[i].0 == k { es.remove(i) } else { es }),
    decreases i,
{
    if i == 0 {
        if es.len() > 0 && es[0].0 != k {
            lemma_lt_total(es[0].0, k);
        }
        if es.len() > 0 && es[0].0 == k {
            assert(es.drop_first() =~= es.remove(0));
        }
    } else {
        let rest = es.drop_first();
        lemma_lt_irrefl(k);
        lemma_lt_total(es[0].0, k);
        assert(es[0].0 != k);
        assert(!seq_lt(k, es[0].0));
        assert forall|j: int| 0 <= j < i - 1 implies seq_lt(#[trigger] rest[j].0, k) by {
            assert(rest[j] == es[j + 1]);
        }
        assert(i - 1 < rest.len() ==> rest[i - 1] == es[i]);
        lemma_at_position(rest, i - 1, k);
        if i < es.len() && es[i].0 == k {
            assert(seq![es[0]] + rest.remove(i - 1) =~= es.remove(i));
        } else {
            assert(seq![es[0]] + rest =~= es);
        }
    }
}

/// Where `entry_insert` lands when the keys before position `i` are less
/// than `k` and the key at `i` (if any) is not.
pub proof fn lemma_insert_at(es: Seq<(Seq<char>, Json)>, i: int, k: Seq<char>, v: Json)
    requires
        is_position(es, i, k),
    ensures
        entry_insert(es, k, v) == (if i < es.len() && es[i].0 == k {
            es.update(i, (k, v))
        } else {
            es.insert(i, (k, v))
        }),
    decreases i,
{
    if i == 0 {
        if es.len() == 0 {
            assert(seq![(k, v)] =~= es.insert(0, (k, v)));
        } else if es[0].0 != k {
            lemma_lt_total(es[0].0, k);
            assert(seq![(k, v)] + es =~= es.insert(0, (k, v)));
        }
    } else {
        let rest = es.drop_first();
        assert(seq_lt(es[0].0, k));
        lemma_lt_irrefl(k);
        lemma_lt_total(es[0].0, k);
        assert(es[0].0 != k);
        assert(!seq_lt(k, es[0].0));
        assert forall|j: int| 0 <= j < i - 1 implies seq_lt(#[trigger] rest[j].0, k) by {
            assert(rest[j] == es[j + 1]);
        }
        assert(i - 1 < rest.len() ==> rest[i - 1] == es[i]);
        lemma_insert_at(rest, i - 1, k, v);
        if i < es.len() && es[i].0 == k {
            assert(seq![es[0]] + rest.update(i - 1, (k, v)) =~= es.update(i, (k, v)));
        } else {
            assert(seq![es[0]] + rest.insert(i - 1, (k, v)) =~= es.insert(i, (k, v)));
        }
    }
}

/// The kind name of a value, as errors report it.
pub open spec fn kind_name(j: Json) -> Seq<char> {
    match j {
        Json::Null => "null"@,
        Json::Bool(_) => "bool"@,
        Json::Number(_) => "number"@,
        Json::Str(_) => "string"@,
        Json::Array(_) => "array"@,
        Json::Object(_) => "object"@,
    }
}

/// The kind name of `value`.
pub fn value_kind(value: &JsonValue) -> (r: String)
    ensures
        r@ == kind_name(value@),
{
    match value {
        JsonValue::Null => "null".to_string(),
        JsonValue::Bool(_) => "bool".to_string(),
        JsonValue::Number(_) => "number".to_string(),
        JsonValue::String(_) => "string".to_string(),
        JsonValue::Array(_) => "array".to_string(),
        JsonValue::Object(_) => "object".to_string(),
    }
}

/// Configuration roots must be objects.
pub fn ensure_root_object(value: &JsonValue) -> (r: Result<(), ConfigError>)
    ensures
        match r {
            Ok(()) => value@ is Object,
            Err(ConfigError::RootMustBeObject { actual }) => !(value@ is Object) && actual@ == kind_name(value@),
            Err(_) => false,
        },
{
    match value {
        JsonValue::Object(_) => Ok(()),
        _ => Err(ConfigError::RootMustBeObject { actual: value_kind(value) }),
    }
}

/// The ordered-map position of `k` in `es`.
pub fn entry_position(es: &Vec<(String, JsonValue)>, k: &[char]) -> (r: usize)
    ensures
        is_position(entries_view(es@), r as int, k@),
{
    let ghost ev = entries_view(es@);
    let mut i: usize = 0;
    while i < es.len()
        invariant
            i <= es.len(),
            ev == entries_view(es@),
            forall|j: int| 0 <= j < i ==> seq_lt(#[trigger] ev[j].0, k@),
        ensures
            i <= es.len(),
            forall|j: int| 0 <= j < i ==> seq_lt(#[trigger] ev[j].0, k@),
            i < es.len() ==> !seq_lt(ev[i as int].0, k@),
        decreases es.len() - i,
    {
        let key = chars_of(es[i].0.as_str());
        if !chars_lt(&key, k) {
            break;
        }
        i = i + 1;
    }
    i
}

/// Whether the entry at `i` has key `k`.
pub fn key_at(es: &Vec<(String, JsonValue)>, i: usize, k: &[char]) -> (r: bool)
    ensures
        r == (i < es@.len() && entries_view(es@)[i as int].0 == k@),
{
    if i < es.len() {
        let key = chars_of(es[i].0.as_str());
        chars_eq(&key, k)
    } else {
        false
    }
}

/// The value stored under `k`, if any.
pub fn entry_lookup<'a>(es: &'a Vec<(String, JsonValue)>, k: &[char]) -> (r: Option<&'a JsonValue>)
    ensures
        match r {
            Some(v) => entry_get(entries_view(es@), k@) == Some(v@),
            None => entry_get(entries_view(es@), k@) is None,
        },
{
    let i = entry_position(es, k);
    proof {
        lemma_at_position(entries_view(es@), i as int, k@);
    }
    if key_at(es, i, k) {
        Some(&es[i].1)
    } else {
        None
    }
}

/// Removes the entry with key `k` and returns its value.
pub fn entries_remove(es: &mut Vec<(String, JsonValue)>, k: &[char]) -> (r: Option<JsonValue>)
    ensures
        entries_view(final(es)@) == entry_remove(entries_view(old(es)@), k@),
        match r {
            Some(v) => entry_get(entries_view(old(es)@), k@) == Some(v@),
            None => entry_get(entries_view(old(es)@), k@) is None,
        },
{
    let ghost ev = entries_view(es@);
    let i = entry_position(es, k);
    proof {
        lemma_at_position(ev, i as int, k@);
    }
    if key_at(es, i, k) {
        let (_key, v) = es.remove(i);
        assert(entries_view(es@) =~= ev.remove(i as int));
        Some(v)
    } else {
        None
    }
}

/// Inserts `k` with `v` into an ordered entry list.
pub fn entries_insert(es: &mut Vec<(String, JsonValue)>, k: String, v: JsonValue)
    ensures
        entries_view(final(es)@) == entry_insert(entries_view(old(es)@), k@, v@),
{
    let kc = chars_of(k.as_str());
    let ghost ev = entries_view(es@);
    let i = entry_position(es, &kc);
    proof {
        lemma_insert_at(ev, i as int, k@, v@);
    }
    if key_at(es, i, &kc) {
        es.set(i, (k, v));
        assert(entries_view(es@) =~= ev.update(i as int, (k@, v@)));
    } else {
        es.insert(i, (k, v));
        assert(entries_view(es@) =~= ev.insert(i as int, (k@, v@)));
    }
}

/// An empty container: an array when the next segment is an index.
pub open spec fn container(index_next: bool) -> Json {
    if index_next { Json::Array(Seq::empty()) } else { Json::Object(Seq::empty()) }
}

/// Whether `child` is the container kind the next segment needs.
pub open spec fn fits(child: Json, index_next: bool) -> bool {
    if index_next { child is Array } else { child is Object }
}

pub open spec fn conflict_message(seg: Seq<char>) -> Seq<char> {
    "path segment "@ + seg + " conflicts with an existing non-container value"@
}

pub open spec fn index_message(seg: Seq<char>) -> Seq<char> {
    "path segment "@ + seg + " must be an array index at this position"@
}

/// `items` extended with `fill` up to position `n`.
pub open spec fn padded(items: Seq<Json>, n: nat, fill: Json) -> Seq<Json> {
    if n < items.len() {
        items
    } else {
        items + Seq::new((n + 1 - items.len()) as nat, |_i: int| fill)
    }
}

/// Writing `v` at the path `segs` below `cur`: objects and arrays are
/// created on the way (an array where the next segment is an index), arrays
/// grow to reach an index, and a scalar on the way is a conflict.
pub open spec fn inserted(cur: Json, segs: Seq<Seq<char>>, v: Json) -> Result<Json, Seq<char>>
    decreases segs.len(),
{
    if segs.len() == 0 {
        Ok(v)
    } else if segs[0].len() == 0 {
        Err("configuration path contains an empty segment"@)
    } else if segs.len() == 1 {
        match cur {
            Json::Object(es) => Ok(Json::Object(entry_insert(es, segs[0], v))),
            Json::Array(items) => match parse_usize(segs[0]) {
                Some(n) => Ok(Json::Array(padded(items, n, Json::Null).update(n as int, v))),
                None => Err(index_message(segs[0])),
            },
            _ => Err(conflict_message(segs[0])),
        }
    } else {
        let nxt = parse_usize(segs[1]) is Some;
        match cur {
            Json::Object(es) => {
                let child = match entry_get(es, segs[0]) {
                    Some(c) => c,
                    None => container(nxt),
                };
                if !fits(child, nxt) {
                    Err(conflict_message(segs[0]))
                } else {
                    match inserted(child, segs.drop_first(), v) {
                        Ok(c) => Ok(Json::Object(entry_insert(es, segs[0], c))),
                        Err(e) => Err(e),
                    }
                }
            },
            Json::Array(items) => match parse_usize(segs[0]) {
                Some(n) => {
                    let p = padded(items, n, container(nxt));
                    let child = if p[n as int] is Null { container(nxt) } else { p[n as int] };
                    if !fits(child, nxt) {
                        Err(conflict_message(segs[0]))
                    } else {
                        match inserted(child, segs.drop_first(), v) {
                            Ok(c) => Ok(Json::Array(p.update(n as int, c))),
                            Err(e) => Err(e),
                        }
                    }
                },
                None => Err(index_message(segs[0])),
            },
            _ => Err(conflict_message(segs[0])),
        }
    }
}

/// What `cur` holds after writing `v` at `segs`, whether or not the write
/// succeeds: containers made on the way stay, and where a write is refused
/// the value is left as it was at that point.
pub open spec fn inserted_state(cur: Json, segs: Seq<Seq<char>>, v: Json) -> Json
    decreases segs.len(),
{
    if segs.len() == 0 {
        v
    } else if segs[0].len() == 0 {
        cur
    } else if segs.len() == 1 {
        match cur {
            Json::Object(es) => Json::Object(entry_insert(es, segs[0], v)),
            Json::Array(items) => match parse_usize(segs[0]) {
                Some(n) => Json::Array(padded(items, n, Json::Null).update(n as int, v)),
                None => cur,
            },
            _ => cur,
        }
    } else {
        let nxt = parse_usize(segs[1]) is Some;
        match cur {
            Json::Object(es) => {
                let child = match entry_get(es, segs[0]) {
                    Some(c) => c,
                    None => container(nxt),
                };
                if !fits(child, nxt) {
                    cur
                } else {
                    Json::Object(entry_insert(es, segs[0], inserted_state(child, segs.drop_first(), v)))
                }
            },
            Json::Array(items) => match parse_usize(segs[0]) {
                Some(n) => {
                    let p = padded(items, n, container(nxt));
                    let child = if p[n as int] is Null { container(nxt) } else { p[n as int] };
                    if !fits(child, nxt) {
                        Json::Array(p)
                    } else {
                        Json::Array(p.update(n as int, inserted_state(child, segs.drop_first(), v)))
                    }
                },
                None => cur,
            },
            _ => cur,
        }
    }
}

/// `insert_path`'s outcome: an empty path is refused.
pub open spec fn insert_result(root: Json, segs: Seq<Seq<char>>, v: Json) -> Result<Json, Seq<char>> {
    if segs.len() == 0 {
        Err("configuration path cannot be empty"@)
    } else {
        inserted(root, segs, v)
    }
}

/// No segment names the index `usize::MAX`: an array cannot grow past it.
pub open spec fn indices_bounded(segs: Seq<Seq<char>>) -> bool {
    forall|i: int| 0 <= i < segs.len() ==> parse_usize(#[trigger] segs[i]) != Some(usize::MAX as nat)
}

pub(crate) fn empty_container(index_next: bool) -> (r: JsonValue)
    ensures
        r@ == container(index_next),
{
    if index_next {
        let r = JsonValue::Array(Vec::new());
        assert(r@->Array_0 =~= Seq::<Json>::empty());
        r
    } else {
        let r = JsonValue::Object(Vec::new());
        assert(r@->Object_0 =~= Seq::<(Seq<char>, Json)>::empty());
        r
    }
}

/// Grows `items` to hold position `n`, filling with empty containers
/// (`Some(index_next)`) or nulls (`None`).
pub(crate) fn pad_items(items: &mut Vec<JsonValue>, n: usize, fill: Option<bool>)
    requires
        n < usize::MAX,
    ensures
        items_view(final(items)@) == padded(items_view(old(items)@), n as nat, match fill {
            Some(b) => container(b),
            None => Json::Null,
        }),
{
    let ghost f = match fill {
        Some(b) => container(b),
        None => Json::Null,
    };
    let ghost start = items_view(items@);
    if n < items.len() {
        return;
    }
    while items.len() <= n
        invariant
            n < usize::MAX,
            start.len() <= items@.len() <= n + 1,
            f == (match fill { Some(b) => container(b), None => Json::Null }),
            items_view(items@) == start + Seq::new((items@.len() - start.len()) as nat, |_i: int| f),
        decreases n + 1 - items@.len(),
    {
        let v = match fill {
            Some(b) => empty_container(b),
            None => JsonValue::Null,
        };
        let ghost before = items_view(items@);
        items.push(v);
        assert(items_view(items@) =~= before.push(f));
        assert(start + Seq::new((items@.len() - start.len()) as nat, |_i: int| f) =~= (start + Seq::new((before.len() - start.len()) as nat, |_i: int| f)).push(f));
    }
}

fn seg_chars(segs: &Vec<String>) -> (r: Vec<Vec<char>>)
    ensures
        crate::text::views(r@) == crate::text::string_views(segs@),
{
    let mut r: Vec<Vec<char>> = Vec::new();
    let mut i: usize = 0;
    while i < segs.len()
        invariant
            i <= segs.len(),
            crate::text::views(r@) == crate::text::string_views(segs@).take(i as int),
        decreases segs.len() - i,
    {
        let c = chars_of(segs[i].as_str());
        assert(crate::text::string_views(segs@)[i as int] == segs@[i as int]@);
        let ghost before = r@;
        r.push(c);
        assert(r@ =~= before.push(c));
        assert(crate::text::views(r@) =~= crate::text::views(before).push(c@));
        assert(crate::text::views(r@) =~= crate::text::string_views(segs@).take(i + 1));
        i = i + 1;
    }
    assert(crate::text::string_views(segs@).take(segs.len() as int) =~= crate::text::string_views(segs@));
    r
}

fn insert_into(cur: JsonValue, segs: &Vec<Vec<char>>, at: usize, v: JsonValue) -> (r: (JsonValue, Option<String>))
    requires
        at < segs@.len(),
        indices_bounded(crate::text::views(segs@)),
    ensures
        r.0@ == inserted_state(cur@, crate::text::views(segs@).skip(at as int), v@),
        match inserted(cur@, crate::text::views(segs@).skip(at as int), v@) {
            Ok(j) => r.1 is None && r.0@ == j,
            Err(e) => r.1 matches Some(m) && m@ == e,
        },
    decreases segs@.len() - at,
{
    let ghost sv = crate::text::views(segs@).skip(at as int);
    assert(sv[0] == segs@[at as int]@);
    let seg = &segs[at];
    if seg.len() == 0 {
        return (cur, Some("configuration path contains an empty segment".to_string()));
    }
    let is_last = at == segs.len() - 1;
    let nxt = if is_last {
        false
    } else {
        assert(sv[1] == segs@[at + 1]@);
        parse_usize_chars(&segs[at + 1]).is_some()
    };
    assert(!is_last ==> sv.drop_first() =~= crate::text::views(segs@).skip(at + 1));
    match cur {
        JsonValue::Object(mut es) => {
            proof {
                lemma_object_view(es);
            }
            let ghost ev = entries_view(es@);
            if is_last {
                entries_insert(&mut es, string_of(seg), v);
                let r = JsonValue::Object(es);
                proof {
                    lemma_object_view(es);
                }
                return (r, None);
            }
            let pos = entry_position(&es, seg);
            proof {
                lemma_at_position(ev, pos as int, seg@);
                lemma_insert_at(ev, pos as int, seg@, v@);
            }
            let present = key_at(&es, pos, seg);
            let ghost es0 = es@;
            let (key, child) = if present {
                es.remove(pos)
            } else {
                (string_of(seg), empty_container(nxt))
            };
            let ok = match &child {
                JsonValue::Array(_) => nxt,
                JsonValue::Object(_) => !nxt,
                _ => false,
            };
            if !ok {
                es.insert(pos, (key, child));
                assert(es@ =~= es0);
                let r = JsonValue::Object(es);
                proof {
                    lemma_object_view(es);
                }
                return (r, Some(cat(&cat("path segment ", string_of(seg).as_str()), " conflicts with an existing non-container value")));
            }
            let (c, e) = insert_into(child, segs, at + 1, v);
            let ghost cj = c@;
            proof {
                lemma_insert_at(ev, pos as int, seg@, cj);
            }
            es.insert(pos, (key, c));
            if present {
                assert(entries_view(es@) =~= ev.update(pos as int, (seg@, cj)));
            } else {
                assert(entries_view(es@) =~= ev.insert(pos as int, (seg@, cj)));
            }
            let r = JsonValue::Object(es);
            proof {
                lemma_object_view(es);
            }
            (r, e)
        },
        JsonValue::Array(mut items) => {
            proof {
                lemma_array_view(items);
            }
            let ghost iv = items_view(items@);
            let n = match parse_usize_chars(seg) {
                Some(n) => n,
                None => {
                    let r = JsonValue::Array(items);
                    proof {
                        lemma_array_view(items);
                    }
                    return (r, Some(cat(&cat("path segment ", string_of(seg).as_str()), " must be an array index at this position")));
                },
            };
            assert(parse_usize(crate::text::views(segs@)[at as int]) == Some(n as nat));
            if is_last {
                pad_items(&mut items, n, None);
                assert(items_view(items@).len() == items@.len());
                assert(padded(iv, n as nat, Json::Null).len() > n);
                items.set(n, v);
                assert(items_view(items@) =~= padded(iv, n as nat, Json::Null).update(n as int, v@));
                let r = JsonValue::Array(items);
                proof {
                    lemma_array_view(items);
                }
                return (r, None);
            }
            pad_items(&mut items, n, Some(nxt));
            let ghost p = items_view(items@);
            let ghost items0 = items@;
            assert(p.len() == items@.len());
            assert(padded(iv, n as nat, container(nxt)).len() > n);
            assert(p[n as int] == items@[n as int]@);
            let old_child = items.remove(n);
            let child = match old_child {
                JsonValue::Null => empty_container(nxt),
                other => other,
            };
            let ok = match &child {
                JsonValue::Array(_) => nxt,
                JsonValue::Object(_) => !nxt,
                _ => false,
            };
            if !ok {
                items.insert(n, child);
                assert(items@ =~= items0);
                let r = JsonValue::Array(items);
                proof {
                    lemma_array_view(items);
                }
                return (r, Some(cat(&cat("path segment ", string_of(seg).as_str()), " conflicts with an existing non-container value")));
            }
            let (c, e) = insert_into(child, segs, at + 1, v);
            let ghost cj = c@;
            items.insert(n, c);
            assert(items_view(items@) =~= p.update(n as int, cj));
            let r = JsonValue::Array(items);
            proof {
                lemma_array_view(items);
            }
            (r, e)
        },
        other => {
            let m = cat(&cat("path segment ", string_of(seg).as_str()), " conflicts with an existing non-container value");
            (other, Some(m))
        },
    }
}

/// Writes `value` at the path made of `segments` below `root`.
/// On success `root` holds the result; on failure the message says why,
/// and `root` keeps what was written on the way.
pub fn insert_path(root: &mut JsonValue, segments: &Vec<String>, value: JsonValue) -> (r: Result<(), String>)
    requires
        indices_bounded(crate::text::string_views(segments@)),
    ensures
        match insert_result(old(root)@, crate::text::string_views(segments@), value@) {
            Ok(j) => r is Ok && final(root)@ == j,
            Err(e) => r matches Err(m) && m@ == e,
        },
        segments@.len() > 0 ==> final(root)@ == inserted_state(old(root)@, crate::text::string_views(segments@), value@),
        segments@.len() == 0 ==> final(root)@ == old(root)@,
{
    if segments.len() == 0 {
        return Err("configuration path cannot be empty".to_string());
    }
    let segs = seg_chars(segments);
    assert(crate::text::views(segs@).skip(0) =~= crate::text::views(segs@));
    let mut cur = JsonValue::Null;
    std::mem::swap(&mut cur, root);
    let (after, err) = insert_into(cur, &segs, 0, value);
    *root = after;
    match err {
        None => Ok(()),
        Some(e) => Err(e),
    }
}

/// The child of `cur` named by one segment: an object key, or an in-range
/// array index.
pub open spec fn child_at(cur: Json, seg: Seq<char>) -> Option<Json> {
    match cur {
        Json::Object(es) => entry_get(es, seg),
        Json::Array(items) => match parse_usize(seg) {
            Some(n) => if n < items.len() { Some(items[n as int]) } else { None },
            None => None,
        },
        _ => None,
    }
}

/// The value reached from `cur` through `segs`.
pub open spec fn walk(cur: Json, segs: Seq<Seq<char>>) -> Option<Json>
    decreases segs.len(),
{
    if segs.len() == 0 {
        Some(cur)
    } else {
        match child_at(cur, segs[0]) {
            Some(c) => walk(c, segs.drop_first()),
            None => None,
        }
    }
}

/// The value at a dotted path; the empty path is the root.
pub open spec fn value_at(root: Json, path: Seq<char>) -> Option<Json> {
    if path.len() == 0 {
        Some(root)
    } else {
        walk(root, split(path, '.'))
    }
}

/// A vector of character vectors with its first `from` items left out.
fn rest_of(segs: &Vec<Vec<char>>, from: usize) -> (r: Vec<Vec<char>>)
    requires
        from <= segs@.len(),
    ensures
        views(r@) == views(segs@).skip(from as int),
{
    let mut r: Vec<Vec<char>> = Vec::new();
    let mut i: usize = from;
    while i < segs.len()
        invariant
            from <= i <= segs@.len(),
            views(r@) == views(segs@).subrange(from as int, i as int),
        decreases segs@.len() - i,
    {
        let c = slice_chars(&segs[i], 0, segs[i].len());
        assert(segs@[i as int]@.subrange(0, segs@[i as int]@.len() as int) =~= segs@[i as int]@);
        let ghost before = r@;
        r.push(c);
        assert(views(r@) =~= views(before).push(c@));
        assert(views(segs@).subrange(from as int, i + 1) =~= views(segs@).subrange(from as int, i as int).push(segs@[i as int]@));
        i = i + 1;
    }
    assert(views(segs@).subrange(from as int, segs@.len() as int) =~= views(segs@).skip(from as int));
    r
}

fn split_path(path: &str) -> (r: Vec<Vec<char>>)
    ensures
        views(r@) == split(path@, '.'),
{
    let r = split_chars(&chars_of(path), '.');
    assert(views(r@) =~= split(path@, '.'));
    r
}

/// The value at a dotted path, if there is one.
pub fn get_value_at_path<'a>(value: &'a JsonValue, path: &str) -> (r: Option<&'a JsonValue>)
    ensures
        match r {
            Some(v) => value_at(value@, path@) == Some(v@),
            None => value_at(value@, path@) is None,
        },
{
    if path.is_empty() {
        return Some(value);
    }
    let segs = split_path(path);
    let ghost sv = views(segs@);
    let mut cur: &'a JsonValue = value;
    let mut i: usize = 0;
    assert(sv.skip(0) =~= sv);
    while i < segs.len()
        invariant
            i <= segs@.len(),
            sv == views(segs@),
            sv == split(path@, '.'),
            path@.len() > 0,
            walk(value@, sv) == walk(cur@, sv.skip(i as int)),
        decreases segs@.len() - i,
    {
        assert(sv.skip(i as int)[0] == segs@[i as int]@);
        assert(sv.skip(i as int).drop_first() =~= sv.skip(i + 1));
        match cur {
            JsonValue::Object(es) => {
                proof {
                    lemma_object_view(*es);
                }
                match entry_lookup(es, &segs[i]) {
                    Some(c) => {
                        cur = c;
                    },
                    None => {
                        return None;
                    },
                }
            },
            JsonValue::Array(items) => {
                proof {
                    lemma_array_view(*items);
                }
                match parse_usize_chars(&segs[i]) {
                    Some(n) => {
                        if n < items.len() {
                            cur = &items[n];
                        } else {
                            return None;
                        }
                    },
                    None => {
                        return None;
                    },
                }
            },
            _ => {
                return None;
            },
        }
        i = i + 1;
    }
    assert(sv.skip(segs@.len() as int) =~= Seq::<Seq<char>>::empty());
    Some(cur)
}

/// `cur` with the child named by `seg` replaced by `c`.
pub open spec fn replace_child(cur: Json, seg: Seq<char>, c: Json) -> Json {
    match cur {
        Json::Object(es) => Json::Object(entry_insert(es, seg, c)),
        Json::Array(items) => match parse_usize(seg) {
            Some(n) => Json::Array(items.update(n as int, c)),
            None => cur,
        },
        _ => cur,
    }
}

/// Removing the value at `segs` below `cur`: the new `cur` and what was
/// removed.
pub open spec fn taken(cur: Json, segs: Seq<Seq<char>>) -> (Json, Option<Json>)
    decreases segs.len(),
{
    if segs.len() == 0 {
        (cur, None)
    } else if segs.len() == 1 {
        match cur {
            Json::Object(es) => match entry_get(es, segs[0]) {
                Some(x) => (Json::Object(entry_remove(es, segs[0])), Some(x)),
                None => (cur, None),
            },
            Json::Array(items) => match parse_usize(segs[0]) {
                Some(n) => if n < items.len() {
                    (Json::Array(items.remove(n as int)), Some(items[n as int]))
                } else {
                    (cur, None)
                },
                None => (cur, None),
            },
            _ => (cur, None),
        }
    } else {
        match child_at(cur, segs[0]) {
            Some(c) => {
                let t = taken(c, segs.drop_first());
                (replace_child(cur, segs[0], t.0), t.1)
            },
            None => (cur, None),
        }
    }
}

fn take_from(cur: JsonValue, segs: &Vec<Vec<char>>, at: usize) -> (r: (JsonValue, Option<JsonValue>))
    requires
        at < segs@.len(),
    ensures
        taken(cur@, views(segs@).skip(at as int)).0 == r.0@,
        match r.1 {
            Some(v) => taken(cur@, views(segs@).skip(at as int)).1 == Some(v@),
            None => taken(cur@, views(segs@).skip(at as int)).1 is None,
        },
    decreases segs@.len() - at,
{
    let ghost sv = views(segs@).skip(at as int);
    assert(sv[0] == segs@[at as int]@);
    let is_last = at == segs.len() - 1;
    if !is_last {
        assert(sv.drop_first() =~= views(segs@).skip(at + 1));
    }
    let seg = &segs[at];
    match cur {
        JsonValue::Object(mut es) => {
            proof {
                lemma_object_view(es);
            }
            let ghost ev = entries_view(es@);
            let pos = entry_position(&es, seg);
            proof {
                lemma_at_position(ev, pos as int, seg@);
            }
            if !key_at(&es, pos, seg) {
                return (JsonValue::Object(es), None);
            }
            let (key, child) = es.remove(pos);
            assert(entries_view(es@) =~= ev.remove(pos as int));
            if is_last {
                let r = JsonValue::Object(es);
                proof {
                    lemma_object_view(es);
                }
                return (r, Some(child));
            }
            let (c2, out) = take_from(child, segs, at + 1);
            let ghost cj = c2@;
            proof {
                lemma_insert_at(ev, pos as int, seg@, cj);
            }
            es.insert(pos, (key, c2));
            assert(entries_view(es@) =~= ev.update(pos as int, (seg@, cj)));
            let r = JsonValue::Object(es);
            proof {
                lemma_object_view(es);
            }
            (r, out)
        },
        JsonValue::Array(mut items) => {
            proof {
                lemma_array_view(items);
            }
            let ghost iv = items_view(items@);
            let n = match parse_usize_chars(seg) {
                Some(n) => n,
                None => {
                    let r = JsonValue::Array(items);
                    return (r, None);
                },
            };
            if n >= items.len() {
                let r = JsonValue::Array(items);
                return (r, None);
            }
            let child = items.remove(n);
            assert(items_view(items@) =~= iv.remove(n as int));
            if is_last {
                let r = JsonValue::Array(items);
                proof {
                    lemma_array_view(items);
                }
                return (r, Some(child));
            }
            let (c2, out) = take_from(child, segs, at + 1);
            let ghost cj = c2@;
            items.insert(n, c2);
            assert(items_view(items@) =~= iv.update(n as int, cj));
            let r = JsonValue::Array(items);
            proof {
                lemma_array_view(items);
            }
            (r, out)
        },
        other => (other, None),
    }
}

/// Removes and returns the value at a dotted path (empty segments are
/// skipped).
pub fn take_value_at_path(root: &mut JsonValue, path: &str) -> (r: Option<JsonValue>)
    ensures
        final(root)@ == taken(old(root)@, segments(path@)).0,
        match r {
            Some(v) => taken(old(root)@, segments(path@)).1 == Some(v@),
            None => taken(old(root)@, segments(path@)).1 is None,
        },
{
    let segs = path_segments(&chars_of(path));
    if segs.len() == 0 {
        return None;
    }
    assert(views(segs@).skip(0) =~= views(segs@));
    let mut cur = JsonValue::Null;
    std::mem::swap(&mut cur, root);
    let (v, out) = take_from(cur, &segs, 0);
    *root = v;
    out
}

/// The canonical spelling of a path walked through `cur`: array indices
/// are written in decimal; past a missing child the segments stay as given.
pub open spec fn canon_segs(cur: Json, segs: Seq<Seq<char>>) -> Seq<Seq<char>>
    decreases segs.len(),
{
    if segs.len() == 0 {
        Seq::empty()
    } else {
        match cur {
            Json::Object(es) => seq![segs[0]] + match entry_get(es, segs[0]) {
                Some(c) => canon_segs(c, segs.drop_first()),
                None => segs.drop_first(),
            },
            Json::Array(items) => match parse_usize(segs[0]) {
                Some(n) => seq![decimal(n)] + if n < items.len() {
                    canon_segs(items[n as int], segs.drop_first())
                } else {
                    segs.drop_first()
                },
                None => segs,
            },
            _ => segs,
        }
    }
}

/// The canonical form of `path` against the value `root`.
pub open spec fn runtime_path(root: Json, path: Seq<char>) -> Seq<char> {
    if path.len() == 0 {
        Seq::empty()
    } else {
        join(canon_segs(root, split(path, '.')), seq!['.'])
    }
}

/// Spells `path` as it is found in `value`: array indices in canonical
/// decimal form.
pub fn canonicalize_runtime_path(value: &JsonValue, path: &str) -> (r: String)
    ensures
        r@ == runtime_path(value@, path@),
{
    if path.is_empty() {
        return String::new();
    }
    let segs = split_path(path);
    let ghost sv = views(segs@);
    let mut out: Vec<Vec<char>> = Vec::new();
    let mut cur: &JsonValue = value;
    let mut i: usize = 0;
    assert(sv.skip(0) =~= sv);
    while i < segs.len()
        invariant_except_break
            views(out@) + canon_segs(cur@, sv.skip(i as int)) == canon_segs(value@, sv),
        invariant
            i <= segs@.len(),
            sv == views(segs@),
        ensures
            views(out@) == canon_segs(value@, sv),
        decreases segs@.len() - i,
    {
        let ghost before = views(out@);
        assert(sv.skip(i as int)[0] == segs@[i as int]@);
        assert(sv.skip(i as int).drop_first() =~= sv.skip(i + 1));
        let seg = &segs[i];
        let copy = slice_chars(seg, 0, seg.len());
        assert(seg@.subrange(0, seg@.len() as int) =~= seg@);
        match cur {
            JsonValue::Object(es) => {
                proof {
                    lemma_object_view(*es);
                }
                out.push(copy);
                assert(views(out@) =~= before.push(seg@));
                match entry_lookup(es, seg) {
                    Some(c) => {
                        cur = c;
                        assert(before + canon_segs(value@, sv).subrange(0, 0) == before);
                        assert(views(out@) + canon_segs(cur@, sv.skip(i + 1)) =~= before + (seq![seg@] + canon_segs(cur@, sv.skip(i + 1))));
                    },
                    None => {
                        let rest = rest_of(&segs, i + 1);
                        let ghost mid = views(out@);
                        out.append(&mut rest.clone());
                        assert(views(out@) =~= mid + views(rest@));
                        assert(views(out@) =~= before + (seq![seg@] + sv.skip(i + 1)));
                        break;
                    },
                }
            },
            JsonValue::Array(items) => {
                proof {
                    lemma_array_view(*items);
                }
                match parse_usize_chars(seg) {
                    Some(n) => {
                        out.push(decimal_chars(n));
                        assert(views(out@) =~= before.push(decimal(n as nat)));
                        if n < items.len() {
                            cur = &items[n];
                            assert(views(out@) + canon_segs(cur@, sv.skip(i + 1)) =~= before + (seq![decimal(n as nat)] + canon_segs(cur@, sv.skip(i + 1))));
                        } else {
                            let rest = rest_of(&segs, i + 1);
                            let ghost mid = views(out@);
                            out.append(&mut rest.clone());
                            assert(views(out@) =~= mid + views(rest@));
                            assert(views(out@) =~= before + (seq![decimal(n as nat)] + sv.skip(i + 1)));
                            break;
                        }
                    },
                    None => {
                        let rest = rest_of(&segs, i);
                        out.append(&mut rest.clone());
                        assert(views(out@) =~= before + sv.skip(i as int));
                        break;
                    },
                }
            },
            _ => {
                let rest = rest_of(&segs, i);
                out.append(&mut rest.clone());
                assert(views(out@) =~= before + sv.skip(i as int));
                break;
            },
        }
        i = i + 1;
    }
    proof {
        if i == segs@.len() {
            assert(sv.skip(i as int) =~= Seq::<Seq<char>>::empty());
            assert(views(out@) + Seq::<Seq<char>>::empty() =~= views(out@));
        }
    }
    let dot = ['.'];
    assert(dot@ =~= seq!['.']);
    let joined = join_chars(&out, &dot);
    assert(out@.map_values(|p: Vec<char>| p@) =~= views(out@));
    string_of(&joined)
}

/// Whether two values are the same value.
#[verifier::loop_isolation(false)]
pub fn json_eq(a: &JsonValue, b: &JsonValue) -> (r: bool)
    ensures
        r == (a@ == b@),
    decreases a,
{
    match a {
        JsonValue::Null => match b {
            JsonValue::Null => true,
            _ => false,
        },
        JsonValue::Bool(x) => match b {
            JsonValue::Bool(y) => *x == *y,
            _ => false,
        },
        JsonValue::Number(x) => match b {
            JsonValue::Number(y) => str_eq(x.as_str(), y.as_str()),
            _ => false,
        },
        JsonValue::String(x) => match b {
            JsonValue::String(y) => str_eq(x.as_str(), y.as_str()),
            _ => false,
        },
        JsonValue::Array(xs) => match b {
            JsonValue::Array(ys) => {
                proof {
                    lemma_array_view(*xs);
                    lemma_array_view(*ys);
                }
                if xs.len() != ys.len() {
                    assert(items_view(xs@).len() != items_view(ys@).len());
                    return false;
                }
                let mut i: usize = 0;
                while i < xs.len()
                    invariant
                        i <= xs@.len(),
                        xs@.len() == ys@.len(),
                        forall|j: int| 0 <= j < i ==> json_of(#[trigger] xs@[j]) == json_of(ys@[j]),
                    decreases xs@.len() - i,
                {
                    proof {
                        assert(decreases_to!(*a => *xs));
                        assert(decreases_to!(*xs => xs@));
                        assert(decreases_to!(xs@ => xs@[i as int]));
                    }
                    if !json_eq(&xs[i], &ys[i]) {
                        assert(items_view(xs@)[i as int] != items_view(ys@)[i as int]);
                        return false;
                    }
                    i = i + 1;
                }
                assert(items_view(xs@) =~= items_view(ys@));
                true
            },
            _ => false,
        },
        JsonValue::Object(xs) => match b {
            JsonValue::Object(ys) => {
                proof {
                    lemma_object_view(*xs);
                    lemma_object_view(*ys);
                }
                if xs.len() != ys.len() {
                    assert(entries_view(xs@).len() != entries_view(ys@).len());
                    return false;
                }
                let mut i: usize = 0;
                while i < xs.len()
                    invariant
                        i <= xs@.len(),
                        xs@.len() == ys@.len(),
                        forall|j: int| 0 <= j < i ==> (#[trigger] xs@[j]).0@ == ys@[j].0@ && json_of(xs@[j].1) == json_of(ys@[j].1),
                    decreases xs@.len() - i,
                {
                    proof {
                        assert(decreases_to!(*a => *xs));
                        assert(decreases_to!(*xs => xs@));
                        assert(decreases_to!(xs@ => xs@[i as int]));
                        assert(decreases_to!(xs@[i as int] => xs@[i as int].1));
                    }
                    if !str_eq(xs[i].0.as_str(), ys[i].0.as_str()) || !json_eq(&xs[i].1, &ys[i].1) {
                        assert(entries_view(xs@)[i as int] != entries_view(ys@)[i as int]);
                        return false;
                    }
                    i = i + 1;
                }
                assert(entries_view(xs@) =~= entries_view(ys@));
                true
            },
            _ => false,
        },
    }
}

/// A copy of `v`.
#[verifier::loop_isolation(false)]
pub fn clone_value(v: &JsonValue) -> (r: JsonValue)
    ensures
        r@ == v@,
    decreases v,
{
    match v {
        JsonValue::Null => JsonValue::Null,
        JsonValue::Bool(b) => JsonValue::Bool(*b),
        JsonValue::Number(n) => JsonValue::Number(copy_string(n)),
        JsonValue::String(s) => JsonValue::String(copy_string(s)),
        JsonValue::Array(items) => {
            let mut out: Vec<JsonValue> = Vec::new();
            let mut i: usize = 0;
            while i < items.len()
                invariant
                    i <= items@.len(),
                    out@.len() == i,
                    forall|j: int| 0 <= j < i ==> json_of(#[trigger] out@[j]) == json_of(items@[j]),
                decreases items@.len() - i,
            {
                proof {
                    assert(decreases_to!(*v => *items));
                    assert(decreases_to!(*items => items@));
                    assert(decreases_to!(items@ => items@[i as int]));
                }
                let c = clone_value(&items[i]);
                out.push(c);
                i = i + 1;
            }
            proof {
                lemma_array_view(out);
                lemma_array_view(*items);
                assert(items_view(out@) =~= items_view(items@));
            }
            JsonValue::Array(out)
        },
        JsonValue::Object(entries) => {
            let mut out: Vec<(String, JsonValue)> = Vec::new();
            let mut i: usize = 0;
            while i < entries.len()
                invariant
                    i <= entries@.len(),
                    out@.len() == i,
                    forall|j: int| 0 <= j < i ==> (#[trigger] out@[j]).0@ == entries@[j].0@ && json_of(out@[j].1) == json_of(entries@[j].1),
                decreases entries@.len() - i,
            {
                let k = copy_string(&entries[i].0);
                proof {
                    assert(decreases_to!(*v => *entries));
                    assert(decreases_to!(*entries => entries@));
                    assert(decreases_to!(entries@ => entries@[i as int]));
                    assert(decreases_to!(entries@[i as int] => entries@[i as int].1));
                }
                let c = clone_value(&entries[i].1);
                out.push((k, c));
                i = i + 1;
            }
            proof {
                lemma_object_view(out);
                lemma_object_view(*entries);
                assert(entries_view(out@) =~= entries_view(entries@));
            }
            JsonValue::Object(out)
        },
    }
}


/// Looking a key up right after storing it under that key finds the
/// stored value.
pub proof fn lemma_get_inserted(es: Seq<(Seq<char>, Json)>, k: Seq<char>, v: Json)
    ensures
        entry_get(entry_insert(es, k, v), k) == Some(v),
    decreases es.len(),
{
    if es.len() > 0 && es[0].0 != k && !seq_lt(k, es[0].0) {
        lemma_get_inserted(es.drop_first(), k, v);
        assert((seq![es[0]] + entry_insert(es.drop_first(), k, v)).drop_first() =~= entry_insert(es.drop_first(), k, v));
    }
}

/// Storing a value under one key leaves what another key finds unchanged.
pub proof fn lemma_get_other(es: Seq<(Seq<char>, Json)>, k: Seq<char>, v: Json, other: Seq<char>)
    requires
        other != k,
    ensures
        entry_get(entry_insert(es, k, v), other) == entry_get(es, other),
    decreases es.len(),
{
    lemma_lt_total(k, other);
    if es.len() == 0 {
        assert(seq![(k, v)][0] == (k, v));
        assert(seq![(k, v)].drop_first() =~= Seq::<(Seq<char>, Json)>::empty());
        assert(entry_get(entry_insert(es, k, v), other) == entry_get(es, other));
    } else if es[0].0 == k {
        assert(es.update(0, (k, v))[0] == (k, v));
        assert(es.update(0, (k, v)).drop_first() =~= es.drop_first());
        assert(entry_get(entry_insert(es, k, v), other) == entry_get(es, other));
    } else if seq_lt(k, es[0].0) {
        let r = seq![(k, v)] + es;
        assert(r[0] == (k, v));
        assert(r.drop_first() =~= es);
        if seq_lt(other, k) {
            lemma_lt_trans(other, k, es[0].0);
            lemma_lt_irrefl(other);
        }
        assert(entry_get(entry_insert(es, k, v), other) == entry_get(es, other));
    } else {
        lemma_get_other(es.drop_first(), k, v, other);
        let r = seq![es[0]] + entry_insert(es.drop_first(), k, v);
        assert(r[0] == es[0]);
        assert(r.drop_first() =~= entry_insert(es.drop_first(), k, v));
    }
}

/// Read after write: once `v` has been written at `segs` below `cur`,
/// walking `segs` through the result reaches `v`.
pub proof fn law_walk_after_insert(cur: Json, segs: Seq<Seq<char>>, v: Json)
    requires
        inserted(cur, segs, v) is Ok,
    ensures
        walk(inserted(cur, segs, v)->Ok_0, segs) == Some(v),
    decreases segs.len(),
{
    let r = inserted(cur, segs, v)->Ok_0;
    if segs.len() == 0 {
    } else if segs.len() == 1 {
        assert(segs.drop_first() =~= Seq::<Seq<char>>::empty());
        match cur {
            Json::Object(es) => {
                lemma_get_inserted(es, segs[0], v);
            },
            Json::Array(items) => {
                let n = parse_usize(segs[0])->Some_0;
                assert(padded(items, n, Json::Null).len() > n);
            },
            _ => {},
        }
    } else {
        let nxt = parse_usize(segs[1]) is Some;
        match cur {
            Json::Object(es) => {
                let child = match entry_get(es, segs[0]) {
                    Some(c) => c,
                    None => container(nxt),
                };
                let c = inserted(child, segs.drop_first(), v)->Ok_0;
                lemma_get_inserted(es, segs[0], c);
                law_walk_after_insert(child, segs.drop_first(), v);
            },
            Json::Array(items) => {
                let n = parse_usize(segs[0])->Some_0;
                let p = padded(items, n, container(nxt));
                assert(p.len() > n);
                let child = if p[n as int] is Null { container(nxt) } else { p[n as int] };
                law_walk_after_insert(child, segs.drop_first(), v);
                let c = inserted(child, segs.drop_first(), v)->Ok_0;
                assert(r == Json::Array(p.update(n as int, c)));
                assert(child_at(r, segs[0]) == Some(c));
            },
            _ => {},
        }
    }
}

/// Take after write: once `v` has been written at `segs` below `cur`,
/// removing the value at `segs` from the result hands back `v`.
pub proof fn law_take_after_insert(cur: Json, segs: Seq<Seq<char>>, v: Json)
    requires
        inserted(cur, segs, v) is Ok,
        segs.len() > 0,
    ensures
        taken(inserted(cur, segs, v)->Ok_0, segs).1 == Some(v),
    decreases segs.len(),
{
    if segs.len() == 1 {
        match cur {
            Json::Object(es) => {
                lemma_get_inserted(es, segs[0], v);
            },
            _ => {},
        }
    } else {
        let nxt = parse_usize(segs[1]) is Some;
        match cur {
            Json::Object(es) => {
                let child = match entry_get(es, segs[0]) {
                    Some(c) => c,
                    None => container(nxt),
                };
                let c = inserted(child, segs.drop_first(), v)->Ok_0;
                lemma_get_inserted(es, segs[0], c);
                law_take_after_insert(child, segs.drop_first(), v);
            },
            Json::Array(items) => {
                let n = parse_usize(segs[0])->Some_0;
                let p = padded(items, n, container(nxt));
                let child = if p[n as int] is Null { container(nxt) } else { p[n as int] };
                law_take_after_insert(child, segs.drop_first(), v);
            },
            _ => {},
        }
    }
}

/// Read after write through a dotted path: once `insert_path` has written
/// `v` at `segs`, the path that joins `segs` with `.` reads `v` back (no
/// segment may hold a `.` itself).
pub proof fn law_read_after_insert_path(root: Json, segs: Seq<Seq<char>>, v: Json)
    requires
        insert_result(root, segs, v) is Ok,
        forall|i: int| 0 <= i < segs.len() ==> !(#[trigger] segs[i]).contains('.'),
    ensures
        value_at(insert_result(root, segs, v)->Ok_0, join(segs, seq!['.'])) == Some(v),
{
    let path = join(segs, seq!['.']);
    crate::text::lemma_split_join(segs, '.');
    if path.len() == 0 {
        assert(path =~= Seq::<char>::empty());
        assert(split(path, '.') =~= seq![Seq::<char>::empty()]);
        assert(segs[0].len() == 0);
    }
    law_walk_after_insert(root, segs, v);
}

proof fn lemma_canon_twice(cur: Json, segs: Seq<Seq<char>>)
    ensures
        canon_segs(cur, canon_segs(cur, segs)) == canon_segs(cur, segs),
    decreases segs.len(),
{
    let c = canon_segs(cur, segs);
    if segs.len() > 0 {
        match cur {
            Json::Object(es) => {
                assert(c[0] == segs[0]);
                match entry_get(es, segs[0]) {
                    Some(ch) => {
                        lemma_canon_twice(ch, segs.drop_first());
                        assert(c.drop_first() =~= canon_segs(ch, segs.drop_first()));
                    },
                    None => {
                        assert(c.drop_first() =~= segs.drop_first());
                    },
                }
            },
            Json::Array(items) => match parse_usize(segs[0]) {
                Some(n) => {
                    crate::text::lemma_parse_decimal(n);
                    assert(c[0] == decimal(n));
                    if n < items.len() {
                        lemma_canon_twice(items[n as int], segs.drop_first());
                        assert(c.drop_first() =~= canon_segs(items[n as int], segs.drop_first()));
                    } else {
                        assert(c.drop_first() =~= segs.drop_first());
                    }
                },
                None => {},
            },
            _ => {},
        }
    }
}

proof fn lemma_canon_shape(cur: Json, segs: Seq<Seq<char>>)
    requires
        forall|i: int| 0 <= i < segs.len() ==> !(#[trigger] segs[i]).contains('.'),
    ensures
        canon_segs(cur, segs).len() == segs.len(),
        forall|i: int| 0 <= i < segs.len() ==> !(#[trigger] canon_segs(cur, segs)[i]).contains('.'),
    decreases segs.len(),
{
    let c = canon_segs(cur, segs);
    if segs.len() > 0 {
        let tail = segs.drop_first();
        assert forall|i: int| 0 <= i < tail.len() implies !(#[trigger] tail[i]).contains('.') by {
            assert(tail[i] == segs[i + 1]);
        }
        match cur {
            Json::Object(es) => {
                let rest = match entry_get(es, segs[0]) {
                    Some(ch) => {
                        lemma_canon_shape(ch, tail);
                        canon_segs(ch, tail)
                    },
                    None => tail,
                };
                assert forall|i: int| 0 <= i < segs.len() implies !(#[trigger] c[i]).contains('.') by {
                    if i > 0 {
                        assert(c[i] == rest[i - 1]);
                    }
                }
            },
            Json::Array(items) => match parse_usize(segs[0]) {
                Some(n) => {
                    crate::text::lemma_decimal_digits(n);
                    let rest = if n < items.len() {
                        lemma_canon_shape(items[n as int], tail);
                        canon_segs(items[n as int], tail)
                    } else {
                        tail
                    };
                    assert forall|i: int| 0 <= i < segs.len() implies !(#[trigger] c[i]).contains('.') by {
                        if i > 0 {
                            assert(c[i] == rest[i - 1]);
                        } else {
                            let d = decimal(n);
                            if d.contains('.') {
                                let j = choose|j: int| 0 <= j < d.len() && d[j] == '.';
                                assert(crate::text::is_digit(d[j]));
                            }
                        }
                    }
                },
                None => {},
            },
            _ => {},
        }
    }
}

/// Canonicalizing a path twice against the same value gives what
/// canonicalizing it once gave.
pub proof fn law_runtime_path_idempotent(root: Json, path: Seq<char>)
    ensures
        runtime_path(root, runtime_path(root, path)) == runtime_path(root, path),
{
    if path.len() > 0 {
        let segs = split(path, '.');
        crate::text::lemma_split_pieces(path, '.');
        crate::text::lemma_split_nonempty(path, '.');
        lemma_canon_shape(root, segs);
        let c = canon_segs(root, segs);
        let p2 = join(c, seq!['.']);
        if p2.len() > 0 {
            crate::text::lemma_split_join(c, '.');
            lemma_canon_twice(root, segs);
        }
    }
}

} // verus!
