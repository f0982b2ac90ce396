//! Sparse typed overrides and the helpers of the path macros.
use vstd::prelude::*;
use crate::text::{chars_of, string_of, is_space, is_space_char, string_views, views, parse_usize, parse_usize_chars, split,
    decimal, decimal_chars, copy_string};
use crate::sources::cat;
use crate::json::{JsonValue, Json, json_of, items_view, entries_view, entry_get, entry_lookup, lemma_array_view,
    lemma_object_view, entry_insert, entries_insert, entry_position, key_at, lemma_at_position, lemma_insert_at,
    conflict_message, index_message, container, padded, pad_items, empty_container, indices_bounded, clone_value};
use crate::strmap::StrMap;
use crate::arrays::set_view;
use crate::path::{normalized, normalize_path_chars, normalize_path, overlap, paths_overlap};
use crate::strmap::{seq_lt, lemma_lt_irrefl, lemma_lt_total};
use crate::error::ConfigError;
use crate::syntax::{clean_name, plain_char};
use crate::arrays::{child_index, lengths_view, grown_in, bases_in, lengths_into, cleared, record_container_lengths,
    record_direct_array_state};
use crate::sources::{SourceKind, SourceTrace, opt_view};
use crate::syntax::{parse_path, names, syntax_message, index_overflows, parse_patch_path};
use crate::args::{Layer, union_into};

verus! {

/// A field of a sparse override: left alone, or set to a value.
pub enum Patch<T> {
    /// Do not override this field.
    Unset,
    /// Override this field with the contained value.
    Value(T),
}

impl<T> Patch<T> {
    /// A patch that overrides a field with `value`.
    pub fn set(value: T) -> (r: Self)
        ensures
            r == Patch::Value(value),
    {
        Patch::Value(value)
    }

    /// The override value, when set.
    pub fn as_ref(&self) -> (r: Option<&T>)
        ensures
            match *self {
                Patch::Unset => r is None,
                Patch::Value(v) => r == Some(&v),
            },
    {
        match self {
            Patch::Unset => None,
            Patch::Value(v) => Some(v),
        }
    }

    /// Whether the patch carries an override value.
    pub fn is_set(&self) -> (r: bool)
        ensures
            r == (*self is Value),
    {
        match self {
            Patch::Unset => false,
            Patch::Value(_) => true,
        }
    }

    /// The override value, when set.
    pub fn into_option(self) -> (r: Option<T>)
        ensures
            match self {
                Patch::Unset => r is None,
                Patch::Value(v) => r == Some(v),
            },
    {
        match self {
            Patch::Unset => None,
            Patch::Value(v) => Some(v),
        }
    }
}

impl<T> Default for Patch<T> {
    fn default() -> (r: Self)
        ensures
            r is Unset,
    {
        Patch::Unset
    }
}

impl<T> From<T> for Patch<T> {
    fn from(value: T) -> (r: Self) {
        Patch::Value(value)
    }
}

impl<T> vstd::std_specs::convert::FromSpecImpl<T> for Patch<T> {
    open spec fn obeys_from_spec() -> bool {
        true
    }

    open spec fn from_spec(v: T) -> Self {
        Patch::Value(v)
    }
}

/// `path` below `prefix`; either may be empty.
pub open spec fn patch_path(prefix: Seq<char>, path: Seq<char>) -> Seq<char> {
    if prefix.len() == 0 {
        path
    } else if path.len() == 0 {
        prefix
    } else {
        prefix + seq!['.'] + path
    }
}

/// Joins a patch prefix and a field path.
pub fn join_patch_prefix(prefix: &str, path: &str) -> (r: String)
    ensures
        r@ == patch_path(prefix@, path@),
{
    if prefix.is_empty() {
        path.to_string()
    } else if path.is_empty() {
        prefix.to_string()
    } else {
        let r = cat(&cat(prefix, "."), path);
        proof {
            reveal_strlit(".");
        }
        assert(r@ =~= prefix@ + seq!['.'] + path@);
        r
    }
}

/// `s` without its white space.
pub open spec fn without_space(s: Seq<char>) -> Seq<char> {
    s.filter(|c: char| !is_space(c))
}

/// Removes the white space that macro stringification leaves in a path.
pub fn normalize_macro_path(path: &str) -> (r: String)
    ensures
        r@ == without_space(path@),
{
    let cs = chars_of(path);
    let mut out: Vec<char> = Vec::new();
    let mut i: usize = 0;
    while i < cs.len()
        invariant
            i <= cs@.len(),
            out@ == cs@.take(i as int).filter(|c: char| !is_space(c)),
        decreases cs@.len() - i,
    {
        proof {
            reveal_with_fuel(Seq::filter, 1);
        }
        assert(cs@.take(i + 1).drop_last() =~= cs@.take(i as int));
        if !is_space_char(cs[i]) {
            out.push(cs[i]);
        }
        i = i + 1;
    }
    assert(cs@.take(cs@.len() as int) =~= cs@);
    string_of(&out)
}

/// The item type of a collection that a path pattern steps into.
pub trait PathPatternItem {
    type Item;
}

impl<T> PathPatternItem for Vec<T> {
    type Item = T;
}

impl<T, const N: usize> PathPatternItem for [T; N] {
    type Item = T;
}

impl<K, V> PathPatternItem for std::collections::BTreeMap<K, V> {
    type Item = V;
}

impl<T> PathPatternItem for std::collections::BTreeSet<T> {
    type Item = T;
}

/// A typed nothing of a collection's item type, for the path macros' type
/// checks.
pub fn pattern_item_ref<C: PathPatternItem>(_collection: &C) -> (r: Option<&C::Item>)
    ensures
        r is None,
{
    None
}

/// What canonicalizing a patch path walks over: a value already in the
/// shape, or a container that the write will create.
pub enum Walk {
    Val(Json),
    Obj,
    Arr,
}

/// The positions that a list of indices names.
pub open spec fn mark_set(v: Seq<usize>) -> Set<int> {
    Set::new(|i: int| exists|k: int| 0 <= k < v.len() && v[k] as int == i)
}

/// The canonical spelling of the segments of a patch path from position `i`
/// on, walked against the shape, and which of those positions are array
/// indices. An index is written in decimal; past a scalar, or a segment
/// that cannot index an array, the rest is kept as written.
pub open spec fn canon_from(cur: Walk, segs: Seq<Seq<char>>, marks: Set<int>, i: int) -> (Seq<Seq<char>>, Set<int>)
    decreases segs.len() - i,
{
    if i < 0 || i >= segs.len() {
        (Seq::empty(), Set::empty())
    } else {
        let seg = segs[i];
        let last = i + 1 == segs.len();
        let next_arr = !last && marks.contains(i + 1);
        let fresh = if next_arr { Walk::Arr } else { Walk::Obj };
        match cur {
            Walk::Val(Json::Object(es)) => {
                let nxt = if last {
                    Walk::Obj
                } else {
                    match entry_get(es, seg) {
                        Some(c) => Walk::Val(c),
                        None => fresh,
                    }
                };
                let r = canon_from(nxt, segs, marks, i + 1);
                (seq![seg] + r.0, r.1)
            },
            Walk::Val(Json::Array(items)) => match parse_usize(seg) {
                None => (segs.skip(i), Set::empty()),
                Some(n) => {
                    let nxt = if last {
                        Walk::Arr
                    } else if n < items.len() {
                        Walk::Val(items[n as int])
                    } else {
                        fresh
                    };
                    let r = canon_from(nxt, segs, marks, i + 1);
                    (seq![decimal(n)] + r.0, r.1.insert(i))
                },
            },
            Walk::Val(_) => (segs.skip(i), Set::empty()),
            Walk::Obj => {
                let r = canon_from(if last { Walk::Obj } else { fresh }, segs, marks, i + 1);
                (seq![seg] + r.0, r.1)
            },
            Walk::Arr => match parse_usize(seg) {
                None => (segs.skip(i), Set::empty()),
                Some(n) => {
                    let r = canon_from(if last || next_arr { Walk::Arr } else { Walk::Obj }, segs, marks, i + 1);
                    (seq![decimal(n)] + r.0, r.1.insert(i))
                },
            },
        }
    }
}

proof fn lemma_mark_set_push(v: Seq<usize>, k: usize)
    ensures
        mark_set(v.push(k)) == mark_set(v).insert(k as int),
{
    let w = v.push(k);
    assert forall|x: int| #[trigger] mark_set(w).contains(x) == mark_set(v).insert(k as int).contains(x) by {
        if mark_set(w).contains(x) {
            let j = choose|j: int| 0 <= j < w.len() && w[j] as int == x;
            if j < v.len() {
                assert(v[j] == w[j]);
            }
        }
        if mark_set(v).contains(x) {
            let j = choose|j: int| 0 <= j < v.len() && v[j] as int == x;
            assert(w[j] == v[j]);
        }
        if x == k as int {
            assert(w[v.len() as int] == k);
        }
    }
    assert(mark_set(w) =~= mark_set(v).insert(k as int));
}

fn has_mark(marks: &Vec<usize>, k: usize) -> (r: bool)
    ensures
        r == mark_set(marks@).contains(k as int),
{
    let mut j: usize = 0;
    while j < marks.len()
        invariant
            j <= marks@.len(),
            forall|x: int| 0 <= x < j ==> marks@[x] != k,
        decreases marks@.len() - j,
    {
        if marks[j] == k {
            assert(marks@[j as int] as int == k as int);
            return true;
        }
        j = j + 1;
    }
    false
}

pub open spec fn walk_of(v: Option<&JsonValue>, arr: bool) -> Walk {
    match v {
        Some(x) => Walk::Val(x@),
        None => if arr { Walk::Arr } else { Walk::Obj },
    }
}

/// Spells the segments of a patch path as the shape holds them: indices of
/// existing arrays in decimal. Returns the segments and the positions that
/// are array indices, in increasing order.
pub fn canonicalize_patch_path(root: &JsonValue, segments: &Vec<String>, explicit_array_segments: &Vec<usize>) -> (r: (Vec<String>, Vec<usize>))
    ensures
        (string_views(r.0@), mark_set(r.1@)) == canon_from(Walk::Val(root@), string_views(segments@), mark_set(explicit_array_segments@), 0),
        forall|a: int, b: int| 0 <= a < b < r.1@.len() ==> r.1@[a] < r.1@[b],
        forall|a: int| 0 <= a < r.1@.len() ==> r.1@[a] < segments@.len(),
{
    let ghost segs = string_views(segments@);
    let ghost marks = mark_set(explicit_array_segments@);
    let ghost total = canon_from(Walk::Val(root@), segs, marks, 0);
    let mut out: Vec<String> = Vec::new();
    let mut arr_out: Vec<usize> = Vec::new();
    let mut cur: Option<&JsonValue> = Some(root);
    let mut cur_arr: bool = false;
    let mut i: usize = 0;
    while i < segments.len()
        invariant
            i <= segments@.len(),
            segs == string_views(segments@),
            marks == mark_set(explicit_array_segments@),
            total == canon_from(Walk::Val(root@), segs, marks, 0),
            total.0 == string_views(out@) + canon_from(walk_of(cur, cur_arr), segs, marks, i as int).0,
            total.1 == mark_set(arr_out@) + canon_from(walk_of(cur, cur_arr), segs, marks, i as int).1,
            forall|a: int, b: int| 0 <= a < b < arr_out@.len() ==> arr_out@[a] < arr_out@[b],
            forall|a: int| 0 <= a < arr_out@.len() ==> arr_out@[a] < i,
        decreases segments@.len() - i,
    {
        let ghost w = walk_of(cur, cur_arr);
        let ghost rest = canon_from(w, segs, marks, i as int);
        let seg = &segments[i];
        assert(segs[i as int] == seg@);
        let last = i + 1 == segments.len();
        let next_arr = !last && has_mark(explicit_array_segments, i + 1);
        let ghost ow = string_views(out@);
        let ghost om = mark_set(arr_out@);
        let mut stop = false;
        match cur {
            Some(JsonValue::Object(es)) => {
                proof {
                    lemma_object_view(*es);
                }
                let ghost nxt = if last {
                    Walk::Obj
                } else {
                    match entry_get(entries_view(es@), seg@) {
                        Some(c) => Walk::Val(c),
                        None => if next_arr { Walk::Arr } else { Walk::Obj },
                    }
                };
                out.push(copy_string(seg));
                if last {
                    cur = None;
                    cur_arr = false;
                } else {
                    let sc = chars_of(seg.as_str());
                    match entry_lookup(es, &sc) {
                        Some(c) => {
                            cur = Some(c);
                        },
                        None => {
                            cur = None;
                            cur_arr = next_arr;
                        },
                    }
                }
                assert(walk_of(cur, cur_arr) == nxt);
                assert(string_views(out@) =~= ow.push(seg@));
                assert(ow + rest.0 =~= string_views(out@) + canon_from(nxt, segs, marks, i + 1).0);
            },
            Some(JsonValue::Array(items)) => {
                proof {
                    lemma_array_view(*items);
                }
                match parse_usize_chars(&chars_of(seg.as_str())) {
                    None => {
                        stop = true;
                    },
                    Some(n) => {
                        let ghost nxt = if last {
                            Walk::Arr
                        } else if (n as nat) < items@.len() {
                            Walk::Val(items@[n as int]@)
                        } else if next_arr {
                            Walk::Arr
                        } else {
                            Walk::Obj
                        };
                        let d = decimal_chars(n);
                        out.push(string_of(&d));
                        proof {
                            lemma_mark_set_push(arr_out@, i);
                        }
                        arr_out.push(i);
                        if last {
                            cur = None;
                            cur_arr = true;
                        } else if n < items.len() {
                            cur = Some(&items[n]);
                            assert(items_view(items@)[n as int] == items@[n as int]@);
                        } else {
                            cur = None;
                            cur_arr = next_arr;
                        }
                        assert(walk_of(cur, cur_arr) == nxt);
                        assert(string_views(out@) =~= ow.push(decimal(n as nat)));
                        assert(ow + rest.0 =~= string_views(out@) + canon_from(nxt, segs, marks, i + 1).0);
                        assert(mark_set(arr_out@) =~= om.insert(i as int));
                        assert(om + rest.1 =~= mark_set(arr_out@) + canon_from(nxt, segs, marks, i + 1).1);
                    },
                }
            },
            Some(_) => {
                stop = true;
            },
            None => {
                if !cur_arr {
                    let ghost nxt = if last { Walk::Obj } else if next_arr { Walk::Arr } else { Walk::Obj };
                    out.push(copy_string(seg));
                    cur_arr = !last && next_arr;
                    assert(walk_of(cur, cur_arr) == nxt);
                    assert(string_views(out@) =~= ow.push(seg@));
                    assert(ow + rest.0 =~= string_views(out@) + canon_from(nxt, segs, marks, i + 1).0);
                } else {
                    match parse_usize_chars(&chars_of(seg.as_str())) {
                        None => {
                            stop = true;
                        },
                        Some(n) => {
                            let ghost nxt = if last || next_arr { Walk::Arr } else { Walk::Obj };
                            let d = decimal_chars(n);
                            out.push(string_of(&d));
                            proof {
                                lemma_mark_set_push(arr_out@, i);
                            }
                            arr_out.push(i);
                            cur_arr = last || next_arr;
                            assert(walk_of(cur, cur_arr) == nxt);
                            assert(string_views(out@) =~= ow.push(decimal(n as nat)));
                            assert(ow + rest.0 =~= string_views(out@) + canon_from(nxt, segs, marks, i + 1).0);
                            assert(mark_set(arr_out@) =~= om.insert(i as int));
                            assert(om + rest.1 =~= mark_set(arr_out@) + canon_from(nxt, segs, marks, i + 1).1);
                        },
                    }
                }
            },
        }
        if stop {
            let mut j: usize = i;
            while j < segments.len()
                invariant
                    i <= j <= segments@.len(),
                    segs == string_views(segments@),
                    string_views(out@) == ow + segs.subrange(i as int, j as int),
                decreases segments@.len() - j,
            {
                let ghost before = string_views(out@);
                out.push(copy_string(&segments[j]));
                assert(string_views(out@) =~= before.push(segs[j as int]));
                assert(segs.subrange(i as int, j + 1) =~= segs.subrange(i as int, j as int).push(segs[j as int]));
                j = j + 1;
            }
            assert(segs.subrange(i as int, segs.len() as int) =~= segs.skip(i as int));
            assert(om + Set::<int>::empty() =~= om);
            return (out, arr_out);
        }
        i = i + 1;
    }
    assert(string_views(out@) + Seq::<Seq<char>>::empty() =~= string_views(out@));
    assert(mark_set(arr_out@) + Set::<int>::empty() =~= mark_set(arr_out@));
    (out, arr_out)
}

/// The paths of the arrays that the index positions `arr` of `segs` lie in.
pub open spec fn patch_containers(segs: Seq<Seq<char>>, arr: Set<int>) -> Set<Seq<char>> {
    Set::new(|p: Seq<char>| exists|i: int| #[trigger] arr.contains(i) && p == normalized(crate::text::join(segs.take(i), seq!['.'])))
}

/// The paths of the arrays that the index positions of a patch path lie in.
pub fn patch_indexed_array_container_paths(segments: &Vec<String>, array_segments: &Vec<usize>) -> (r: StrMap<()>)
    requires
        forall|k: int| 0 <= k < array_segments@.len() ==> array_segments@[k] <= segments@.len(),
    ensures
        r.wf(),
        set_view(r) == patch_containers(string_views(segments@), mark_set(array_segments@)),
{
    let ghost sv = string_views(segments@);
    let ghost am = mark_set(array_segments@);
    let dot = ['.'];
    assert(dot@ =~= seq!['.']);
    let mut paths: StrMap<()> = StrMap::new();
    assert(set_view(paths) =~= Set::<Seq<char>>::empty());
    let mut j: usize = 0;
    while j < array_segments.len()
        invariant
            j <= array_segments@.len(),
            sv == string_views(segments@),
            dot@ == seq!['.'],
            forall|k: int| 0 <= k < array_segments@.len() ==> array_segments@[k] <= segments@.len(),
            paths.wf(),
            set_view(paths) == Set::new(|p: Seq<char>| exists|k: int| 0 <= k < j
                && p == normalized(crate::text::join(sv.take(array_segments@[k] as int), seq!['.']))),
        decreases array_segments@.len() - j,
    {
        let idx = array_segments[j];
        let mut prefix: Vec<Vec<char>> = Vec::new();
        let mut t: usize = 0;
        while t < idx
            invariant
                t <= idx <= segments@.len(),
                sv == string_views(segments@),
                views(prefix@) == sv.take(t as int),
            decreases idx - t,
        {
            let ghost before = views(prefix@);
            prefix.push(chars_of(segments[t].as_str()));
            assert(views(prefix@) =~= before.push(sv[t as int]));
            assert(sv.take(t + 1) =~= sv.take(t as int).push(sv[t as int]));
            t = t + 1;
        }
        let joined = crate::text::join_chars(&prefix, &dot);
        assert(prefix@.map_values(|p: Vec<char>| p@) =~= views(prefix@));
        let norm = normalize_path_chars(&joined);
        let ghost before = set_view(paths);
        let ghost key = normalized(crate::text::join(sv.take(idx as int), seq!['.']));
        let ghost pm = paths;
        paths.insert(string_of(&norm), ());
        assert(set_view(paths) =~= before.insert(key));
        assert(set_view(paths) =~= Set::new(|p: Seq<char>| exists|k: int| 0 <= k < j + 1
            && p == normalized(crate::text::join(sv.take(array_segments@[k] as int), seq!['.'])))) by {
            assert forall|p: Seq<char>| #[trigger] set_view(paths).contains(p) == (exists|k: int| 0 <= k < j + 1
                && p == normalized(crate::text::join(sv.take(array_segments@[k] as int), seq!['.']))) by {
                if p == key {
                    assert(0 <= j < j + 1 && p == normalized(crate::text::join(sv.take(array_segments@[j as int] as int), seq!['.'])));
                }
                if exists|k: int| 0 <= k < j + 1 && p == normalized(crate::text::join(sv.take(array_segments@[k] as int), seq!['.'])) {
                    let k = choose|k: int| 0 <= k < j + 1 && p == normalized(crate::text::join(sv.take(array_segments@[k] as int), seq!['.']));
                    if k < j {
                        assert(before.contains(p));
                    }
                }
            }
        }
        j = j + 1;
    }
    assert(set_view(paths) =~= patch_containers(sv, am)) by {
        assert forall|p: Seq<char>| #[trigger] set_view(paths).contains(p) == patch_containers(sv, am).contains(p) by {
            if set_view(paths).contains(p) {
                let k = choose|k: int| 0 <= k < array_segments@.len()
                    && p == normalized(crate::text::join(sv.take(array_segments@[k] as int), seq!['.']));
                assert(am.contains(array_segments@[k] as int));
            }
            if patch_containers(sv, am).contains(p) {
                let i = choose|i: int| #[trigger] am.contains(i) && p == normalized(crate::text::join(sv.take(i), seq!['.']));
                let k = choose|k: int| 0 <= k < array_segments@.len() && array_segments@[k] as int == i;
                assert(0 <= k < array_segments@.len()
                    && p == normalized(crate::text::join(sv.take(array_segments@[k] as int), seq!['.'])));
            }
        }
    }
    paths
}

pub open spec fn opt_json(v: Option<&JsonValue>) -> Option<Json> {
    match v {
        Some(x) => Some(x@),
        None => None,
    }
}

/// The container to create below a segment: the kind the shape has there,
/// else an array when the next segment is an explicit index; a scalar in
/// the shape is a conflict.
pub open spec fn next_container(shape_child: Option<Json>, next_is_array: bool, next_segment: Seq<char>) -> Result<Json, Seq<char>> {
    match shape_child {
        Some(Json::Object(_)) => Ok(Json::Object(Seq::empty())),
        Some(Json::Array(_)) => Ok(Json::Array(Seq::empty())),
        Some(_) => Err(conflict_message(next_segment)),
        None => Ok(container(next_is_array)),
    }
}

/// Whether `child` is the kind of container that the shape (or, without
/// one, the next segment) calls for.
pub open spec fn container_fits(child: Json, shape_child: Option<Json>, next_is_array: bool) -> bool {
    let expected_array = (shape_child matches Some(Json::Array(_))) || (shape_child is None && next_is_array);
    let expected_object = (shape_child matches Some(Json::Object(_))) || (shape_child is None && !next_is_array);
    (child is Object && expected_object) || (child is Array && expected_array)
}

/// Writing `v` at the segments from depth `d` on, below `cur`, guided by
/// `shape`: the value it leaves (also when the write fails part way, as
/// containers created on the way stay) and whether it succeeded.
pub open spec fn shaped(cur: Json, shape: Option<Json>, segs: Seq<Seq<char>>, arr: Set<int>, d: int, v: Json) -> (Json, Result<(), Seq<char>>)
    decreases segs.len() - d,
{
    if d < 0 || d >= segs.len() {
        (cur, Ok(()))
    } else if segs[d].len() == 0 {
        (cur, Err("configuration path contains an empty segment"@))
    } else {
        let seg = segs[d];
        let last = d == segs.len() - 1;
        match cur {
            Json::Object(es) => if last {
                (Json::Object(entry_insert(es, seg, v)), Ok(()))
            } else {
                let sc = match shape {
                    Some(Json::Object(ses)) => entry_get(ses, seg),
                    _ => None,
                };
                let na = arr.contains(d + 1);
                match next_container(sc, na, segs[d + 1]) {
                    Err(m) => (cur, Err(m)),
                    Ok(fresh) => {
                        let child = match entry_get(es, seg) {
                            Some(c) => c,
                            None => fresh,
                        };
                        if !container_fits(child, sc, na) {
                            (Json::Object(entry_insert(es, seg, child)), Err(conflict_message(seg)))
                        } else {
                            let r = shaped(child, sc, segs, arr, d + 1, v);
                            (Json::Object(entry_insert(es, seg, r.0)), r.1)
                        }
                    },
                }
            },
            Json::Array(items) => match parse_usize(seg) {
                None => (cur, Err(index_message(seg))),
                Some(n) => {
                    let p = padded(items, n, Json::Null);
                    if last {
                        (Json::Array(p.update(n as int, v)), Ok(()))
                    } else {
                        let sc = match shape {
                            Some(Json::Array(sitems)) => if n < sitems.len() { Some(sitems[n as int]) } else { None },
                            _ => None,
                        };
                        let na = arr.contains(d + 1);
                        let filled: Result<Seq<Json>, Seq<char>> = if p[n as int] is Null {
                            match next_container(sc, na, segs[d + 1]) {
                                Ok(fresh) => Ok(p.update(n as int, fresh)),
                                Err(m) => Err(m),
                            }
                        } else {
                            Ok(p)
                        };
                        match filled {
                            Err(m) => (Json::Array(p), Err(m)),
                            Ok(p2) => if !container_fits(p2[n as int], sc, na) {
                                (Json::Array(p2), Err(conflict_message(seg)))
                            } else {
                                let r = shaped(p2[n as int], sc, segs, arr, d + 1, v);
                                (Json::Array(p2.update(n as int, r.0)), r.1)
                            },
                        }
                    }
                },
            },
            _ => (cur, Err(conflict_message(seg))),
        }
    }
}

/// The container to create below a segment (see `next_container`).
fn patch_next_container(shape_child: Option<&JsonValue>, next_is_array: bool, next_segment: &str) -> (r: Result<JsonValue, String>)
    ensures
        match r {
            Ok(v) => next_container(opt_json(shape_child), next_is_array, next_segment@) == Ok::<Json, Seq<char>>(v@),
            Err(m) => next_container(opt_json(shape_child), next_is_array, next_segment@) == Err::<Json, Seq<char>>(m@),
        },
{
    match shape_child {
        Some(JsonValue::Object(_)) => Ok(empty_container(false)),
        Some(JsonValue::Array(_)) => Ok(empty_container(true)),
        Some(_) => Err(cat(&cat("path segment ", next_segment), " conflicts with an existing non-container value")),
        None => Ok(empty_container(next_is_array)),
    }
}

/// Refuses a child that is not the kind of container the shape calls for.
fn ensure_patch_container(child: &JsonValue, shape_child: Option<&JsonValue>, next_is_array: bool, segment: &str) -> (r: Result<(), String>)
    ensures
        match r {
            Ok(()) => container_fits(child@, opt_json(shape_child), next_is_array),
            Err(m) => !container_fits(child@, opt_json(shape_child), next_is_array) && m@ == conflict_message(segment@),
        },
{
    let expected_array = match shape_child {
        Some(JsonValue::Array(_)) => true,
        Some(_) => false,
        None => next_is_array,
    };
    let expected_object = match shape_child {
        Some(JsonValue::Object(_)) => true,
        Some(_) => false,
        None => !next_is_array,
    };
    let ok = match child {
        JsonValue::Object(_) => expected_object,
        JsonValue::Array(_) => expected_array,
        _ => false,
    };
    if ok {
        Ok(())
    } else {
        Err(cat(&cat("path segment ", segment), " conflicts with an existing non-container value"))
    }
}

pub open spec fn shaped_result(r: (JsonValue, Result<(), String>)) -> (Json, Result<(), Seq<char>>) {
    (r.0@, match r.1 {
        Ok(()) => Ok::<(), Seq<char>>(()),
        Err(m) => Err::<(), Seq<char>>(m@),
    })
}

fn shaped_into(cur: JsonValue, shape: Option<&JsonValue>, segs: &Vec<String>, arr: &Vec<usize>, d: usize, v: JsonValue) -> (r: (JsonValue, Result<(), String>))
    requires
        d < segs@.len(),
        indices_bounded(string_views(segs@)),
    ensures
        shaped_result(r) == shaped(cur@, opt_json(shape), string_views(segs@), mark_set(arr@), d as int, v@),
    decreases segs@.len() - d, 1nat,
{
    let ghost sv = string_views(segs@);
    let seg = &segs[d];
    assert(sv[d as int] == seg@);
    if seg.as_str().is_empty() {
        return (cur, Err("configuration path contains an empty segment".to_string()));
    }
    match cur {
        JsonValue::Object(es) => {
            proof {
                lemma_object_view(es);
            }
            shaped_object(es, shape, segs, arr, d, v)
        },
        JsonValue::Array(items) => {
            proof {
                lemma_array_view(items);
            }
            shaped_array(items, shape, segs, arr, d, v)
        },
        other => (other, Err(cat(&cat("path segment ", seg.as_str()), " conflicts with an existing non-container value"))),
    }
}

fn shaped_object(es: Vec<(String, JsonValue)>, shape: Option<&JsonValue>, segs: &Vec<String>, arr: &Vec<usize>, d: usize, v: JsonValue) -> (r: (JsonValue, Result<(), String>))
    requires
        d < segs@.len(),
        segs@[d as int]@.len() > 0,
        indices_bounded(string_views(segs@)),
    ensures
        shaped_result(r) == shaped(Json::Object(entries_view(es@)), opt_json(shape), string_views(segs@), mark_set(arr@), d as int, v@),
    decreases segs@.len() - d, 0nat,
{
    let mut es = es;
    let ghost sv = string_views(segs@);
    let seg = &segs[d];
    assert(sv[d as int] == seg@);
    let segc = chars_of(seg.as_str());
    let ghost ev = entries_view(es@);
    let last = d == segs.len() - 1;
    if last {
        entries_insert(&mut es, copy_string(seg), v);
        proof {
            lemma_object_view(es);
        }
        return (JsonValue::Object(es), Ok(()));
    }
    assert(sv[d + 1] == segs@[d + 1]@);
    let sc: Option<&JsonValue> = match shape {
        Some(JsonValue::Object(ses)) => {
            proof {
                lemma_object_view(*ses);
            }
            entry_lookup(ses, &segc)
        },
        _ => None,
    };
    let na = has_mark(arr, d + 1);
    let fresh = match patch_next_container(sc, na, segs[d + 1].as_str()) {
        Err(m) => {
            let r = JsonValue::Object(es);
            proof {
                lemma_object_view(es);
            }
            return (r, Err(m));
        },
        Ok(f) => f,
    };
    let pos = entry_position(&es, &segc);
    proof {
        lemma_at_position(ev, pos as int, seg@);
    }
    let present = key_at(&es, pos, &segc);
    let (key, child) = if present {
        es.remove(pos)
    } else {
        (copy_string(seg), fresh)
    };
    let ghost cj = child@;
    proof {
        lemma_insert_at(ev, pos as int, seg@, cj);
    }
    match ensure_patch_container(&child, sc, na, seg.as_str()) {
        Err(m) => {
            es.insert(pos, (key, child));
            if present {
                assert(entries_view(es@) =~= ev.update(pos as int, (seg@, cj)));
            } else {
                assert(entries_view(es@) =~= ev.insert(pos as int, (seg@, cj)));
            }
            let r = JsonValue::Object(es);
            proof {
                lemma_object_view(es);
            }
            return (r, Err(m));
        },
        Ok(()) => {},
    }
    let (c2, res) = shaped_into(child, sc, segs, arr, d + 1, v);
    let ghost c2j = c2@;
    proof {
        lemma_insert_at(ev, pos as int, seg@, c2j);
    }
    es.insert(pos, (key, c2));
    if present {
        assert(entries_view(es@) =~= ev.update(pos as int, (seg@, c2j)));
    } else {
        assert(entries_view(es@) =~= ev.insert(pos as int, (seg@, c2j)));
    }
    let r = JsonValue::Object(es);
    proof {
        lemma_object_view(es);
    }
    (r, res)
}

#[verifier::rlimit(30)]
fn shaped_array(items: Vec<JsonValue>, shape: Option<&JsonValue>, segs: &Vec<String>, arr: &Vec<usize>, d: usize, v: JsonValue) -> (r: (JsonValue, Result<(), String>))
    requires
        d < segs@.len(),
        segs@[d as int]@.len() > 0,
        indices_bounded(string_views(segs@)),
    ensures
        shaped_result(r) == shaped(Json::Array(items_view(items@)), opt_json(shape), string_views(segs@), mark_set(arr@), d as int, v@),
    decreases segs@.len() - d, 0nat,
{
    let mut items = items;
    let ghost sv = string_views(segs@);
    let seg = &segs[d];
    assert(sv[d as int] == seg@);
    let segc = chars_of(seg.as_str());
    let ghost iv = items_view(items@);
    let last = d == segs.len() - 1;
    let n = match parse_usize_chars(&segc) {
        Some(n) => n,
        None => {
            let r = JsonValue::Array(items);
            proof {
                lemma_array_view(items);
            }
            return (r, Err(cat(&cat("path segment ", seg.as_str()), " must be an array index at this position")));
        },
    };
    assert(parse_usize(sv[d as int]) == Some(n as nat));
    pad_items(&mut items, n, None);
    let ghost p = items_view(items@);
    assert(p.len() == items@.len());
    assert(padded(iv, n as nat, Json::Null).len() > n);
    if last {
        items.set(n, v);
        assert(items_view(items@) =~= p.update(n as int, v@));
        let r = JsonValue::Array(items);
        proof {
            lemma_array_view(items);
        }
        return (r, Ok(()));
    }
    assert(sv[d + 1] == segs@[d + 1]@);
    let sc: Option<&JsonValue> = match shape {
        Some(JsonValue::Array(sitems)) => {
            proof {
                lemma_array_view(*sitems);
            }
            if n < sitems.len() {
                assert(items_view(sitems@)[n as int] == sitems@[n as int]@);
                Some(&sitems[n])
            } else {
                None
            }
        },
        _ => None,
    };
    let na = has_mark(arr, d + 1);
    assert(p[n as int] == items@[n as int]@);
    let is_null = match &items[n] {
        JsonValue::Null => true,
        _ => false,
    };
    if is_null {
        match patch_next_container(sc, na, segs[d + 1].as_str()) {
            Err(m) => {
                let r = JsonValue::Array(items);
                proof {
                    lemma_array_view(items);
                }
                return (r, Err(m));
            },
            Ok(f) => {
                items.set(n, f);
            },
        }
    }
    let ghost p2 = items_view(items@);
    assert(is_null ==> p2 =~= p.update(n as int, items@[n as int]@));
    assert(!is_null ==> p2 =~= p);
    assert(p2[n as int] == items@[n as int]@);
    let child = items.remove(n);
    assert(items_view(items@) =~= p2.remove(n as int));
    match ensure_patch_container(&child, sc, na, seg.as_str()) {
        Err(m) => {
            items.insert(n, child);
            assert(items_view(items@) =~= p2);
            let r = JsonValue::Array(items);
            proof {
                lemma_array_view(items);
            }
            return (r, Err(m));
        },
        Ok(()) => {},
    }
    let (c2, res) = shaped_into(child, sc, segs, arr, d + 1, v);
    let ghost c2j = c2@;
    items.insert(n, c2);
    assert(items_view(items@) =~= p2.update(n as int, c2j));
    let r = JsonValue::Array(items);
    proof {
        lemma_array_view(items);
    }
    (r, res)
}

/// Writes `value` at the segments from `depth` on, below `current`, guided
/// by `shape`; containers created on the way stay when the write fails.
pub fn insert_path_with_shape(
    current: &mut JsonValue,
    shape: Option<&JsonValue>,
    segments: &Vec<String>,
    array_segments: &Vec<usize>,
    depth: usize,
    value: JsonValue,
) -> (r: Result<(), String>)
    requires
        depth < segments@.len(),
        indices_bounded(string_views(segments@)),
    ensures
        final(current)@ == shaped(old(current)@, opt_json(shape), string_views(segments@), mark_set(array_segments@), depth as int, value@).0,
        match r {
            Ok(()) => shaped(old(current)@, opt_json(shape), string_views(segments@), mark_set(array_segments@), depth as int, value@).1 is Ok,
            Err(m) => shaped(old(current)@, opt_json(shape), string_views(segments@), mark_set(array_segments@), depth as int, value@).1
                == Err::<(), Seq<char>>(m@),
        },
{
    let mut cur = JsonValue::Null;
    std::mem::swap(&mut cur, current);
    let (v, res) = shaped_into(cur, shape, segments, array_segments, depth, value);
    *current = v;
    res
}

/// The least claimed path that `path` repeats or overlaps, if any.
pub open spec fn first_overlap(claimed: Set<Seq<char>>, path: Seq<char>) -> Option<Seq<char>> {
    if exists|k: Seq<char>| claimed.contains(k) && #[trigger] overlap(k, path) {
        Some(choose|k: Seq<char>| claimed.contains(k) && overlap(k, path)
            && forall|k2: Seq<char>| claimed.contains(k2) && #[trigger] overlap(k2, path) ==> !seq_lt(k2, k))
    } else {
        None
    }
}

pub open spec fn patch_claim_message(existing: Seq<char>, path: Seq<char>) -> Seq<char> {
    if existing == path {
        "duplicate patch path `"@ + path + "`"@
    } else {
        "conflicting patch paths `"@ + existing + "` and `"@ + path + "` overlap"@
    }
}

/// Claims `path` for a patch layer, refusing one already claimed or one
/// above or below a claimed path.
pub fn claim_patch_path(layer_name: &str, path: &str, claimed_paths: &mut StrMap<()>) -> (r: Result<(), ConfigError>)
    requires
        old(claimed_paths).wf(),
    ensures
        final(claimed_paths).wf(),
        match first_overlap(set_view(*old(claimed_paths)), path@) {
            None => r is Ok && set_view(*final(claimed_paths)) == set_view(*old(claimed_paths)).insert(path@),
            Some(k) => *final(claimed_paths) == *old(claimed_paths)
                && (r matches Err(ConfigError::InvalidPatch { name: n, path: p, message: m })
                && n@ == layer_name@ && p@ == path@ && m@ == patch_claim_message(k, path@)),
        },
{
    let ghost cv = set_view(*claimed_paths);
    let ghost es = claimed_paths.entries();
    proof {
        StrMap::<()>::lemma_keys_are_entries(*claimed_paths);
    }
    let mut i: usize = 0;
    while i < claimed_paths.len()
        invariant
            i <= es.len(),
            es == claimed_paths.entries(),
            claimed_paths.wf(),
            cv == set_view(*claimed_paths),
            forall|j: int| 0 <= j < i ==> !overlap(#[trigger] es[j].0@, path@),
        decreases es.len() - i,
    {
        let (existing, _u) = claimed_paths.entry_at(i);
        if paths_overlap(existing.as_str(), path) {
            let ghost k = existing@;
            proof {
                StrMap::<()>::lemma_keys_distinct(*claimed_paths, i as int);
                StrMap::<()>::lemma_keys_are_entries(*claimed_paths);
                claimed_paths.lemma_wf_sorted();
                assert(cv.contains(k));
                assert forall|k2: Seq<char>| cv.contains(k2) && #[trigger] overlap(k2, path@) implies !seq_lt(k2, k) by {
                    let j = choose|j: int| 0 <= j < es.len() && #[trigger] es[j].0@ == k2;
                    lemma_lt_irrefl(k2);
                    if j > i as int {
                        assert(seq_lt(es[i as int].0@, es[j].0@));
                        lemma_lt_total(k, k2);
                    }
                }
                let c = first_overlap(cv, path@)->Some_0;
                assert(cv.contains(c) && overlap(c, path@));
                assert(!seq_lt(c, k));
                assert(!seq_lt(k, c));
                lemma_lt_total(c, k);
            }
            let message = if crate::text::str_eq(existing.as_str(), path) {
                cat(&cat("duplicate patch path `", path), "`")
            } else {
                cat(&cat(&cat(&cat("conflicting patch paths `", existing.as_str()), "` and `"), path), "` overlap")
            };
            return Err(ConfigError::InvalidPatch { name: layer_name.to_string(), path: path.to_string(), message });
        }
        i = i + 1;
    }
    proof {
        assert forall|k: Seq<char>| cv.contains(k) implies !#[trigger] overlap(k, path@) by {
            let j = choose|j: int| 0 <= j < es.len() && #[trigger] es[j].0@ == k;
        }
    }
    claimed_paths.insert(path.to_string(), ());
    assert(set_view(*claimed_paths) =~= cv.insert(path@));
    Ok(())
}

/// A segment that the canonical form can hold: clean, and not the index
/// `usize::MAX` (an array cannot grow past it).
pub open spec fn fit_segment(s: Seq<char>) -> bool {
    clean_name(s) && parse_usize(s) != Some(usize::MAX as nat)
}

proof fn lemma_clean_no_dot(s: Seq<char>)
    requires
        clean_name(s),
    ensures
        !s.contains('.'),
{
    if s.contains('.') {
        let j = choose|j: int| 0 <= j < s.len() && s[j] == '.';
        assert(plain_char(s[j]));
    }
}

proof fn lemma_canon_fit(cur: Walk, segs: Seq<Seq<char>>, marks: Set<int>, i: int)
    requires
        0 <= i <= segs.len(),
        forall|j: int| 0 <= j < segs.len() ==> fit_segment(#[trigger] segs[j]),
    ensures
        canon_from(cur, segs, marks, i).0.len() == segs.len() - i,
        forall|j: int| 0 <= j < canon_from(cur, segs, marks, i).0.len() ==> fit_segment(#[trigger] canon_from(cur, segs, marks, i).0[j]),
        forall|x: int| #[trigger] canon_from(cur, segs, marks, i).1.contains(x) ==> i <= x < segs.len(),
    decreases segs.len() - i,
{
    let r = canon_from(cur, segs, marks, i);
    if i < segs.len() {
        let seg = segs[i];
        assert(fit_segment(seg));
        let last = i + 1 == segs.len();
        let next_arr = !last && marks.contains(i + 1);
        let fresh = if next_arr { Walk::Arr } else { Walk::Obj };
        let tail_fit = forall|j: int| 0 <= j < segs.skip(i).len() ==> fit_segment(#[trigger] segs.skip(i)[j]);
        assert(tail_fit) by {
            assert forall|j: int| 0 <= j < segs.skip(i).len() implies fit_segment(#[trigger] segs.skip(i)[j]) by {
                assert(segs.skip(i)[j] == segs[i + j]);
            }
        }
        let nxt: Walk = match cur {
            Walk::Val(Json::Object(es)) => if last {
                Walk::Obj
            } else {
                match entry_get(es, seg) {
                    Some(c) => Walk::Val(c),
                    None => fresh,
                }
            },
            Walk::Val(Json::Array(items)) => match parse_usize(seg) {
                Some(n) => if last {
                    Walk::Arr
                } else if n < items.len() {
                    Walk::Val(items[n as int])
                } else {
                    fresh
                },
                None => Walk::Obj,
            },
            Walk::Obj => if last { Walk::Obj } else { fresh },
            Walk::Arr => if last || next_arr { Walk::Arr } else { Walk::Obj },
            _ => Walk::Obj,
        };
        lemma_canon_fit(nxt, segs, marks, i + 1);
        let sub = canon_from(nxt, segs, marks, i + 1);
        match parse_usize(seg) {
            Some(n) => {
                crate::text::lemma_parse_decimal(n);
                crate::text::lemma_decimal_digits(n);
                assert(fit_segment(decimal(n))) by {
                    assert forall|j: int| 0 <= j < decimal(n).len() implies plain_char(#[trigger] decimal(n)[j]) by {
                        assert(crate::text::is_digit(decimal(n)[j]));
                    }
                }
                assert forall|j: int| 0 <= j < (seq![decimal(n)] + sub.0).len() implies fit_segment(#[trigger] (seq![decimal(n)] + sub.0)[j]) by {
                    if j > 0 {
                        assert((seq![decimal(n)] + sub.0)[j] == sub.0[j - 1]);
                    }
                }
            },
            None => {},
        }
        assert forall|j: int| 0 <= j < (seq![seg] + sub.0).len() implies fit_segment(#[trigger] (seq![seg] + sub.0)[j]) by {
            if j > 0 {
                assert((seq![seg] + sub.0)[j] == sub.0[j - 1]);
            }
        }
    }
}

/// A path joined from fit segments splits back into them, is already
/// normalized, and addresses no array index `usize::MAX` below any path.
proof fn lemma_dotted_fit(c: Seq<Seq<char>>)
    requires
        c.len() >= 1,
        forall|j: int| 0 <= j < c.len() ==> fit_segment(#[trigger] c[j]),
    ensures
        split(crate::text::join(c, seq!['.']), '.') == c,
        normalized(crate::text::join(c, seq!['.'])) == crate::text::join(c, seq!['.']),
        indices_bounded(c),
        forall|k: Seq<char>| #[trigger] child_index(k, crate::text::join(c, seq!['.'])) != Some(usize::MAX as nat),
{
    let p = crate::text::join(c, seq!['.']);
    assert forall|j: int| 0 <= j < c.len() implies !(#[trigger] c[j]).contains('.') by {
        lemma_clean_no_dot(c[j]);
    }
    crate::text::lemma_split_join(c, '.');
    crate::text::lemma_nonempty_all(c);
    assert forall|k: Seq<char>| #[trigger] child_index(k, p) != Some(usize::MAX as nat) by {
        if k.len() == 0 {
            assert(crate::arrays::below(k, p) == Some(p));
        } else if crate::text::starts_with(p, k + seq!['.']) {
            let rest = p.skip(k.len() + 1int);
            assert(p =~= k + seq!['.'] + rest) by {
                assert(p.take(k.len() + 1int) == k + seq!['.']);
            }
            crate::text::lemma_split_concat(k, rest, '.');
            crate::text::lemma_split_nonempty(k, '.');
            crate::text::lemma_split_nonempty(rest, '.');
            let m = split(k, '.').len();
            assert(split(rest, '.')[0] == c[m as int]);
        }
    }
}

/// A trace as plain values: kind, name and location.
pub open spec fn trace_view(t: SourceTrace) -> (SourceKind, Seq<char>, Option<Seq<char>>) {
    (t.kind, t.name@, opt_view(t.location))
}

/// The traces recorded per path.
pub open spec fn traces_view(m: StrMap<SourceTrace>) -> Map<Seq<char>, (SourceKind, Seq<char>, Option<Seq<char>>)> {
    Map::new(|k: Seq<char>| m.get_spec(k) is Some, |k: Seq<char>| trace_view(m.get_spec(k)->Some_0))
}

/// What a patch layer under construction holds.
#[verifier::ext_equal]
pub struct PatchBuilderView {
    pub trace: (SourceKind, Seq<char>, Option<Seq<char>>),
    pub value: Json,
    pub shape: Json,
    pub entries: Map<Seq<char>, (SourceKind, Seq<char>, Option<Seq<char>>)>,
    pub claimed: Set<Seq<char>>,
    pub indexed: Set<Seq<char>>,
    pub base: Map<Seq<char>, nat>,
    pub current: Map<Seq<char>, nat>,
    pub direct: Set<Seq<char>>,
    pub deferred: Option<Seq<(Seq<char>, Json)>>,
}

/// A path whose segments a patch layer can hold: it reads, and no segment
/// is the index `usize::MAX`.
pub open spec fn patch_path_fits(path: Seq<char>) -> bool {
    &&& !index_overflows(path)
    &&& parse_path(path) matches Ok(ps) ==> forall|i: int| 0 <= i < ps.len() ==> parse_usize(#[trigger] ps[i].0) != Some(usize::MAX as nat)
}

/// The positions of a parsed path that were bracketed indices.
pub open spec fn bracket_marks(ps: Seq<(Seq<char>, bool)>) -> Set<int> {
    Set::new(|x: int| 0 <= x < ps.len() && ps[x].1)
}

/// `e` with every dotted prefix of `c` recorded, keeping what was there.
pub open spec fn with_prefixes(
    e: Map<Seq<char>, (SourceKind, Seq<char>, Option<Seq<char>>)>,
    c: Seq<Seq<char>>,
    n: int,
    t: (SourceKind, Seq<char>, Option<Seq<char>>),
) -> Map<Seq<char>, (SourceKind, Seq<char>, Option<Seq<char>>)> {
    Map::new(|k: Seq<char>| e.contains_key(k) || exists|j: int| 1 <= j <= n && k == #[trigger] crate::text::join(c.take(j), seq!['.']),
        |k: Seq<char>| if e.contains_key(k) { e[k] } else { t })
}

/// Recording a write of `v` at the canonical segments `c` (array positions
/// `arr`, path `cp`) once the path is claimed.
pub open spec fn patch_written(st: PatchBuilderView, path: Seq<char>, c: Seq<Seq<char>>, arr: Set<int>, cp: Seq<char>, v: Json)
    -> (PatchBuilderView, Result<(), (Seq<char>, Seq<char>)>)
{
    let conts = patch_containers(c, arr);
    let cur1 = grown_in(st.current, cp, conts);
    let base1 = bases_in(st.base, st.current, cp, conts);
    let cur2 = if v is Array { lengths_into(v, cp, cleared(cur1, cp)) } else { cur1 };
    let base2 = if v is Array { cleared(base1, cp) } else { base1 };
    let claimed2 = st.claimed.insert(cp);
    match st.deferred {
        Some(w) => {
            let sh = shaped(st.shape, Some(st.shape), c, arr, 0, v);
            let st2 = PatchBuilderView { claimed: claimed2, current: cur2, base: base2, shape: sh.0, ..st };
            match sh.1 {
                Err(m) => (st2, Err((cp, m))),
                Ok(()) => (PatchBuilderView { deferred: Some(w.push((path, v))), ..st2 }, Ok(())),
            }
        },
        None => {
            let direct2 = if v is Array { st.direct.insert(cp) } else { st.direct };
            let vr = shaped(st.value, Some(st.shape), c, arr, 0, v);
            let st1 = PatchBuilderView { claimed: claimed2, current: cur2, base: base2, direct: direct2, value: vr.0, ..st };
            match vr.1 {
                Err(m) => (st1, Err((cp, m))),
                Ok(()) => {
                    let sh = shaped(st.shape, Some(st.shape), c, arr, 0, v);
                    let st2 = PatchBuilderView { shape: sh.0, ..st1 };
                    match sh.1 {
                        Err(m) => (st2, Err((cp, m))),
                        Ok(()) => (PatchBuilderView {
                            indexed: st.indexed.union(conts),
                            entries: with_prefixes(st.entries.insert(cp, st.trace), c, c.len() as int, st.trace),
                            ..st2
                        }, Ok(())),
                    }
                },
            }
        },
    }
}

/// Inserting the value `v` at `path` into a patch layer: the layer after
/// the call and, on failure, the path and message that the error reports.
pub open spec fn patch_insert(st: PatchBuilderView, path: Seq<char>, v: Json) -> (PatchBuilderView, Result<(), (Seq<char>, Seq<char>)>) {
    match parse_path(path) {
        Err(e) => (st, Err((path, syntax_message(e)))),
        Ok(ps) => if ps.len() == 0 {
            (st, Err((Seq::empty(), "configuration path cannot be empty"@)))
        } else {
            let cn = canon_from(Walk::Val(st.shape), names(ps), bracket_marks(ps), 0);
            let cp = normalized(crate::text::join(cn.0, seq!['.']));
            match first_overlap(st.claimed, cp) {
                Some(k) => (st, Err((cp, patch_claim_message(k, cp)))),
                None => patch_written(st, path, cn.0, cn.1, cp, v),
            }
        },
    }
}

/// Builds a synthetic layer from sparse typed overrides, one path at a time.
pub struct PatchLayerBuilder {
    trace: SourceTrace,
    value: JsonValue,
    shape: JsonValue,
    entries: StrMap<SourceTrace>,
    claimed_paths: StrMap<()>,
    indexed_array_paths: StrMap<()>,
    indexed_array_base_lengths: StrMap<usize>,
    current_array_lengths: StrMap<usize>,
    direct_array_paths: StrMap<()>,
    deferred_writes: Option<Vec<(String, JsonValue)>>,
}

pub open spec fn writes_view(w: Seq<(String, JsonValue)>) -> Seq<(Seq<char>, Json)> {
    w.map_values(|x: (String, JsonValue)| (x.0@, x.1@))
}

impl View for PatchLayerBuilder {
    type V = PatchBuilderView;

    closed spec fn view(&self) -> PatchBuilderView {
        PatchBuilderView {
            trace: trace_view(self.trace),
            value: self.value@,
            shape: self.shape@,
            entries: traces_view(self.entries),
            claimed: set_view(self.claimed_paths),
            indexed: set_view(self.indexed_array_paths),
            base: lengths_view(self.indexed_array_base_lengths),
            current: lengths_view(self.current_array_lengths),
            direct: set_view(self.direct_array_paths),
            deferred: match self.deferred_writes {
                Some(w) => Some(writes_view(w@)),
                None => None,
            },
        }
    }
}

/// A fresh layer: nothing written, with the given trace and shape.
pub open spec fn fresh_builder(t: (SourceKind, Seq<char>, Option<Seq<char>>), shape: Json, deferred: bool) -> PatchBuilderView {
    PatchBuilderView {
        trace: t,
        value: Json::Object(Seq::empty()),
        shape,
        entries: Map::empty(),
        claimed: Set::empty(),
        indexed: Set::empty(),
        base: Map::empty(),
        current: Map::empty(),
        direct: Set::empty(),
        deferred: if deferred { Some(Seq::empty()) } else { None },
    }
}

impl PatchLayerBuilder {
    /// The builder's maps are ordered, and every deferred write can be
    /// replayed.
    pub closed spec fn wf(&self) -> bool {
        &&& self.entries.wf()
        &&& self.claimed_paths.wf()
        &&& self.indexed_array_paths.wf()
        &&& self.indexed_array_base_lengths.wf()
        &&& self.current_array_lengths.wf()
        &&& self.direct_array_paths.wf()
        &&& self.deferred_writes matches Some(w) ==> forall|i: int| 0 <= i < w@.len() ==> patch_path_fits(#[trigger] w@[i].0@)
    }

    /// A builder for a synthetic patch layer.
    pub fn new(kind: SourceKind, name: &str) -> (r: Self)
        ensures
            r.wf(),
            r@ == fresh_builder((kind, name@, None), Json::Object(Seq::empty()), false),
    {
        Self::from_trace(SourceTrace::new(kind, name))
    }

    /// A builder from an explicit source trace.
    pub fn from_trace(trace: SourceTrace) -> (r: Self)
        ensures
            r.wf(),
            r@ == fresh_builder(trace_view(trace), Json::Object(Seq::empty()), false),
    {
        let shape = empty_container(false);
        Self::from_trace_with_shape(trace, shape)
    }

    /// A builder that only records its writes, to be replayed against a
    /// shape known later.
    pub fn from_trace_deferred(trace: SourceTrace) -> (r: Self)
        ensures
            r.wf(),
            r@ == fresh_builder(trace_view(trace), Json::Object(Seq::empty()), true),
    {
        let r = PatchLayerBuilder {
            trace,
            value: empty_container(false),
            shape: empty_container(false),
            entries: StrMap::new(),
            claimed_paths: StrMap::new(),
            indexed_array_paths: StrMap::new(),
            indexed_array_base_lengths: StrMap::new(),
            current_array_lengths: StrMap::new(),
            direct_array_paths: StrMap::new(),
            deferred_writes: Some(Vec::new()),
        };
        proof {
            lemma_empty_maps(r);
        }
        assert(writes_view(Seq::<(String, JsonValue)>::empty()) =~= Seq::<(Seq<char>, Json)>::empty());
        r
    }

    /// A builder from an explicit source trace and an existing shape.
    pub fn from_trace_with_shape(trace: SourceTrace, shape: JsonValue) -> (r: Self)
        ensures
            r.wf(),
            r@ == fresh_builder(trace_view(trace), shape@, false),
    {
        let r = PatchLayerBuilder {
            trace,
            value: empty_container(false),
            shape,
            entries: StrMap::new(),
            claimed_paths: StrMap::new(),
            indexed_array_paths: StrMap::new(),
            indexed_array_base_lengths: StrMap::new(),
            current_array_lengths: StrMap::new(),
            direct_array_paths: StrMap::new(),
            deferred_writes: None,
        };
        proof {
            lemma_empty_maps(r);
        }
        r
    }
}

proof fn lemma_empty_maps(b: PatchLayerBuilder)
    requires
        b.entries.entries().len() == 0,
        b.claimed_paths.entries().len() == 0,
        b.indexed_array_paths.entries().len() == 0,
        b.indexed_array_base_lengths.entries().len() == 0,
        b.current_array_lengths.entries().len() == 0,
        b.direct_array_paths.entries().len() == 0,
    ensures
        traces_view(b.entries) == Map::<Seq<char>, (SourceKind, Seq<char>, Option<Seq<char>>)>::empty(),
        set_view(b.claimed_paths) == Set::<Seq<char>>::empty(),
        set_view(b.indexed_array_paths) == Set::<Seq<char>>::empty(),
        lengths_view(b.indexed_array_base_lengths) == Map::<Seq<char>, nat>::empty(),
        lengths_view(b.current_array_lengths) == Map::<Seq<char>, nat>::empty(),
        set_view(b.direct_array_paths) == Set::<Seq<char>>::empty(),
{
    assert(traces_view(b.entries) =~= Map::<Seq<char>, (SourceKind, Seq<char>, Option<Seq<char>>)>::empty());
    assert(set_view(b.claimed_paths) =~= Set::<Seq<char>>::empty());
    assert(set_view(b.indexed_array_paths) =~= Set::<Seq<char>>::empty());
    assert(lengths_view(b.indexed_array_base_lengths) =~= Map::<Seq<char>, nat>::empty());
    assert(lengths_view(b.current_array_lengths) =~= Map::<Seq<char>, nat>::empty());
    assert(set_view(b.direct_array_paths) =~= Set::<Seq<char>>::empty());
}

/// The segments joined with `.`.
fn dotted_string(segs: &Vec<String>) -> (r: String)
    ensures
        r@ == crate::text::join(string_views(segs@), seq!['.']),
{
    let mut parts: Vec<Vec<char>> = Vec::new();
    let mut i: usize = 0;
    while i < segs.len()
        invariant
            i <= segs@.len(),
            views(parts@) == string_views(segs@).take(i as int),
        decreases segs@.len() - i,
    {
        let ghost before = views(parts@);
        parts.push(chars_of(segs[i].as_str()));
        assert(views(parts@) =~= before.push(segs@[i as int]@));
        assert(string_views(segs@).take(i + 1) =~= string_views(segs@).take(i as int).push(segs@[i as int]@));
        i = i + 1;
    }
    assert(string_views(segs@).take(segs@.len() as int) =~= string_views(segs@));
    let dot = ['.'];
    assert(dot@ =~= seq!['.']);
    assert(parts@.map_values(|p: Vec<char>| p@) =~= views(parts@));
    string_of(&crate::text::join_chars(&parts, &dot))
}

/// Records `trace` at every dotted prefix of `segs` that has no entry yet.
fn record_prefix_entries(entries: &mut StrMap<SourceTrace>, segs: &Vec<String>, trace: &SourceTrace)
    requires
        old(entries).wf(),
    ensures
        final(entries).wf(),
        traces_view(*final(entries)) == with_prefixes(traces_view(*old(entries)), string_views(segs@), segs@.len() as int, trace_view(*trace)),
{
    let ghost e0 = traces_view(*entries);
    let ghost c = string_views(segs@);
    let ghost t = trace_view(*trace);
    let mut prefix: Vec<char> = Vec::new();
    let mut j: usize = 0;
    assert(with_prefixes(e0, c, 0, t) =~= e0);
    while j < segs.len()
        invariant
            j <= segs@.len(),
            c == string_views(segs@),
            entries.wf(),
            j > 0 ==> prefix@ == crate::text::join(c.take(j as int), seq!['.']),
            j == 0 ==> prefix@.len() == 0,
            t == trace_view(*trace),
            traces_view(*entries) == with_prefixes(e0, c, j as int, t),
        decreases segs@.len() - j,
    {
        let ghost before = prefix@;
        let sc = chars_of(segs[j].as_str());
        assert(c[j as int] == sc@);
        if j > 0 {
            prefix.push('.');
        }
        prefix = crate::text::concat_chars(&prefix, &sc);
        proof {
            let t1 = c.take(j + 1);
            assert(t1.drop_last() =~= c.take(j as int));
            assert(t1.last() == c[j as int]);
            if j == 0 {
                assert(prefix@ =~= sc@);
                assert(t1.len() == 1);
            } else {
                assert(prefix@ =~= before + seq!['.'] + sc@);
            }
        }
        let key = string_of(&prefix);
        let ghost kv = key@;
        let ghost m0 = *entries;
        let ghost w0 = traces_view(*entries);
        let present = entries.get(key.as_str()).is_some();
        if !present {
            let d = trace.duplicate();
            assert(trace_view(d) == t);
            entries.insert(key, d);
            assert forall|k: Seq<char>| #[trigger] traces_view(*entries).contains_key(k) == w0.insert(kv, t).contains_key(k) by {
                if k != kv {
                    assert(entries.get_spec(k) == m0.get_spec(k));
                }
            }
            assert forall|k: Seq<char>| #[trigger] traces_view(*entries).contains_key(k) implies traces_view(*entries)[k] == w0.insert(kv, t)[k] by {
                if k != kv {
                    assert(entries.get_spec(k) == m0.get_spec(k));
                }
            }
            assert(traces_view(*entries) =~= w0.insert(kv, t));
        }
        assert(traces_view(*entries) =~= with_prefixes(e0, c, j + 1, t)) by {
            assert forall|k: Seq<char>| #[trigger] traces_view(*entries).contains_key(k) == with_prefixes(e0, c, j + 1, t).contains_key(k) by {
                if k == kv {
                    assert(1 <= j + 1 <= j + 1 && k == crate::text::join(c.take(j + 1), seq!['.']));
                }
                if exists|i: int| 1 <= i <= j + 1 && k == #[trigger] crate::text::join(c.take(i), seq!['.']) {
                    let i = choose|i: int| 1 <= i <= j + 1 && k == #[trigger] crate::text::join(c.take(i), seq!['.']);
                    if i <= j {
                        assert(with_prefixes(e0, c, j as int, t).contains_key(k));
                    }
                }
            }
            assert forall|k: Seq<char>| #[trigger] traces_view(*entries).contains_key(k) implies traces_view(*entries)[k] == with_prefixes(e0, c, j + 1, t)[k] by {
                if k == kv && !present {
                    if e0.contains_key(k) {
                        assert(w0.contains_key(k));
                    }
                } else {
                    assert(w0.contains_key(k));
                    if !e0.contains_key(k) {
                        assert(with_prefixes(e0, c, j as int, t)[k] == t);
                    }
                }
            }
        }
        j = j + 1;
    }
}

impl PatchLayerBuilder {
    /// Writes a value override at `path`: the path is read (indices in
    /// brackets), spelled as the shape holds it, and claimed; then the
    /// value is written, or only recorded when the builder defers.
    pub fn insert_value(&mut self, path: &str, value: JsonValue) -> (r: Result<(), ConfigError>)
        requires
            old(self).wf(),
            patch_path_fits(path@),
        ensures
            final(self).wf(),
            final(self)@ == patch_insert(old(self)@, path@, value@).0,
            match patch_insert(old(self)@, path@, value@).1 {
                Ok(()) => r is Ok,
                Err((p, m)) => r matches Err(ConfigError::InvalidPatch { name: n, path: p2, message: m2 })
                    && n@ == old(self)@.trace.1 && p2@ == p && m2@ == m,
            },
    {
        let ghost st = self@;
        let (segments, explicit) = match parse_patch_path(path) {
            Err(message) => {
                return Err(ConfigError::InvalidPatch { name: copy_string(&self.trace.name), path: path.to_string(), message });
            },
            Ok(x) => x,
        };
        let ghost ps = parse_path(path@)->Ok_0;
        let nseg = segments.len();
        assert(string_views(segments@).len() == ps.len());
        assert(mark_set(explicit@) =~= bracket_marks(ps)) by {
            assert forall|x: int| #[trigger] mark_set(explicit@).contains(x) == bracket_marks(ps).contains(x) by {
                if mark_set(explicit@).contains(x) {
                    let k = choose|k: int| 0 <= k < explicit@.len() && explicit@[k] as int == x;
                    let u = explicit@[k];
                    assert(u < ps.len());
                    assert(explicit@.contains(u));
                    assert((x as usize) == u);
                    assert(explicit@.contains(x as usize));
                    assert(ps[x].1);
                }
                if bracket_marks(ps).contains(x) {
                    assert(0 <= x < ps.len());
                    assert(x < nseg);
                    assert(ps[x].1);
                    assert(explicit@.contains(x as usize));
                    let k = choose|k: int| 0 <= k < explicit@.len() && explicit@[k] == x as usize;
                    assert(explicit@[k] as int == x);
                }
            }
        }
        if segments.len() == 0 {
            return Err(ConfigError::InvalidPatch {
                name: copy_string(&self.trace.name),
                path: String::new(),
                message: "configuration path cannot be empty".to_string(),
            });
        }
        let ghost segv = names(ps);
        proof {
            crate::syntax::lemma_parsed_names_clean(path@);
            assert forall|j: int| 0 <= j < segv.len() implies fit_segment(#[trigger] segv[j]) by {
                assert(clean_name(ps[j].0));
                assert(parse_usize(ps[j].0) != Some(usize::MAX as nat));
            }
            reveal_strlit("configuration path cannot be empty");
        }
        let (segs, arr) = canonicalize_patch_path(&self.shape, &segments, &explicit);
        let ghost cv = string_views(segs@);
        proof {
            lemma_canon_fit(Walk::Val(st.shape), segv, bracket_marks(ps), 0);
            lemma_dotted_fit(cv);
        }
        let joined = dotted_string(&segs);
        let cp = normalize_path(joined.as_str());
        assert(cp@ == normalized(crate::text::join(cv, seq!['.'])));
        match claim_patch_path(self.trace.name.as_str(), cp.as_str(), &mut self.claimed_paths) {
            Err(e) => {
                return Err(e);
            },
            Ok(()) => {},
        }
        let conts = patch_indexed_array_container_paths(&segs, &arr);
        record_container_lengths(&mut self.current_array_lengths, &mut self.indexed_array_base_lengths, cp.as_str(), &conts);
        let is_array = match &value {
            JsonValue::Array(_) => true,
            _ => false,
        };
        if is_array {
            record_direct_array_state(&mut self.current_array_lengths, &mut self.indexed_array_base_lengths, cp.as_str(), &value);
        }
        let snapshot = clone_value(&self.shape);
        let mut deferred: Option<Vec<(String, JsonValue)>> = None;
        std::mem::swap(&mut deferred, &mut self.deferred_writes);
        match deferred {
            Some(mut writes) => {
                let res = insert_path_with_shape(&mut self.shape, Some(&snapshot), &segs, &arr, 0, clone_value(&value));
                match res {
                    Err(m) => {
                        self.deferred_writes = Some(writes);
                        return Err(ConfigError::InvalidPatch { name: copy_string(&self.trace.name), path: cp, message: m });
                    },
                    Ok(()) => {},
                }
                let ghost w0 = writes@;
                writes.push((path.to_string(), value));
                assert(writes_view(writes@) =~= writes_view(w0).push((path@, value@)));
                self.deferred_writes = Some(writes);
                Ok(())
            },
            None => {
                if is_array {
                    self.direct_array_paths.insert(copy_string(&cp), ());
                }
                match insert_path_with_shape(&mut self.value, Some(&snapshot), &segs, &arr, 0, clone_value(&value)) {
                    Err(m) => {
                        assert(self@ =~= patch_insert(st, path@, value@).0);
                        return Err(ConfigError::InvalidPatch { name: copy_string(&self.trace.name), path: cp, message: m });
                    },
                    Ok(()) => {},
                }
                match insert_path_with_shape(&mut self.shape, Some(&snapshot), &segs, &arr, 0, value) {
                    Err(m) => {
                        return Err(ConfigError::InvalidPatch { name: copy_string(&self.trace.name), path: cp, message: m });
                    },
                    Ok(()) => {},
                }
                union_into(&mut self.indexed_array_paths, &conts);
                self.entries.insert(copy_string(&cp), self.trace.duplicate());
                record_prefix_entries(&mut self.entries, &segs, &self.trace);
                Ok(())
            },
        }
    }
}

/// The layer a builder finishes into.
pub open spec fn layer_of(l: Layer, b: PatchBuilderView) -> bool {
    &&& trace_view(l.trace) == b.trace
    &&& l.value@ == b.value
    &&& l.entries.wf()
    &&& traces_view(l.entries) == b.entries
    &&& l.coercible_string_paths.wf()
    &&& set_view(l.coercible_string_paths) == Set::<Seq<char>>::empty()
    &&& l.indexed_array_paths.wf()
    &&& set_view(l.indexed_array_paths) == b.indexed
    &&& l.indexed_array_base_lengths.wf()
    &&& lengths_view(l.indexed_array_base_lengths) == b.base
    &&& l.direct_array_paths.wf()
    &&& set_view(l.direct_array_paths) == b.direct
}

/// Writes recorded by a deferring builder, to be replayed against a shape.
pub struct DeferredPatchLayer {
    trace: SourceTrace,
    writes: Vec<(String, JsonValue)>,
}

impl DeferredPatchLayer {
    pub closed spec fn trace_spec(&self) -> (SourceKind, Seq<char>, Option<Seq<char>>) {
        trace_view(self.trace)
    }

    pub closed spec fn writes_spec(&self) -> Seq<(Seq<char>, Json)> {
        writes_view(self.writes@)
    }

    /// Every recorded write can be replayed.
    pub closed spec fn wf(&self) -> bool {
        forall|i: int| 0 <= i < self.writes@.len() ==> patch_path_fits(#[trigger] self.writes@[i].0@)
    }
}

/// Replaying the first `n` writes, stopping at the first failure.
pub open spec fn replay(st: PatchBuilderView, writes: Seq<(Seq<char>, Json)>, n: nat) -> (PatchBuilderView, Result<(), (Seq<char>, Seq<char>)>)
    decreases n,
{
    if n == 0 || n > writes.len() {
        (st, Ok(()))
    } else {
        let prev = replay(st, writes, (n - 1) as nat);
        match prev.1 {
            Err(e) => prev,
            Ok(()) => patch_insert(prev.0, writes[n - 1].0, writes[n - 1].1),
        }
    }
}

impl PatchLayerBuilder {
    /// Finalizes the builder into a layer.
    pub fn finish(self) -> (r: Layer)
        requires
            self.wf(),
        ensures
            layer_of(r, self@),
    {
        let coercible: StrMap<()> = StrMap::new();
        assert(set_view(coercible) =~= Set::<Seq<char>>::empty());
        Layer {
            trace: self.trace,
            value: self.value,
            entries: self.entries,
            coercible_string_paths: coercible,
            indexed_array_paths: self.indexed_array_paths,
            indexed_array_base_lengths: self.indexed_array_base_lengths,
            direct_array_paths: self.direct_array_paths,
        }
    }

    /// Hands over the recorded writes of a deferring builder (none for a
    /// builder that does not defer).
    pub fn finish_deferred(self) -> (r: DeferredPatchLayer)
        requires
            self.wf(),
        ensures
            r.wf(),
            r.trace_spec() == self@.trace,
            r.writes_spec() == match self@.deferred {
                Some(w) => w,
                None => Seq::<(Seq<char>, Json)>::empty(),
            },
    {
        let writes = match self.deferred_writes {
            Some(w) => w,
            None => Vec::new(),
        };
        assert(writes_view(Seq::<(String, JsonValue)>::empty()) =~= Seq::<(Seq<char>, Json)>::empty());
        DeferredPatchLayer { trace: self.trace, writes }
    }
}

impl DeferredPatchLayer {
    /// Whether no write was recorded.
    pub fn is_empty(&self) -> (r: bool)
        ensures
            r == (self.writes_spec().len() == 0),
    {
        self.writes.len() == 0
    }

    /// Replays the recorded writes against `shape` into a layer.
    #[verifier::loop_isolation(false)]
    pub fn into_layer_with_shape(self, shape: JsonValue) -> (r: Result<Layer, ConfigError>)
        requires
            self.wf(),
        ensures
            match replay(fresh_builder(self.trace_spec(), shape@, false), self.writes_spec(), self.writes_spec().len()) {
                (b, Ok(())) => r matches Ok(l) && layer_of(l, b),
                (_, Err((p, m))) => r matches Err(ConfigError::InvalidPatch { name: n, path: p2, message: m2 })
                    && n@ == self.trace_spec().1 && p2@ == p && m2@ == m,
            },
    {
        let ghost ws = self.writes_spec();
        let ghost st0 = fresh_builder(self.trace_spec(), shape@, false);
        let DeferredPatchLayer { trace, writes } = self;
        let mut builder = PatchLayerBuilder::from_trace_with_shape(trace, shape);
        let mut writes = writes;
        let ghost all = writes@;
        let count = writes.len();
        let mut i: usize = 0;
        assert(ws == writes_view(all));
        assert(all.skip(0) =~= all);
        while i < count
            invariant
                i <= count,
                count == all.len(),
                writes@ == all.skip(i as int),
                forall|k: int| 0 <= k < all.len() ==> patch_path_fits(#[trigger] all[k].0@),
                ws == writes_view(all),
                builder.wf(),
                replay(st0, ws, i as nat) == (builder@, Ok::<(), (Seq<char>, Seq<char>)>(())),
                builder@.trace == st0.trace,
            decreases all.len() - i,
        {
            let (path, value) = writes.remove(0);
            assert((path, value) == all[i as int]);
            assert(writes@ =~= all.skip(i + 1));
            assert(ws[i as int] == (path@, value@));
            let ghost before = builder@;
            match builder.insert_value(path.as_str(), value) {
                Err(e) => {
                    assert(replay(st0, ws, (i + 1) as nat) == patch_insert(before, ws[i as int].0, ws[i as int].1));
                    assert(patch_insert(before, path@, value@).1 is Err);
                    proof {
                        lemma_replay_stops(st0, ws, (i + 1) as nat);
                    }
                    assert(ws.len() == count);
                    return Err(e);
                },
                Ok(()) => {},
            }
            i = i + 1;
        }
        assert(ws.len() == all.len());
        Ok(builder.finish())
    }
}

/// After a failed write, replaying more writes keeps the failure.
proof fn lemma_replay_stops(st: PatchBuilderView, ws: Seq<(Seq<char>, Json)>, n: nat)
    requires
        n <= ws.len(),
        replay(st, ws, n).1 is Err,
    ensures
        replay(st, ws, ws.len()) == replay(st, ws, n),
    decreases ws.len() - n,
{
    if n < ws.len() {
        lemma_replay_stops(st, ws, n + 1);
    }
}

} // verus!
