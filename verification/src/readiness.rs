//! Whether a layer can be assembled on this machine: its maps are ordered
//! and no path in its value names an array index beyond `usize`.
use vstd::prelude::*;
use crate::json::{JsonValue, Json, lemma_object_view, lemma_array_view, entries_view, items_view};
use crate::merge::lookups_safe;
use crate::syntax::{index_overflows, parse_path_exec, SyntaxError};
use crate::path::{joined, join_path};
use crate::text::{chars_of, string_of, decimal_chars};
use crate::args::Layer;
use crate::assemble::layer_ready;
use crate::sparse::layer_maps_wf;
use crate::strmap::StrMap;

verus! {

proof fn lemma_object_unsafe(es: Seq<(Seq<char>, Json)>, path: Seq<char>, i: int)
    requires
        0 <= i < es.len(),
        !lookups_safe(es[i].1, joined(path, es[i].0)),
    ensures
        !lookups_safe(Json::Object(es), path),
{
    let j = Json::Object(es);
    if lookups_safe(j, path) {
        assert(j->Object_0 == es);
        assert(lookups_safe(j->Object_0[i].1, joined(path, j->Object_0[i].0)));
    }
}

proof fn lemma_array_unsafe(items: Seq<Json>, path: Seq<char>, i: int)
    requires
        0 <= i < items.len(),
        !lookups_safe(items[i], joined(path, crate::text::decimal(i as nat))),
    ensures
        !lookups_safe(Json::Array(items), path),
{
    let j = Json::Array(items);
    if lookups_safe(j, path) {
        assert(j->Array_0 == items);
        assert(lookups_safe(j->Array_0[i], joined(path, crate::text::decimal(i as nat))));
    }
}

/// Whether the path names an array index too large for `usize`.
pub fn index_too_large(path: &str) -> (r: bool)
    ensures
        r == index_overflows(path@),
{
    match parse_path_exec(&chars_of(path)) {
        Err(SyntaxError::IndexTooLarge) => true,
        _ => false,
    }
}

/// Whether every path in `value` below `path` can be read.
#[verifier::loop_isolation(false)]
pub fn lookups_are_safe(value: &JsonValue, path: &str) -> (r: bool)
    ensures
        r == lookups_safe(value@, path@),
    decreases value,
{
    if index_too_large(path) {
        return false;
    }
    match value {
        JsonValue::Object(es) => {
            proof {
                lemma_object_view(*es);
            }
            let ghost ev = entries_view(es@);
            let mut i: usize = 0;
            while i < es.len()
                invariant
                    i <= es@.len(),
                    ev == entries_view(es@),
                    forall|j: int| 0 <= j < i ==> lookups_safe(#[trigger] ev[j].1, joined(path@, ev[j].0)),
                decreases es@.len() - i,
            {
                proof {
                    assert(decreases_to!(*value => *es));
                    assert(decreases_to!(*es => es@));
                    assert(decreases_to!(es@ => es@[i as int]));
                    assert(decreases_to!(es@[i as int] => es@[i as int].1));
                }
                assert(ev[i as int] == (es@[i as int].0@, es@[i as int].1@));
                let next = join_path(path, es[i].0.as_str());
                if !lookups_are_safe(&es[i].1, next.as_str()) {
                    assert(!lookups_safe(ev[i as int].1, joined(path@, ev[i as int].0)));
                    proof {
                        lemma_object_unsafe(ev, path@, i as int);
                    }
                    return false;
                }
                i = i + 1;
            }
            true
        },
        JsonValue::Array(items) => {
            proof {
                lemma_array_view(*items);
            }
            let ghost iv = items_view(items@);
            let mut i: usize = 0;
            while i < items.len()
                invariant
                    i <= items@.len(),
                    iv == items_view(items@),
                    forall|j: int| 0 <= j < i ==> lookups_safe(#[trigger] iv[j], joined(path@, crate::text::decimal(j as nat))),
                decreases items@.len() - i,
            {
                proof {
                    assert(decreases_to!(*value => *items));
                    assert(decreases_to!(*items => items@));
                    assert(decreases_to!(items@ => items@[i as int]));
                }
                assert(iv[i as int] == items@[i as int]@);
                let idx = string_of(&decimal_chars(i));
                let next = join_path(path, idx.as_str());
                if !lookups_are_safe(&items[i], next.as_str()) {
                    assert(!lookups_safe(iv[i as int], joined(path@, crate::text::decimal(i as nat))));
                    proof {
                        lemma_array_unsafe(iv, path@, i as int);
                    }
                    return false;
                }
                i = i + 1;
            }
            true
        },
        _ => true,
    }
}

/// Whether the layer can be assembled: ordered maps and readable paths.
pub fn layer_is_ready(layer: &Layer) -> (r: bool)
    ensures
        r == layer_ready(*layer),
{
    proof {
        reveal(layer_ready);
        reveal_strlit("");
        assert(""@ =~= Seq::<char>::empty());
    }
    layer.entries.is_ordered() && layer.indexed_array_paths.is_ordered()
        && layer.indexed_array_base_lengths.is_ordered() && layer.direct_array_paths.is_ordered()
        && lookups_are_safe(&layer.value, "")
}

} // verus!
