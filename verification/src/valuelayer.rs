//! Layers made from a whole value, as a file or a custom source gives it:
//! every path in the value is recorded with the source's trace.
use vstd::prelude::*;
use crate::json::{JsonValue, Json, ensure_root_object, kind_name, lemma_object_view, lemma_array_view, entries_view, items_view};
use crate::args::{Layer, names_view};
use crate::arrays::{set_view, lengths_view};
use crate::overrides::{ensure_path_safe_keys, first_bad_key, key_error_is};
use crate::sources::{SourceTrace, SourceKind};
use crate::strmap::StrMap;
use crate::error::ConfigError;
use crate::path::{joined, join_path};
use crate::text::{decimal, decimal_chars, string_of, copy_string};

verus! {

/// Every path below `cur` in a value: each object key and each array index,
/// at every depth.
pub open spec fn value_paths(j: Json, cur: Seq<char>) -> Set<Seq<char>>
    decreases j, 0nat,
{
    match j {
        Json::Object(es) => entry_paths(es, cur, es.len()),
        Json::Array(items) => item_paths(items, cur, items.len()),
        _ => Set::empty(),
    }
}

pub open spec fn entry_paths(es: Seq<(Seq<char>, Json)>, cur: Seq<char>, n: nat) -> Set<Seq<char>>
    decreases es, n,
{
    if n == 0 || n > es.len() {
        Set::empty()
    } else {
        entry_paths(es, cur, (n - 1) as nat).insert(joined(cur, es[n - 1].0))
            + value_paths(es[n - 1].1, joined(cur, es[n - 1].0))
    }
}

pub open spec fn item_paths(items: Seq<Json>, cur: Seq<char>, n: nat) -> Set<Seq<char>>
    decreases items, n,
{
    if n == 0 || n > items.len() {
        Set::empty()
    } else {
        item_paths(items, cur, (n - 1) as nat).insert(joined(cur, decimal((n - 1) as nat)))
            + value_paths(items[n - 1], joined(cur, decimal((n - 1) as nat)))
    }
}

/// Every trace carries the given kind and name and no location.
pub open spec fn traced_as(m: StrMap<SourceTrace>, kind: SourceKind, name: Seq<char>) -> bool {
    forall|k: Seq<char>| #[trigger] m.get_spec(k) matches Some(t) ==> t.kind == kind && t.name@ == name && t.location is None
}

/// Records every path below `cur` of `value` with a trace of `kind` named `name`.
#[verifier::loop_isolation(false)]
fn record_paths(value: &JsonValue, cur: &str, kind: SourceKind, name: &str, entries: &mut StrMap<SourceTrace>)
    requires
        old(entries).wf(),
        traced_as(*old(entries), kind, name@),
    ensures
        final(entries).wf(),
        traced_as(*final(entries), kind, name@),
        names_view(*final(entries)).dom() == names_view(*old(entries)).dom() + value_paths(value@, cur@),
    decreases value,
{
    match value {
        JsonValue::Object(es) => {
            proof {
                lemma_object_view(*es);
            }
            let ghost ev = entries_view(es@);
            let ghost start = names_view(*entries).dom();
            let mut i: usize = 0;
            while i < es.len()
                invariant
                    i <= es@.len(),
                    ev == entries_view(es@),
                    *value == JsonValue::Object(*es),
                    entries.wf(),
                    traced_as(*entries, kind, name@),
                    names_view(*entries).dom() == start + entry_paths(ev, cur@, i as nat),
                decreases es@.len() - i,
            {
                proof {
                    assert(decreases_to!(*value => *es));
                    assert(decreases_to!(*es => es@));
                    assert(decreases_to!(es@ => es@[i as int]));
                    assert(decreases_to!(es@[i as int] => es@[i as int].1));
                }
                assert(ev[i as int] == (es@[i as int].0@, es@[i as int].1@));
                let next = join_path(cur, es[i].0.as_str());
                let ghost d0 = names_view(*entries).dom();
                entries.insert(copy_string(&next), SourceTrace::new(kind, name));
                assert(names_view(*entries).dom() =~= d0.insert(next@));
                record_paths(&es[i].1, next.as_str(), kind, name, entries);
                assert(names_view(*entries).dom() =~= start + entry_paths(ev, cur@, (i + 1) as nat));
                i = i + 1;
            }
        },
        JsonValue::Array(items) => {
            proof {
                lemma_array_view(*items);
            }
            let ghost iv = items_view(items@);
            let ghost start = names_view(*entries).dom();
            let mut i: usize = 0;
            while i < items.len()
                invariant
                    i <= items@.len(),
                    iv == items_view(items@),
                    *value == JsonValue::Array(*items),
                    entries.wf(),
                    traced_as(*entries, kind, name@),
                    names_view(*entries).dom() == start + item_paths(iv, cur@, i as nat),
                decreases items@.len() - i,
            {
                proof {
                    assert(decreases_to!(*value => *items));
                    assert(decreases_to!(*items => items@));
                    assert(decreases_to!(items@ => items@[i as int]));
                }
                assert(iv[i as int] == items@[i as int]@);
                let idx = string_of(&decimal_chars(i));
                let next = join_path(cur, idx.as_str());
                let ghost d0 = names_view(*entries).dom();
                entries.insert(copy_string(&next), SourceTrace::new(kind, name));
                assert(names_view(*entries).dom() =~= d0.insert(next@));
                record_paths(&items[i], next.as_str(), kind, name, entries);
                assert(names_view(*entries).dom() =~= start + item_paths(iv, cur@, (i + 1) as nat));
                i = i + 1;
            }
        },
        _ => {
            assert(names_view(*entries).dom() =~= names_view(*entries).dom() + Set::<Seq<char>>::empty());
        },
    }
}

/// A layer holding a whole value from one source, every path in it traced
/// to that source.
pub open spec fn value_layer_is(l: Layer, kind: SourceKind, name: Seq<char>, v: Json) -> bool {
    &&& l.trace.kind == kind
    &&& l.trace.name@ == name
    &&& l.trace.location is None
    &&& l.value@ == v
    &&& names_view(l.entries).dom() == value_paths(v, Seq::empty())
    &&& traced_as(l.entries, kind, name)
    &&& set_view(l.coercible_string_paths) == Set::<Seq<char>>::empty()
    &&& set_view(l.indexed_array_paths) == Set::<Seq<char>>::empty()
    &&& lengths_view(l.indexed_array_base_lengths) == Map::<Seq<char>, nat>::empty()
    &&& set_view(l.direct_array_paths) == Set::<Seq<char>>::empty()
}

/// A layer from a whole value: refused unless the value is an object whose
/// keys can all be path segments.
pub fn layer_from_value(kind: SourceKind, name: &str, value: JsonValue) -> (r: Result<Layer, ConfigError>)
    ensures
        !(value@ is Object) ==> (r matches Err(ConfigError::RootMustBeObject { actual }) && actual@ == kind_name(value@)),
        value@ is Object ==> match first_bad_key(value@, Seq::empty()) {
            Some(bad) => key_error_is(match r { Ok(_) => Ok(()), Err(e) => Err(e) }, Some(bad)),
            None => r matches Ok(l) && value_layer_is(l, kind, name@, value@) && crate::sparse::layer_maps_wf(l),
        },
{
    ensure_root_object(&value)?;
    proof {
        reveal_strlit("");
        assert(""@ =~= Seq::<char>::empty());
    }
    ensure_path_safe_keys(&value, "")?;
    let mut entries: StrMap<SourceTrace> = StrMap::new();
    proof {
        assert forall|k: Seq<char>| #[trigger] entries.get_spec(k) is None by {
            crate::strmap::lemma_lookup_absent(entries.entries(), k);
        }
        assert(names_view(entries).dom() =~= Set::<Seq<char>>::empty());
    }
    record_paths(&value, "", kind, name, &mut entries);
    assert(names_view(entries).dom() =~= value_paths(value@, ""@));
    let coercible: StrMap<()> = StrMap::new();
    let indexed: StrMap<()> = StrMap::new();
    let base: StrMap<usize> = StrMap::new();
    let direct: StrMap<()> = StrMap::new();
    proof {
        assert forall|k: Seq<char>| #[trigger] coercible.get_spec(k) is None by {
            crate::strmap::lemma_lookup_absent(coercible.entries(), k);
        }
        assert forall|k: Seq<char>| #[trigger] base.get_spec(k) is None by {
            crate::strmap::lemma_lookup_absent(base.entries(), k);
        }
        assert(set_view(coercible) =~= Set::<Seq<char>>::empty());
        assert(set_view(indexed) =~= Set::<Seq<char>>::empty());
        assert(set_view(direct) =~= Set::<Seq<char>>::empty());
        assert(lengths_view(base) =~= Map::<Seq<char>, nat>::empty());
    }
    Ok(Layer {
        trace: SourceTrace::new(kind, name),
        value,
        entries,
        coercible_string_paths: coercible,
        indexed_array_paths: indexed,
        indexed_array_base_lengths: base,
        direct_array_paths: direct,
    })
}

} // verus!
