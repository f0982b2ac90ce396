//! Layer merging: how an overlay value is folded into the value beneath it.
use vstd::prelude::*;
use crate::text::{string_views, chars_of, str_eq, decimal, decimal_chars, string_of};
use crate::path::{joined, join_path};
use crate::json::{JsonValue, Json, json_of, items_view, entries_view, entry_get, entry_insert, lemma_array_view,
    lemma_object_view, entry_position, key_at, lemma_at_position, lemma_insert_at, clone_value, pad_items, padded,
    lemma_get_inserted, lemma_get_other};
use crate::config::{ConfigMetadata, FieldMetadata, strategy_for};
use crate::metadata::MergeStrategy;
use crate::syntax::index_overflows;

verus! {

/// The strategy in force at `path`, merging when no field says otherwise.
pub open spec fn strategy_at(fs: Seq<FieldMetadata>, path: Seq<char>) -> MergeStrategy {
    match strategy_for(fs, path) {
        Some(s) => s,
        None => MergeStrategy::Merge,
    }
}

/// `overlay` merged into `target` at `path`. An array written index by index
/// is patched in place; a `Replace` path takes the overlay; an `Append` path
/// concatenates arrays; objects merge key by key; anything else is replaced.
pub open spec fn merged(
    fs: Seq<FieldMetadata>,
    target: Json,
    overlay: Json,
    path: Seq<char>,
    indexed: Seq<Seq<char>>,
    direct: Seq<Seq<char>>,
) -> Json
    decreases overlay, 0nat,
{
    let s = strategy_at(fs, path);
    if indexed.contains(path) && !direct.contains(path) && path.len() > 0 && target is Array && overlay is Array {
        Json::Array(patch_items(fs, target->Array_0, overlay->Array_0, overlay->Array_0.len(), path, indexed, direct))
    } else if s == MergeStrategy::Replace && path.len() > 0 {
        overlay
    } else if s == MergeStrategy::Append && target is Array && overlay is Array {
        Json::Array(target->Array_0 + overlay->Array_0)
    } else if target is Object && overlay is Object {
        Json::Object(merge_entries(fs, target->Object_0, overlay->Object_0, overlay->Object_0.len(), path, indexed, direct))
    } else {
        overlay
    }
}

/// The first `n` overlay entries merged into the target entries, in order.
pub open spec fn merge_entries(
    fs: Seq<FieldMetadata>,
    tes: Seq<(Seq<char>, Json)>,
    oes: Seq<(Seq<char>, Json)>,
    n: nat,
    path: Seq<char>,
    indexed: Seq<Seq<char>>,
    direct: Seq<Seq<char>>,
) -> Seq<(Seq<char>, Json)>
    decreases oes, n,
{
    if n == 0 || n > oes.len() {
        tes
    } else {
        let acc = merge_entries(fs, tes, oes, (n - 1) as nat, path, indexed, direct);
        let k = oes[n - 1].0;
        let v = oes[n - 1].1;
        let nv = match entry_get(acc, k) {
            Some(e) => merged(fs, e, v, joined(path, k), indexed, direct),
            None => v,
        };
        entry_insert(acc, k, nv)
    }
}

/// The first `n` overlay items patched into the target items: null items
/// are skipped, the array grows with nulls to reach an index, and a null
/// target item is replaced.
pub open spec fn patch_items(
    fs: Seq<FieldMetadata>,
    titems: Seq<Json>,
    oitems: Seq<Json>,
    n: nat,
    path: Seq<char>,
    indexed: Seq<Seq<char>>,
    direct: Seq<Seq<char>>,
) -> Seq<Json>
    decreases oitems, n,
{
    if n == 0 || n > oitems.len() {
        titems
    } else {
        let acc = patch_items(fs, titems, oitems, (n - 1) as nat, path, indexed, direct);
        let i = (n - 1) as nat;
        let v = oitems[i as int];
        if v is Null {
            acc
        } else {
            let p = padded(acc, i, Json::Null);
            if p[i as int] is Null {
                p.update(i as int, v)
            } else {
                p.update(i as int, merged(fs, p[i as int], v, joined(path, decimal(i)), indexed, direct))
            }
        }
    }
}

/// Every path at which merging looks up a strategy can be read as a
/// metadata path.
pub open spec fn lookups_safe(j: Json, path: Seq<char>) -> bool
    decreases j,
{
    &&& !index_overflows(path)
    &&& match j {
        Json::Object(es) => forall|i: int| 0 <= i < es.len() ==> lookups_safe(#[trigger] es[i].1, joined(path, es[i].0)),
        Json::Array(items) => forall|i: int| 0 <= i < items.len() ==> lookups_safe(#[trigger] items[i], joined(path, decimal(i as nat))),
        _ => true,
    }
}

fn contains_path(v: &Vec<String>, p: &str) -> (r: bool)
    ensures
        r == string_views(v@).contains(p@),
{
    let mut i: usize = 0;
    while i < v.len()
        invariant
            i <= v@.len(),
            forall|j: int| 0 <= j < i ==> string_views(v@)[j] != p@,
        decreases v@.len() - i,
    {
        assert(string_views(v@)[i as int] == v@[i as int]@);
        if str_eq(v[i].as_str(), p) {
            assert(string_views(v@)[i as int] == p@);
            return true;
        }
        i = i + 1;
    }
    false
}

#[verifier::loop_isolation(false)]
fn merge_into(
    target: JsonValue,
    overlay: &JsonValue,
    path: &str,
    metadata: &ConfigMetadata,
    indexed: &Vec<String>,
    direct: &Vec<String>,
) -> (r: JsonValue)
    requires
        lookups_safe(overlay@, path@),
    ensures
        r@ == merged(metadata.fields_spec(), target@, overlay@, path@, string_views(indexed@), string_views(direct@)),
    decreases overlay,
{
    let ghost fs = metadata.fields_spec();
    let ghost iv = string_views(indexed@);
    let ghost dv = string_views(direct@);
    let s = match metadata.merge_strategy_for(path) {
        Some(s) => s,
        None => MergeStrategy::Merge,
    };
    let ipatch = contains_path(indexed, path) && !contains_path(direct, path) && !path.is_empty();
    let replace = s == MergeStrategy::Replace && !path.is_empty();
    let append = s == MergeStrategy::Append;
    match (target, overlay) {
        (JsonValue::Array(mut titems), JsonValue::Array(oitems)) => {
            proof {
                lemma_array_view(titems);
                lemma_array_view(*oitems);
            }
            if ipatch {
                let ghost t0 = items_view(titems@);
                let ghost o0 = items_view(oitems@);
                let mut i: usize = 0;
                while i < oitems.len()
                    invariant
                        i <= oitems@.len(),
                        items_view(titems@) == patch_items(fs, t0, o0, i as nat, path@, iv, dv),
                    decreases oitems@.len() - i,
                {
                    let ghost acc = items_view(titems@);
                    assert(o0[i as int] == oitems@[i as int]@);
                    match &oitems[i] {
                        JsonValue::Null => {},
                        v => {
                            pad_items(&mut titems, i, None);
                            let ghost p = items_view(titems@);
                            assert(p.len() == titems@.len());
                            assert(padded(acc, i as nat, Json::Null).len() > i);
                            assert(p[i as int] == titems@[i as int]@);
                            let child_path = join_path(path, string_of(&decimal_chars(i)).as_str());
                            let old = titems.remove(i);
                            let nv = match old {
                                JsonValue::Null => clone_value(v),
                                other => {
                                    proof {
                                        assert(decreases_to!(*overlay => *oitems));
                                        assert(decreases_to!(*oitems => oitems@));
                                        assert(decreases_to!(oitems@ => oitems@[i as int]));
                                        assert(lookups_safe(o0[i as int], joined(path@, decimal(i as nat))));
                                    }
                                    merge_into(other, v, child_path.as_str(), metadata, indexed, direct)
                                },
                            };
                            let ghost nvv = nv@;
                            titems.insert(i, nv);
                            assert(items_view(titems@) =~= p.update(i as int, nvv));
                        },
                    }
                    i = i + 1;
                }
                let r = JsonValue::Array(titems);
                proof {
                    lemma_array_view(titems);
                }
                return r;
            }
            if replace {
                return clone_value(overlay);
            }
            if append {
                let c = clone_value(overlay);
                match c {
                    JsonValue::Array(mut more) => {
                        proof {
                            lemma_array_view(more);
                        }
                        let ghost a = items_view(titems@);
                        let ghost b = items_view(more@);
                        titems.append(&mut more);
                        assert(items_view(titems@) =~= a + b);
                        let r = JsonValue::Array(titems);
                        proof {
                            lemma_array_view(titems);
                        }
                        return r;
                    },
                    _ => {
                        return clone_value(overlay);
                    },
                }
            }
            clone_value(overlay)
        },
        (JsonValue::Object(mut tes), JsonValue::Object(oes)) => {
            proof {
                lemma_object_view(tes);
                lemma_object_view(*oes);
            }
            if replace {
                return clone_value(overlay);
            }
            let ghost t0 = entries_view(tes@);
            let ghost o0 = entries_view(oes@);
            let mut i: usize = 0;
            while i < oes.len()
                invariant
                    i <= oes@.len(),
                    entries_view(tes@) == merge_entries(fs, t0, o0, i as nat, path@, iv, dv),
                decreases oes@.len() - i,
            {
                let ghost acc = entries_view(tes@);
                assert(o0[i as int] == (oes@[i as int].0@, oes@[i as int].1@));
                let k = &oes[i].0;
                let v = &oes[i].1;
                let kc = chars_of(k.as_str());
                let pos = entry_position(&tes, &kc);
                proof {
                    lemma_at_position(acc, pos as int, k@);
                }
                if key_at(&tes, pos, &kc) {
                    let (key, e) = tes.remove(pos);
                    let child_path = join_path(path, k.as_str());
                    proof {
                        assert(decreases_to!(*overlay => *oes));
                        assert(decreases_to!(*oes => oes@));
                        assert(decreases_to!(oes@ => oes@[i as int]));
                        assert(decreases_to!(oes@[i as int] => oes@[i as int].1));
                        assert(lookups_safe(o0[i as int].1, joined(path@, k@)));
                    }
                    let m = merge_into(e, v, child_path.as_str(), metadata, indexed, direct);
                    let ghost mv = m@;
                    proof {
                        lemma_insert_at(acc, pos as int, k@, mv);
                    }
                    tes.insert(pos, (key, m));
                    assert(entries_view(tes@) =~= acc.update(pos as int, (k@, mv)));
                } else {
                    let c = clone_value(v);
                    let ghost cv = c@;
                    proof {
                        lemma_insert_at(acc, pos as int, k@, cv);
                    }
                    tes.insert(pos, (string_of(&kc), c));
                    assert(entries_view(tes@) =~= acc.insert(pos as int, (k@, cv)));
                }
                i = i + 1;
            }
            let r = JsonValue::Object(tes);
            proof {
                lemma_object_view(tes);
            }
            r
        },
        (t, _) => {
            clone_value(overlay)
        },
    }
}

/// Merges `overlay` into `target`, where `target` sits at `current_path`.
pub fn merge_values(
    target: &mut JsonValue,
    overlay: JsonValue,
    current_path: &str,
    metadata: &ConfigMetadata,
    indexed_array_paths: &Vec<String>,
    direct_array_paths: &Vec<String>,
)
    requires
        lookups_safe(overlay@, current_path@),
    ensures
        final(target)@ == merged(metadata.fields_spec(), old(target)@, overlay@, current_path@,
            string_views(indexed_array_paths@), string_views(direct_array_paths@)),
{
    let mut t = JsonValue::Null;
    std::mem::swap(&mut t, target);
    let r = merge_into(t, &overlay, current_path, metadata, indexed_array_paths, direct_array_paths);
    *target = r;
}

/// A scalar overlay (null, boolean, number or string) replaces whatever it
/// is merged into, whatever the strategy.
pub proof fn law_scalar_overlay_wins(
    fs: Seq<FieldMetadata>,
    target: Json,
    overlay: Json,
    path: Seq<char>,
    indexed: Seq<Seq<char>>,
    direct: Seq<Seq<char>>,
)
    requires
        !(overlay is Object),
        !(overlay is Array),
    ensures
        merged(fs, target, overlay, path, indexed, direct) == overlay,
{
}

/// Merging objects key by key: the result is an object whose keys are the
/// target's and the overlay's (unless the path is replaced wholesale).
pub open spec fn merges_by_key(fs: Seq<FieldMetadata>, path: Seq<char>) -> bool {
    strategy_at(fs, path) != MergeStrategy::Replace || path.len() == 0
}

/// An empty object merged into an object leaves it unchanged.
pub proof fn law_empty_overlay_keeps_target(
    fs: Seq<FieldMetadata>,
    tes: Seq<(Seq<char>, Json)>,
    path: Seq<char>,
    indexed: Seq<Seq<char>>,
    direct: Seq<Seq<char>>,
)
    requires
        merges_by_key(fs, path),
    ensures
        merged(fs, Json::Object(tes), Json::Object(Seq::empty()), path, indexed, direct) == Json::Object(tes),
{
}

proof fn lemma_entries_keep_other(
    fs: Seq<FieldMetadata>,
    tes: Seq<(Seq<char>, Json)>,
    oes: Seq<(Seq<char>, Json)>,
    n: nat,
    path: Seq<char>,
    indexed: Seq<Seq<char>>,
    direct: Seq<Seq<char>>,
    k: Seq<char>,
)
    requires
        n <= oes.len(),
        forall|j: int| 0 <= j < oes.len() ==> (#[trigger] oes[j]).0 != k,
    ensures
        entry_get(merge_entries(fs, tes, oes, n, path, indexed, direct), k) == entry_get(tes, k),
    decreases n,
{
    if n > 0 {
        lemma_entries_keep_other(fs, tes, oes, (n - 1) as nat, path, indexed, direct, k);
        let acc = merge_entries(fs, tes, oes, (n - 1) as nat, path, indexed, direct);
        let nv = match entry_get(acc, oes[n - 1].0) {
            Some(e) => merged(fs, e, oes[n - 1].1, joined(path, oes[n - 1].0), indexed, direct),
            None => oes[n - 1].1,
        };
        lemma_get_other(acc, oes[n - 1].0, nv, k);
    }
}

/// A key that the overlay object does not mention keeps the target's value.
pub proof fn law_unmentioned_key_kept(
    fs: Seq<FieldMetadata>,
    tes: Seq<(Seq<char>, Json)>,
    oes: Seq<(Seq<char>, Json)>,
    path: Seq<char>,
    indexed: Seq<Seq<char>>,
    direct: Seq<Seq<char>>,
    k: Seq<char>,
)
    requires
        merges_by_key(fs, path),
        forall|j: int| 0 <= j < oes.len() ==> (#[trigger] oes[j]).0 != k,
    ensures
        merged(fs, Json::Object(tes), Json::Object(oes), path, indexed, direct) is Object,
        entry_get(merged(fs, Json::Object(tes), Json::Object(oes), path, indexed, direct)->Object_0, k) == entry_get(tes, k),
{
    lemma_entries_keep_other(fs, tes, oes, oes.len(), path, indexed, direct, k);
}

proof fn lemma_entries_scalar_wins(
    fs: Seq<FieldMetadata>,
    tes: Seq<(Seq<char>, Json)>,
    oes: Seq<(Seq<char>, Json)>,
    n: nat,
    path: Seq<char>,
    indexed: Seq<Seq<char>>,
    direct: Seq<Seq<char>>,
    i: int,
)
    requires
        0 <= i < n <= oes.len(),
        !(oes[i].1 is Object),
        !(oes[i].1 is Array),
        forall|j: int| i < j < oes.len() ==> (#[trigger] oes[j]).0 != oes[i].0,
    ensures
        entry_get(merge_entries(fs, tes, oes, n, path, indexed, direct), oes[i].0) == Some(oes[i].1),
    decreases n,
{
    let acc = merge_entries(fs, tes, oes, (n - 1) as nat, path, indexed, direct);
    let k = oes[n - 1].0;
    let nv = match entry_get(acc, k) {
        Some(e) => merged(fs, e, oes[n - 1].1, joined(path, k), indexed, direct),
        None => oes[n - 1].1,
    };
    if n - 1 == i {
        lemma_get_inserted(acc, k, nv);
    } else {
        lemma_entries_scalar_wins(fs, tes, oes, (n - 1) as nat, path, indexed, direct, i);
        lemma_get_other(acc, k, nv, oes[i].0);
    }
}

/// A scalar that the overlay object holds under a key is what the merged
/// object holds there: the later layer wins.
pub proof fn law_overlay_scalar_at_key(
    fs: Seq<FieldMetadata>,
    tes: Seq<(Seq<char>, Json)>,
    oes: Seq<(Seq<char>, Json)>,
    path: Seq<char>,
    indexed: Seq<Seq<char>>,
    direct: Seq<Seq<char>>,
    i: int,
)
    requires
        merges_by_key(fs, path),
        0 <= i < oes.len(),
        !(oes[i].1 is Object),
        !(oes[i].1 is Array),
        forall|j: int| i < j < oes.len() ==> (#[trigger] oes[j]).0 != oes[i].0,
    ensures
        merged(fs, Json::Object(tes), Json::Object(oes), path, indexed, direct) is Object,
        entry_get(merged(fs, Json::Object(tes), Json::Object(oes), path, indexed, direct)->Object_0, oes[i].0)
            == Some(oes[i].1),
{
    lemma_entries_scalar_wins(fs, tes, oes, oes.len(), path, indexed, direct, i);
}

} // verus!
