//! Assembling the merged configuration value from its layers: defaults
//! first, then files, custom layers, environment sources, command-line
//! overrides and typed command-line patches, each checked for sparse array
//! writes against what came before it.
use vstd::prelude::*;
use crate::json::{JsonValue, Json, ensure_root_object, kind_name, clone_value};
use crate::args::Layer;
use crate::config::{ConfigMetadata, FieldMetadata};
use crate::merge::{merged, merge_values, lookups_safe};
use crate::sparse::{validate_indexed_array_paths, layer_maps_wf, indexed_paths, path_fault, sparse_error_is};
use crate::field::{keys_of, key_seq};
use crate::sources::SourceKind;
use crate::strmap::seq_lt;
use crate::error::ConfigError;
use crate::text::string_views;

verus! {

/// The layers in the order they apply: files, custom layers, environment
/// sources, command-line overrides, typed command-line patches.
pub open spec fn ordered_layers(
    files: Seq<Layer>,
    custom: Seq<Layer>,
    env: Seq<Layer>,
    args: Option<Layer>,
    typed_args: Seq<Layer>,
) -> Seq<Layer> {
    files + custom + env + (match args {
        Some(l) => seq![l],
        None => Seq::empty(),
    }) + typed_args
}

/// `base` with the layers merged into it in order (a defaults layer adds
/// nothing: its values are the base).
pub open spec fn applied(base: Json, ls: Seq<Layer>, fs: Seq<FieldMetadata>) -> Json
    decreases ls.len(),
{
    if ls.len() == 0 {
        base
    } else {
        layer_step(applied(base, ls.drop_last(), fs), ls.last(), fs)
    }
}

/// Layers apply in sequence: applying `a` then `b` is applying `a + b`.
pub proof fn law_layers_compose(base: Json, a: Seq<Layer>, b: Seq<Layer>, fs: Seq<FieldMetadata>)
    ensures
        applied(base, a + b, fs) == applied(applied(base, a, fs), b, fs),
    decreases b.len(),
{
    if b.len() == 0 {
        assert(a + b =~= a);
    } else {
        assert((a + b).drop_last() =~= a + b.drop_last());
        assert((a + b).last() == b.last());
        law_layers_compose(base, a, b.drop_last(), fs);
    }
}

/// `acc` with one layer merged into it (a defaults layer adds nothing).
#[verifier::opaque]
pub open spec fn layer_step(acc: Json, l: Layer, fs: Seq<FieldMetadata>) -> Json {
    if l.trace.kind == SourceKind::Default {
        acc
    } else {
        merged(fs, acc, l.value@, Seq::empty(), key_seq(l.indexed_array_paths), key_seq(l.direct_array_paths))
    }
}

/// Merges one layer into `acc`.
fn apply_layer(acc: &mut JsonValue, layer: &Layer, metadata: &ConfigMetadata)
    requires
        layer_ready(*layer),
    ensures
        final(acc)@ == layer_step(old(acc)@, *layer, metadata.fields_spec()),
{
    proof {
        reveal(layer_ready);
        reveal(layer_step);
        reveal_strlit("");
        assert(""@ =~= Seq::<char>::empty());
    }
    let is_default = match layer.trace.kind {
        SourceKind::Default => true,
        _ => false,
    };
    if !is_default {
        let ix = keys_of(&layer.indexed_array_paths);
        let dx = keys_of(&layer.direct_array_paths);
        let v = clone_value(&layer.value);
        assert(string_views(ix@) == key_seq(layer.indexed_array_paths));
        merge_values(acc, v, "", metadata, &ix, &dx);
    }
}

/// The layer's index-by-index arrays have no hole over `base`.
#[verifier::opaque]
pub open spec fn layer_fits(base: Json, l: Layer) -> bool {
    forall|p: Seq<char>| #[trigger] indexed_paths(l).contains(p) ==> path_fault(base, l, p) is None
}

/// `e` reports the first hole (in path order) that the layer leaves over `base`.
#[verifier::opaque]
pub open spec fn layer_refused(e: ConfigError, base: Json, l: Layer) -> bool {
    exists|p: Seq<char>| {
        &&& #[trigger] indexed_paths(l).contains(p)
        &&& path_fault(base, l, p) matches Some((x, g))
        &&& sparse_error_is(e, l.entries, p, x, g)
        &&& forall|q: Seq<char>| indexed_paths(l).contains(q) && seq_lt(q, p) ==> path_fault(base, l, q) is None
    }
}

/// A layer that can be assembled: ordered maps, and values whose paths can
/// be looked up.
#[verifier::opaque]
pub open spec fn layer_ready(l: Layer) -> bool {
    &&& layer_maps_wf(l)
    &&& lookups_safe(l.value@, Seq::empty())
}

/// What applying layers in order to `base` gives: the merged value, or the
/// refusal of the first layer that leaves a hole over the value before it.
#[verifier::opaque]
pub open spec fn layers_outcome(r: Result<JsonValue, ConfigError>, base: Json, ls: Seq<Layer>, fs: Seq<FieldMetadata>) -> bool {
    match r {
        Ok(v) => v@ == applied(base, ls, fs)
            && forall|i: int| 0 <= i < ls.len() ==> layer_fits(applied(base, ls.take(i), fs), #[trigger] ls[i]),
        Err(e) => exists|i: int| 0 <= i < ls.len()
            && (forall|j: int| 0 <= j < i ==> layer_fits(applied(base, ls.take(j), fs), #[trigger] ls[j]))
            && layer_refused(e, applied(base, ls.take(i), fs), #[trigger] ls[i]),
    }
}

proof fn lemma_refused_outcome(e: ConfigError, base: Json, ls: Seq<Layer>, fs: Seq<FieldMetadata>, i: int)
    requires
        0 <= i < ls.len(),
        forall|j: int| 0 <= j < i ==> layer_fits(applied(base, ls.take(j), fs), #[trigger] ls[j]),
        layer_refused(e, applied(base, ls.take(i), fs), ls[i]),
    ensures
        layers_outcome(Err(e), base, ls, fs),
{
    reveal(layers_outcome);
}

proof fn lemma_ok_outcome(v: JsonValue, base: Json, ls: Seq<Layer>, fs: Seq<FieldMetadata>)
    requires
        v@ == applied(base, ls, fs),
        forall|j: int| 0 <= j < ls.len() ==> layer_fits(applied(base, ls.take(j), fs), #[trigger] ls[j]),
    ensures
        layers_outcome(Ok(v), base, ls, fs),
{
    reveal(layers_outcome);
}

/// Applies the layers to `base` in order, checking each first.
#[verifier::rlimit(60)]
fn apply_layers(base: JsonValue, all: &Vec<Layer>, metadata: &ConfigMetadata) -> (r: Result<JsonValue, ConfigError>)
    requires
        forall|k: int| 0 <= k < all@.len() ==> layer_ready(#[trigger] all@[k]),
    ensures
        layers_outcome(r, base@, all@, metadata.fields_spec()),
{
    let ghost ls = all@;
    let ghost fs = metadata.fields_spec();
    let ghost d0 = base@;
    let mut acc = base;
    let mut i: usize = 0;
    assert(ls.take(0) =~= Seq::<Layer>::empty());
    while i < all.len()
        invariant
            i <= ls.len(),
            all@ == ls,
            fs == metadata.fields_spec(),
            d0 == base@,
            forall|k: int| 0 <= k < ls.len() ==> layer_ready(#[trigger] ls[k]),
            acc@ == applied(d0, ls.take(i as int), fs),
            forall|j: int| 0 <= j < i ==> layer_fits(applied(d0, ls.take(j), fs), #[trigger] ls[j]),
        decreases ls.len() - i,
    {
        let layer = &all[i];
        assert(layer_ready(ls[i as int]));
        assert(layer_maps_wf(*layer)) by {
            reveal(layer_ready);
        }
        assert(ls.take(i + 1).drop_last() =~= ls.take(i as int));
        assert(ls.take(i + 1).last() == ls[i as int]);
        match validate_indexed_array_paths(&acc, layer) {
            Err(err) => {
                assert(layer_refused(err, acc@, ls[i as int])) by {
                    reveal(layer_refused);
                }
                proof {
                    lemma_refused_outcome(err, d0, ls, fs, i as int);
                }
                return Err(err);
            },
            Ok(()) => {},
        }
        assert(layer_fits(acc@, ls[i as int])) by {
            reveal(layer_fits);
        }
        apply_layer(&mut acc, layer, metadata);
        i = i + 1;
    }
    assert(ls.take(ls.len() as int) =~= ls);
    proof {
        lemma_ok_outcome(acc, d0, ls, fs);
    }
    Ok(acc)
}

/// Merges the layers into `defaults` in the fixed order: files, custom
/// layers, environment sources, command-line overrides, typed
/// command-line patches. Before a layer is merged, its index-by-index array
/// writes are checked against the value so far; the first layer with a hole
/// stops the assembly.
pub fn assemble_layers(
    defaults: JsonValue,
    files: Vec<Layer>,
    custom: Vec<Layer>,
    env: Vec<Layer>,
    args: Option<Layer>,
    typed_args: Vec<Layer>,
    metadata: &ConfigMetadata,
) -> (r: Result<JsonValue, ConfigError>)
    requires
        forall|i: int| 0 <= i < ordered_layers(files@, custom@, env@, args, typed_args@).len()
            ==> layer_ready(#[trigger] ordered_layers(files@, custom@, env@, args, typed_args@)[i]),
    ensures
        !(defaults@ is Object) ==> (r matches Err(ConfigError::RootMustBeObject { actual }) && actual@ == kind_name(defaults@)),
        defaults@ is Object ==> layers_outcome(r, defaults@, ordered_layers(files@, custom@, env@, args, typed_args@),
            metadata.fields_spec()),
{
    match ensure_root_object(&defaults) {
        Err(e) => {
            return Err(e);
        },
        Ok(()) => {},
    }
    let ghost ls = ordered_layers(files@, custom@, env@, args, typed_args@);
    let mut all = files;
    let mut c = custom;
    all.append(&mut c);
    let mut e = env;
    all.append(&mut e);
    match args {
        Some(a) => {
            all.push(a);
        },
        None => {},
    }
    let mut t = typed_args;
    all.append(&mut t);
    assert(all@ =~= ls);
    apply_layers(defaults, &all, metadata)
}

} // verus!
