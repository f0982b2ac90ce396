//! Bookkeeping of arrays that overrides write index by index: which paths
//! hold such arrays, how long they were, and how long they have become.
use vstd::prelude::*;
use crate::text::{split, join, views, string_views, chars_of, string_of, parse_usize, parse_usize_chars,
    starts_with, starts_with_chars, slice_chars, concat_chars, split_chars, join_chars, decimal, decimal_chars};
use crate::strmap::{StrMap, under};
use crate::path::{joined, join_path};
use crate::json::{JsonValue, Json, json_of, items_view, entries_view, lemma_array_view, lemma_object_view};

verus! {

/// What follows `container.` in `entry` (all of `entry` for the root).
pub open spec fn below(container: Seq<char>, entry: Seq<char>) -> Option<Seq<char>> {
    if container.len() == 0 {
        Some(entry)
    } else if starts_with(entry, container + seq!['.']) {
        Some(entry.skip(container.len() + 1int))
    } else {
        None
    }
}

/// The array index that `entry` addresses directly below `container`.
pub open spec fn child_index(container: Seq<char>, entry: Seq<char>) -> Option<nat> {
    match below(container, entry) {
        Some(rest) => parse_usize(split(rest, '.')[0]),
        None => None,
    }
}

/// The index of the direct child of `container` that `entry_path` lies in,
/// when that child is an array index.
pub fn direct_child_array_index(container_path: &str, entry_path: &str) -> (r: Option<usize>)
    ensures
        match r {
            Some(i) => child_index(container_path@, entry_path@) == Some(i as nat),
            None => child_index(container_path@, entry_path@) is None,
        },
{
    let c = chars_of(container_path);
    let e = chars_of(entry_path);
    let rest = if c.len() == 0 {
        slice_chars(&e, 0, e.len())
    } else {
        let mut prefix = slice_chars(&c, 0, c.len());
        prefix.push('.');
        assert(c@.subrange(0, c@.len() as int) =~= c@);
        assert(prefix@ =~= c@ + seq!['.']);
        assert(prefix@.len() == c@.len() + 1);
        if !starts_with_chars(&e, &prefix) {
            return None;
        }
        let plen = prefix.len();
        slice_chars(&e, plen, e.len())
    };
    assert(e@.subrange(0, e@.len() as int) =~= e@);
    assert(c@.len() > 0 ==> e@.subrange(c@.len() + 1int, e@.len() as int) =~= e@.skip(c@.len() + 1int));
    let parts = split_chars(&rest, '.');
    proof {
        crate::text::lemma_split_nonempty(rest@, '.');
    }
    parse_usize_chars(&parts[0])
}

/// The containers of the index segments of `segs`: the path before each
/// segment (other than the first) that is an array index.
pub open spec fn container_paths(segs: Seq<Seq<char>>) -> Set<Seq<char>> {
    Set::new(|p: Seq<char>| exists|i: int| 1 <= i < segs.len() && parse_usize(#[trigger] segs[i]) is Some
        && p == join(segs.take(i), seq!['.']))
}

/// The containers of the index segments among the first `n` segments.
pub open spec fn containers_upto(segs: Seq<Seq<char>>, n: int) -> Set<Seq<char>>
    decreases n,
{
    if n <= 1 {
        Set::empty()
    } else {
        let prev = containers_upto(segs, n - 1);
        if parse_usize(segs[n - 1]) is Some {
            prev.insert(join(segs.take(n - 1), seq!['.']))
        } else {
            prev
        }
    }
}

proof fn lemma_containers_upto(segs: Seq<Seq<char>>, n: int)
    requires
        0 <= n <= segs.len(),
    ensures
        forall|p: Seq<char>| #[trigger] containers_upto(segs, n).contains(p) <==> exists|i: int| 1 <= i < n && parse_usize(#[trigger] segs[i]) is Some
            && p == join(segs.take(i), seq!['.']),
    decreases n,
{
    if n > 1 {
        lemma_containers_upto(segs, n - 1);
        assert forall|p: Seq<char>| #[trigger] containers_upto(segs, n).contains(p) <==> exists|i: int| 1 <= i < n && parse_usize(#[trigger] segs[i]) is Some
            && p == join(segs.take(i), seq!['.']) by {
            if containers_upto(segs, n).contains(p) && !containers_upto(segs, n - 1).contains(p) {
                assert(1 <= n - 1 < n && parse_usize(segs[n - 1]) is Some && p == join(segs.take(n - 1), seq!['.']));
            }
            if exists|i: int| 1 <= i < n && parse_usize(#[trigger] segs[i]) is Some && p == join(segs.take(i), seq!['.']) {
                let i = choose|i: int| 1 <= i < n && parse_usize(#[trigger] segs[i]) is Some && p == join(segs.take(i), seq!['.']);
                if i < n - 1 {
                    assert(containers_upto(segs, n - 1).contains(p));
                }
            }
        }
    }
}

/// The keys of a set kept as an ordered map.
pub open spec fn set_view(m: StrMap<()>) -> Set<Seq<char>> {
    Set::new(|k: Seq<char>| m.get_spec(k) is Some)
}

/// The contents of an ordered map of lengths.
pub open spec fn lengths_view(m: StrMap<usize>) -> Map<Seq<char>, nat> {
    Map::new(|k: Seq<char>| m.get_spec(k) is Some, |k: Seq<char>| m.get_spec(k)->Some_0 as nat)
}

/// The paths of the arrays that the index segments of a path lie in.
pub fn indexed_array_container_paths(segments: &Vec<String>) -> (r: StrMap<()>)
    ensures
        r.wf(),
        set_view(r) == container_paths(string_views(segments@)),
{
    let ghost sv = string_views(segments@);
    let mut segs: Vec<Vec<char>> = Vec::new();
    let mut k: usize = 0;
    while k < segments.len()
        invariant
            k <= segments@.len(),
            sv == string_views(segments@),
            views(segs@) == sv.take(k as int),
        decreases segments@.len() - k,
    {
        let ghost before = segs@;
        segs.push(chars_of(segments[k].as_str()));
        assert(views(segs@) =~= views(before).push(segments@[k as int]@));
        assert(sv.take(k + 1) =~= sv.take(k as int).push(sv[k as int]));
        k = k + 1;
    }
    assert(sv.take(segments@.len() as int) =~= sv);
    let mut paths: StrMap<()> = StrMap::new();
    let dot = ['.'];
    assert(dot@ =~= seq!['.']);
    let mut prefix: Vec<Vec<char>> = Vec::new();
    if segs.len() > 0 {
        prefix.push(slice_chars(&segs[0], 0, segs[0].len()));
        assert(segs@[0]@.subrange(0, segs@[0]@.len() as int) =~= segs@[0]@);
        assert(views(prefix@) =~= sv.take(1));
    }
    let mut i: usize = 1;
    assert(set_view(paths) =~= Set::<Seq<char>>::empty());
    while i < segs.len()
        invariant
            1 <= i,
            i <= segs@.len() || i == 1,
            views(segs@) == sv,
            sv.len() == segs@.len(),
            dot@ == seq!['.'],
            segs@.len() > 0 ==> views(prefix@) == sv.take(i as int),
            paths.wf(),
            set_view(paths) == containers_upto(sv, i as int),
        decreases segs@.len() - i,
    {
        let ghost before = set_view(paths);
        let is_index = parse_usize_chars(&segs[i]).is_some();
        assert(sv[i as int] == segs@[i as int]@);
        if is_index {
            let j = join_chars(&prefix, &dot);
            assert(prefix@.map_values(|p: Vec<char>| p@) =~= views(prefix@));
            paths.insert(string_of(&j), ());
        }
        assert(set_view(paths) =~= containers_upto(sv, i + 1));
        let ghost pv = views(prefix@);
        prefix.push(slice_chars(&segs[i], 0, segs[i].len()));
        assert(segs@[i as int]@.subrange(0, segs@[i as int]@.len() as int) =~= segs@[i as int]@);
        assert(views(prefix@) =~= pv.push(sv[i as int]));
        assert(sv.take(i + 1) =~= sv.take(i as int).push(sv[i as int]));
        i = i + 1;
    }
    proof {
        if segs@.len() > 0 {
            assert(i == sv.len());
            lemma_containers_upto(sv, sv.len() as int);
        } else {
            assert(containers_upto(sv, i as int) =~= Set::<Seq<char>>::empty());
        }
    }
    assert(set_view(paths) =~= container_paths(sv));
    paths
}

/// A length grown to cover an index written below it.
pub open spec fn grown_at(len: nat, index: Option<nat>) -> nat {
    match index {
        Some(n) => if n >= len { n + 1 } else { len },
        None => len,
    }
}

/// Index writes below known arrays: each container of an index segment of
/// `segs` that has a known current length remembers that length as its base
/// (once), and grows to cover the index written.
/// The current lengths after an index write at `path`, for the arrays at
/// the paths in `containers`.
pub open spec fn grown_in(current: Map<Seq<char>, nat>, path: Seq<char>, containers: Set<Seq<char>>) -> Map<Seq<char>, nat> {
    Map::new(|k: Seq<char>| current.contains_key(k), |k: Seq<char>|
        if containers.contains(k) { grown_at(current[k], child_index(k, path)) } else { current[k] })
}

/// The base lengths after an index write at `path`: each array in
/// `containers` that the write addresses keeps its first known length.
pub open spec fn bases_in(base: Map<Seq<char>, nat>, current: Map<Seq<char>, nat>, path: Seq<char>, containers: Set<Seq<char>>) -> Map<Seq<char>, nat> {
    Map::new(|k: Seq<char>| base.contains_key(k) || (containers.contains(k) && current.contains_key(k) && child_index(k, path) is Some),
        |k: Seq<char>| if base.contains_key(k) { base[k] } else { current[k] })
}

pub open spec fn grown_lengths(current: Map<Seq<char>, nat>, path: Seq<char>, segs: Seq<Seq<char>>) -> Map<Seq<char>, nat> {
    grown_in(current, path, container_paths(segs))
}

pub open spec fn recorded_bases(base: Map<Seq<char>, nat>, current: Map<Seq<char>, nat>, path: Seq<char>, segs: Seq<Seq<char>>) -> Map<Seq<char>, nat> {
    bases_in(base, current, path, container_paths(segs))
}

/// Among the first `i` keys of `m`.
pub open spec fn seen(m: StrMap<()>, i: int, k: Seq<char>) -> bool {
    exists|j: int| 0 <= j < i && #[trigger] m.entries()[j].0@ == k
}

pub open spec fn lengths_after(cur0: Map<Seq<char>, nat>, m: StrMap<()>, i: int, path: Seq<char>) -> Map<Seq<char>, nat> {
    Map::new(|k: Seq<char>| cur0.contains_key(k), |k: Seq<char>|
        if seen(m, i, k) { grown_at(cur0[k], child_index(k, path)) } else { cur0[k] })
}

pub open spec fn bases_after(base0: Map<Seq<char>, nat>, cur0: Map<Seq<char>, nat>, m: StrMap<()>, i: int, path: Seq<char>) -> Map<Seq<char>, nat> {
    Map::new(|k: Seq<char>| base0.contains_key(k) || (seen(m, i, k) && cur0.contains_key(k) && child_index(k, path) is Some),
        |k: Seq<char>| if base0.contains_key(k) { base0[k] } else { cur0[k] })
}

proof fn lemma_seen_step(m: StrMap<()>, i: int)
    requires
        m.wf(),
        0 <= i < m.entries().len(),
    ensures
        forall|k: Seq<char>| #[trigger] seen(m, i + 1, k) == (seen(m, i, k) || k == m.entries()[i].0@),
        !seen(m, i, m.entries()[i].0@),
{
    StrMap::<()>::lemma_keys_distinct(m, i);
    assert forall|k: Seq<char>| #[trigger] seen(m, i + 1, k) == (seen(m, i, k) || k == m.entries()[i].0@) by {
        if seen(m, i + 1, k) {
            let j = choose|j: int| 0 <= j < i + 1 && #[trigger] m.entries()[j].0@ == k;
            if j < i {
                assert(seen(m, i, k));
            }
        }
        if k == m.entries()[i].0@ {
            assert(m.entries()[i].0@ == k);
        }
    }
}

proof fn lemma_lengths_insert(before: StrMap<usize>, after: StrMap<usize>, k: Seq<char>, v: usize)
    requires
        after.get_spec(k) == Some(v),
        forall|x: Seq<char>| x != k ==> #[trigger] after.get_spec(x) == before.get_spec(x),
    ensures
        lengths_view(after) == lengths_view(before).insert(k, v as nat),
{
    assert(lengths_view(after) =~= lengths_view(before).insert(k, v as nat));
}

/// Records an index write at `path` against the lengths of the arrays it
/// lies in.
pub fn record_indexed_array_state(
    current_array_lengths: &mut StrMap<usize>,
    indexed_array_base_lengths: &mut StrMap<usize>,
    path: &str,
    segments: &Vec<String>,
)
    requires
        old(current_array_lengths).wf(),
        old(indexed_array_base_lengths).wf(),
        forall|k: Seq<char>| #[trigger] child_index(k, path@) != Some(usize::MAX as nat),
    ensures
        final(current_array_lengths).wf(),
        final(indexed_array_base_lengths).wf(),
        lengths_view(*final(current_array_lengths)) == grown_lengths(lengths_view(*old(current_array_lengths)), path@, string_views(segments@)),
        lengths_view(*final(indexed_array_base_lengths)) == recorded_bases(lengths_view(*old(indexed_array_base_lengths)),
            lengths_view(*old(current_array_lengths)), path@, string_views(segments@)),
{
    let containers = indexed_array_container_paths(segments);
    record_container_lengths(current_array_lengths, indexed_array_base_lengths, path, &containers);
}

/// Records an index write at `path` against the lengths of the arrays at
/// the paths in `containers`.
pub fn record_container_lengths(
    current_array_lengths: &mut StrMap<usize>,
    indexed_array_base_lengths: &mut StrMap<usize>,
    path: &str,
    containers: &StrMap<()>,
)
    requires
        old(current_array_lengths).wf(),
        old(indexed_array_base_lengths).wf(),
        containers.wf(),
        forall|k: Seq<char>| #[trigger] child_index(k, path@) != Some(usize::MAX as nat),
    ensures
        final(current_array_lengths).wf(),
        final(indexed_array_base_lengths).wf(),
        lengths_view(*final(current_array_lengths)) == grown_in(lengths_view(*old(current_array_lengths)), path@, set_view(*containers)),
        lengths_view(*final(indexed_array_base_lengths)) == bases_in(lengths_view(*old(indexed_array_base_lengths)),
            lengths_view(*old(current_array_lengths)), path@, set_view(*containers)),
{
    let ghost cur0 = lengths_view(*current_array_lengths);
    let ghost base0 = lengths_view(*indexed_array_base_lengths);
    let ghost cs = set_view(*containers);
    let mut i: usize = 0;
    assert(lengths_view(*current_array_lengths) =~= lengths_after(cur0, *containers, 0, path@));
    assert(lengths_view(*indexed_array_base_lengths) =~= bases_after(base0, cur0, *containers, 0, path@));
    while i < containers.len()
        invariant
            i <= containers.entries().len(),
            containers.wf(),
            set_view(*containers) == cs,
            current_array_lengths.wf(),
            indexed_array_base_lengths.wf(),
            forall|k: Seq<char>| #[trigger] child_index(k, path@) != Some(usize::MAX as nat),
            lengths_view(*current_array_lengths) == lengths_after(cur0, *containers, i as int, path@),
            lengths_view(*indexed_array_base_lengths) == bases_after(base0, cur0, *containers, i as int, path@),
        decreases containers.entries().len() - i,
    {
        let (c, _u) = containers.entry_at(i);
        let ghost ck = c@;
        proof {
            lemma_seen_step(*containers, i as int);
        }
        let ghost ci = child_index(ck, path@);
        let ghost cur_i = lengths_view(*current_array_lengths);
        let ghost base_i = lengths_view(*indexed_array_base_lengths);
        let ghost cur_next = lengths_after(cur0, *containers, i + 1, path@);
        let ghost base_next = bases_after(base0, cur0, *containers, i + 1, path@);
        match direct_child_array_index(c.as_str(), path) {
            None => {
                assert(cur_next =~= cur_i);
                assert(base_next =~= base_i);
            },
            Some(index) => {
                assert(ci == Some(index as nat));
                match current_array_lengths.get(c.as_str()) {
                    None => {
                        assert(!lengths_view(*current_array_lengths).contains_key(ck));
                        assert(!cur_i.contains_key(ck));
                        assert(!cur0.contains_key(ck));
                        assert(cur_next =~= cur_i);
                        assert(base_next =~= base_i);
                    },
                    Some(len) => {
                        let n = *len;
                        assert(cur_i.contains_key(ck) && cur_i[ck] == n);
                        assert(cur0.contains_key(ck) && cur0[ck] == n);
                        let has_base = indexed_array_base_lengths.get(c.as_str()).is_some();
                        if !has_base {
                            assert(!base_i.contains_key(ck));
                            assert(!base0.contains_key(ck));
                            assert(base_next.contains_key(ck) && base_next[ck] == n);
                            let ghost bb = *indexed_array_base_lengths;
                            indexed_array_base_lengths.insert(copy_key(c), n);
                            proof {
                                lemma_lengths_insert(bb, *indexed_array_base_lengths, ck, n);
                            }
                            assert(base_next =~= base_i.insert(ck, n as nat));
                        } else {
                            assert(base_next =~= base_i);
                        }
                        if index >= n {
                            let ghost cb = *current_array_lengths;
                            current_array_lengths.insert(copy_key(c), index + 1);
                            proof {
                                lemma_lengths_insert(cb, *current_array_lengths, ck, (index + 1) as usize);
                            }
                            assert(cur_next =~= cur_i.insert(ck, (index + 1) as nat));
                        } else {
                            assert(cur_next =~= cur_i);
                        }
                    },
                }
            },
        }
        i = i + 1;
    }
    proof {
        StrMap::<()>::lemma_keys_are_entries(*containers);
        assert forall|k: Seq<char>| #[trigger] seen(*containers, i as int, k) == cs.contains(k) by {
            assert(set_view(*containers).contains(k) == (containers.get_spec(k) is Some));
        }
    }
    assert(lengths_view(*current_array_lengths) =~= grown_in(cur0, path@, cs));
    assert(lengths_view(*indexed_array_base_lengths) =~= bases_in(base0, cur0, path@, cs));
}

/// The lengths of every array in `j` (at `path`), recorded into `m` in
/// traversal order.
pub open spec fn lengths_into(j: Json, path: Seq<char>, m: Map<Seq<char>, nat>) -> Map<Seq<char>, nat>
    decreases j, 0nat,
{
    match j {
        Json::Array(items) => items_lengths(items, path, items.len(), m.insert(path, items.len())),
        Json::Object(es) => entries_lengths(es, path, es.len(), m),
        _ => m,
    }
}

pub open spec fn items_lengths(items: Seq<Json>, path: Seq<char>, n: nat, m: Map<Seq<char>, nat>) -> Map<Seq<char>, nat>
    decreases items, n,
{
    if n == 0 || n > items.len() {
        m
    } else {
        lengths_into(items[n - 1], joined(path, decimal((n - 1) as nat)), items_lengths(items, path, (n - 1) as nat, m))
    }
}

pub open spec fn entries_lengths(es: Seq<(Seq<char>, Json)>, path: Seq<char>, n: nat, m: Map<Seq<char>, nat>) -> Map<Seq<char>, nat>
    decreases es, n,
{
    if n == 0 || n > es.len() {
        m
    } else {
        lengths_into(es[n - 1].1, joined(path, es[n - 1].0), entries_lengths(es, path, (n - 1) as nat, m))
    }
}

/// Records the length of every array inside `value`, which sits at `path`.
#[verifier::loop_isolation(false)]
pub fn collect_array_lengths(value: &JsonValue, path: &str, lengths: &mut StrMap<usize>)
    requires
        old(lengths).wf(),
    ensures
        final(lengths).wf(),
        lengths_view(*final(lengths)) == lengths_into(value@, path@, lengths_view(*old(lengths))),
    decreases value,
{
    match value {
        JsonValue::Array(items) => {
            proof {
                lemma_array_view(*items);
            }
            let ghost m0 = lengths_view(*lengths);
            let ghost bl = *lengths;
            lengths.insert(string_of(&chars_of(path)), items.len());
            proof {
                lemma_lengths_insert(bl, *lengths, path@, items.len());
            }
            let ghost m1 = lengths_view(*lengths);
            let ghost iv = items_view(items@);
            let mut i: usize = 0;
            while i < items.len()
                invariant
                    i <= items@.len(),
                    lengths.wf(),
                    lengths_view(*lengths) == items_lengths(iv, path@, i as nat, m1),
                decreases items@.len() - i,
            {
                proof {
                    assert(decreases_to!(*value => *items));
                    assert(decreases_to!(*items => items@));
                    assert(decreases_to!(items@ => items@[i as int]));
                }
                let child = join_path(path, string_of(&decimal_chars(i)).as_str());
                collect_array_lengths(&items[i], child.as_str(), lengths);
                i = i + 1;
            }
        },
        JsonValue::Object(es) => {
            proof {
                lemma_object_view(*es);
            }
            let ghost m0 = lengths_view(*lengths);
            let ghost ev = entries_view(es@);
            let mut i: usize = 0;
            while i < es.len()
                invariant
                    i <= es@.len(),
                    lengths.wf(),
                    lengths_view(*lengths) == entries_lengths(ev, path@, i as nat, m0),
                decreases es@.len() - i,
            {
                proof {
                    assert(decreases_to!(*value => *es));
                    assert(decreases_to!(*es => es@));
                    assert(decreases_to!(es@ => es@[i as int]));
                    assert(decreases_to!(es@[i as int] => es@[i as int].1));
                }
                let child = join_path(path, es[i].0.as_str());
                collect_array_lengths(&es[i].1, child.as_str(), lengths);
                i = i + 1;
            }
        },
        _ => {},
    }
}

/// `m` without `path` and the paths below it.
pub open spec fn cleared(m: Map<Seq<char>, nat>, path: Seq<char>) -> Map<Seq<char>, nat> {
    Map::new(|k: Seq<char>| m.contains_key(k) && !under(k, path), |k: Seq<char>| m[k])
}

/// A whole array (or a value holding arrays) written at `path` resets what
/// was known below it: base lengths are forgotten and current lengths are
/// read from the new value.
pub fn record_direct_array_state(
    current_array_lengths: &mut StrMap<usize>,
    indexed_array_base_lengths: &mut StrMap<usize>,
    path: &str,
    value: &JsonValue,
)
    requires
        old(current_array_lengths).wf(),
        old(indexed_array_base_lengths).wf(),
    ensures
        final(current_array_lengths).wf(),
        final(indexed_array_base_lengths).wf(),
        lengths_view(*final(current_array_lengths)) == lengths_into(value@, path@, cleared(lengths_view(*old(current_array_lengths)), path@)),
        lengths_view(*final(indexed_array_base_lengths)) == cleared(lengths_view(*old(indexed_array_base_lengths)), path@),
{
    let ghost c0 = lengths_view(*current_array_lengths);
    let ghost b0 = lengths_view(*indexed_array_base_lengths);
    let p = chars_of(path);
    current_array_lengths.remove_under(&p);
    indexed_array_base_lengths.remove_under(&p);
    assert(lengths_view(*current_array_lengths) =~= cleared(c0, path@));
    assert(lengths_view(*indexed_array_base_lengths) =~= cleared(b0, path@));
    collect_array_lengths(value, path, current_array_lengths);
}

fn copy_key(s: &String) -> (r: String)
    ensures
        r@ == s@,
{
    crate::text::copy_string(s)
}

} // verus!
