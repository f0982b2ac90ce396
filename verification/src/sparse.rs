//! Index-by-index array overrides may not leave holes: an index past the
//! known length needs every index before it.
use vstd::prelude::*;
use crate::text::{split, string_of, decimal, decimal_chars, chars_of, str_eq, split_chars, copy_string};
use crate::strmap::{StrMap, seq_lt, lemma_lt_irrefl, lemma_lt_trans};
use crate::json::{JsonValue, Json, value_at, get_value_at_path, lemma_array_view};
use crate::path::{joined, join_path};
use crate::arrays::{child_index, direct_child_array_index};
use crate::sources::{SourceKind, SourceTrace, cat};
use crate::args::Layer;
use crate::error::ConfigError;

verus! {

/// The array indices that entries at `entries` address directly below
/// `container`.
pub open spec fn indices_below(container: Seq<char>, entries: Set<Seq<char>>) -> Set<nat> {
    Set::new(|n: nat| exists|e: Seq<char>| entries.contains(e) && #[trigger] child_index(container, e) == Some(n))
}

/// The first index from `b` on that `s` lacks.
pub open spec fn is_gap(s: Set<nat>, b: nat, g: nat) -> bool {
    &&& b <= g
    &&& !s.contains(g)
    &&& forall|x: nat| b <= x < g ==> s.contains(x)
}

/// Where indices from `b` on stop being contiguous: the first index set
/// past the first gap, and the gap (the index it needs first).
pub open spec fn sparse_at(s: Set<nat>, b: nat) -> Option<(nat, nat)> {
    let g = choose|g: nat| is_gap(s, b, g);
    if exists|x: nat| s.contains(x) && x > g {
        Some((choose|x: nat| s.contains(x) && x > g && forall|y: nat| s.contains(y) && y > g ==> x <= y, g))
    } else {
        None
    }
}

/// The paths a map has entries for.
pub open spec fn key_set<V>(m: StrMap<V>) -> Set<Seq<char>> {
    Set::new(|k: Seq<char>| m.get_spec(k) is Some)
}

pub open spec fn sorted_strict(v: Seq<usize>) -> bool {
    forall|a: int, b: int| 0 <= a < b < v.len() ==> v[a] < v[b]
}

pub open spec fn elems(v: Seq<usize>) -> Set<nat> {
    Set::new(|n: nat| exists|k: int| 0 <= k < v.len() && v[k] as nat == n)
}

fn insert_sorted(v: &mut Vec<usize>, x: usize)
    requires
        sorted_strict(old(v)@),
    ensures
        sorted_strict(final(v)@),
        elems(final(v)@) == elems(old(v)@).insert(x as nat),
{
    let ghost v0 = v@;
    let mut i: usize = 0;
    while i < v.len() && v[i] < x
        invariant
            i <= v@.len(),
            v@ == v0,
            sorted_strict(v0),
            forall|k: int| 0 <= k < i ==> v0[k] < x,
        decreases v@.len() - i,
    {
        i = i + 1;
    }
    if i < v.len() && v[i] == x {
        assert(elems(v@) =~= elems(v0).insert(x as nat)) by {
            assert forall|n: nat| #[trigger] elems(v@).contains(n) == elems(v0).insert(x as nat).contains(n) by {
                if n == x as nat {
                    assert(v0[i as int] as nat == n);
                }
            }
        }
        return;
    }
    v.insert(i, x);
    assert(v@ =~= v0.insert(i as int, x));
    assert forall|a: int, b: int| 0 <= a < b < v@.len() implies v@[a] < v@[b] by {
        if b < i {
        } else if a < i && b == i {
        } else if a < i && b > i {
            assert(v@[b] == v0[b - 1]);
            assert(v0[a] < x);
        } else if a == i {
            assert(v@[b] == v0[b - 1]);
            assert(!(v0[b - 1] < x) || b - 1 < i);
            if b - 1 > i as int {
                assert(v0[i as int] < v0[b - 1]);
            }
            assert(v0[i as int] != x);
            assert(!(v0[i as int] < x));
        } else {
            assert(v@[a] == v0[a - 1]);
            assert(v@[b] == v0[b - 1]);
        }
    }
    assert forall|n: nat| #[trigger] elems(v@).contains(n) == elems(v0).insert(x as nat).contains(n) by {
        if elems(v@).contains(n) {
            let k = choose|k: int| 0 <= k < v@.len() && v@[k] as nat == n;
            if k < i {
                assert(v0[k] == v@[k]);
            } else if k > i {
                assert(v0[k - 1] == v@[k]);
            }
        }
        if elems(v0).contains(n) {
            let k = choose|k: int| 0 <= k < v0.len() && v0[k] as nat == n;
            if k < i {
                assert(v@[k] == v0[k]);
            } else {
                assert(v@[k + 1] == v0[k]);
            }
        }
        if n == x as nat {
            assert(v@[i as int] == x);
        }
    }
    assert(elems(v@) =~= elems(v0).insert(x as nat));
}

/// The indices that a layer's entries address directly below `container`,
/// sorted, each once.
fn indices_below_exec(container: &str, entries: &StrMap<SourceTrace>) -> (r: Vec<usize>)
    requires
        entries.wf(),
    ensures
        sorted_strict(r@),
        elems(r@) == indices_below(container@, key_set(*entries)),
{
    let ghost es = entries.entries();
    proof {
        StrMap::<SourceTrace>::lemma_keys_are_entries(*entries);
    }
    let mut out: Vec<usize> = Vec::new();
    let mut i: usize = 0;
    assert(elems(out@) =~= Set::<nat>::empty());
    while i < entries.len()
        invariant
            i <= es.len(),
            es == entries.entries(),
            entries.wf(),
            sorted_strict(out@),
            elems(out@) == Set::new(|n: nat| exists|j: int| 0 <= j < i && #[trigger] child_index(container@, es[j].0@) == Some(n)),
        decreases es.len() - i,
    {
        let (k, _t) = entries.entry_at(i);
        let ghost before = elems(out@);
        match direct_child_array_index(container, k.as_str()) {
            Some(n) => {
                insert_sorted(&mut out, n);
                assert(elems(out@) =~= Set::new(|m: nat| exists|j: int| 0 <= j < i + 1 && #[trigger] child_index(container@, es[j].0@) == Some(m))) by {
                    assert forall|m: nat| #[trigger] elems(out@).contains(m) == (exists|j: int| 0 <= j < i + 1 && #[trigger] child_index(container@, es[j].0@) == Some(m)) by {
                        if m == n as nat {
                            assert(child_index(container@, es[i as int].0@) == Some(m));
                        }
                        if exists|j: int| 0 <= j < i + 1 && #[trigger] child_index(container@, es[j].0@) == Some(m) {
                            let j = choose|j: int| 0 <= j < i + 1 && #[trigger] child_index(container@, es[j].0@) == Some(m);
                            if j < i {
                                assert(before.contains(m));
                            }
                        }
                    }
                }
            },
            None => {
                assert(elems(out@) =~= Set::new(|m: nat| exists|j: int| 0 <= j < i + 1 && #[trigger] child_index(container@, es[j].0@) == Some(m))) by {
                    assert forall|m: nat| #[trigger] elems(out@).contains(m) == (exists|j: int| 0 <= j < i + 1 && #[trigger] child_index(container@, es[j].0@) == Some(m)) by {
                        if exists|j: int| 0 <= j < i + 1 && #[trigger] child_index(container@, es[j].0@) == Some(m) {
                            let j = choose|j: int| 0 <= j < i + 1 && #[trigger] child_index(container@, es[j].0@) == Some(m);
                            if j < i {
                                assert(before.contains(m));
                            }
                        }
                    }
                }
            },
        }
        i = i + 1;
    }
    assert(elems(out@) =~= indices_below(container@, key_set(*entries))) by {
        assert forall|m: nat| #[trigger] elems(out@).contains(m) == indices_below(container@, key_set(*entries)).contains(m) by {
            if elems(out@).contains(m) {
                let j = choose|j: int| 0 <= j < es.len() && #[trigger] child_index(container@, es[j].0@) == Some(m);
                assert(key_set(*entries).contains(es[j].0@));
            }
            if indices_below(container@, key_set(*entries)).contains(m) {
                let e = choose|e: Seq<char>| key_set(*entries).contains(e) && #[trigger] child_index(container@, e) == Some(m);
                let j = choose|j: int| 0 <= j < es.len() && #[trigger] es[j].0@ == e;
                assert(child_index(container@, es[j].0@) == Some(m));
            }
        }
    }
    out
}

proof fn lemma_gap_unique(s: Set<nat>, b: nat, g: nat)
    requires
        is_gap(s, b, g),
    ensures
        (choose|h: nat| is_gap(s, b, h)) == g,
{
    let h = choose|h: nat| is_gap(s, b, h);
    assert(is_gap(s, b, h));
    if h < g {
        assert(s.contains(h));
    }
    if g < h {
        assert(s.contains(g));
    }
}

/// What `first_hole` has seen: below `p` every index is under `b`, and the
/// `k` indices from `p` on are `b`, `b + 1`, ...
pub open spec fn run_from(v: Seq<usize>, b: nat, p: int, k: int) -> bool {
    &&& 0 <= p
    &&& 0 <= k
    &&& p + k <= v.len()
    &&& sorted_strict(v)
    &&& forall|j: int| 0 <= j < p ==> v[j] < b
    &&& forall|j: int| p <= j < p + k ==> v[j] == b + (j - p)
}

proof fn lemma_run_covers(v: Seq<usize>, b: nat, p: int, k: int)
    requires
        run_from(v, b, p, k),
    ensures
        forall|y: nat| b <= y < b + k ==> elems(v).contains(y),
{
    assert forall|y: nat| b <= y < b + k implies elems(v).contains(y) by {
        let j = p + (y - b);
        assert(v[j] == y);
    }
}

proof fn lemma_hole_found(v: Seq<usize>, b: nat, p: int, k: int)
    requires
        run_from(v, b, p, k),
        p + k < v.len(),
        v[p + k] != b + k,
        v[p + k] >= b + k,
    ensures
        sparse_at(elems(v), b) == Some((v[p + k] as nat, (b + k) as nat)),
{
    let s = elems(v);
    let g = (b + k) as nat;
    let x = v[p + k];
    lemma_run_covers(v, b, p, k);
    assert(!s.contains(g)) by {
        if s.contains(g) {
            let j = choose|j: int| 0 <= j < v.len() && v[j] as nat == g;
            if j < p {
            } else if j < p + k {
                assert(v[j] == b + (j - p));
            } else if j > p + k {
                assert(v[p + k] < v[j]);
            }
        }
    }
    assert(is_gap(s, b, g));
    lemma_gap_unique(s, b, g);
    assert(s.contains(x as nat)) by {
        assert(v[p + k] as nat == x as nat);
    }
    assert forall|y: nat| s.contains(y) && y > g implies x <= y by {
        let j = choose|j: int| 0 <= j < v.len() && v[j] as nat == y;
        if j < p {
        } else if j < p + k {
            assert(v[j] == b + (j - p));
        } else if j > p + k {
            assert(v[p + k] < v[j]);
        }
    }
    let c = choose|c: nat| s.contains(c) && c > g && forall|y: nat| s.contains(y) && y > g ==> c <= y;
    assert(s.contains(x as nat) && x > g && forall|y: nat| s.contains(y) && y > g ==> x <= y);
    assert(c <= x && x <= c);
}

proof fn lemma_no_hole(v: Seq<usize>, b: nat, p: int, k: int)
    requires
        run_from(v, b, p, k),
        p + k == v.len(),
    ensures
        sparse_at(elems(v), b) is None,
{
    let s = elems(v);
    let g = (b + k) as nat;
    lemma_run_covers(v, b, p, k);
    assert(!s.contains(g)) by {
        if s.contains(g) {
            let j = choose|j: int| 0 <= j < v.len() && v[j] as nat == g;
            if j >= p {
                assert(v[j] == b + (j - p));
            }
        }
    }
    assert(is_gap(s, b, g));
    lemma_gap_unique(s, b, g);
    assert(!exists|y: nat| s.contains(y) && y > g) by {
        if exists|y: nat| s.contains(y) && y > g {
            let y = choose|y: nat| s.contains(y) && y > g;
            let j = choose|j: int| 0 <= j < v.len() && v[j] as nat == y;
            if j >= p {
                assert(v[j] == b + (j - p));
            }
        }
    }
}

/// Whether the indices in `v` (sorted, each once) run on from `b` without
/// a hole: the first index past the first hole, and the hole.
fn first_hole(v: &Vec<usize>, b: usize) -> (r: Option<(usize, usize)>)
    requires
        sorted_strict(v@),
    ensures
        match r {
            Some((x, g)) => sparse_at(elems(v@), b as nat) == Some((x as nat, g as nat)),
            None => sparse_at(elems(v@), b as nat) is None,
        },
{
    let n = v.len();
    let mut p: usize = 0;
    while p < n && v[p] < b
        invariant
            n == v@.len(),
            p <= n,
            forall|j: int| 0 <= j < p ==> v@[j] < b,
        decreases n - p,
    {
        p = p + 1;
    }
    let mut k: usize = 0;
    while k < n - p
        invariant
            n == v@.len(),
            p <= n,
            k <= n - p,
            run_from(v@, b as nat, p as int, k as int),
            p < n ==> v@[p as int] >= b,
        decreases n - p - k,
    {
        let x = v[p + k];
        if k > 0 {
            assert(v@[p + k - 1] == b + (k - 1));
            assert(v@[p + k - 1] < v@[p + k]);
        }
        assert(x >= b + k);
        if x != b + k {
            proof {
                lemma_hole_found(v@, b as nat, p as int, k as int);
            }
            return Some((x, b + k));
        }
        k = k + 1;
    }
    proof {
        lemma_no_hole(v@, b as nat, p as int, k as int);
    }
    None
}

/// A trace that names a whole layer of arguments or environment variables
/// rather than one of its entries.
pub open spec fn generic_trace(t: SourceTrace) -> bool {
    ||| t.kind == SourceKind::Arguments && t.name@ == "arguments"@
    ||| t.kind == SourceKind::Environment && t.name@ == "environment"@
}

/// Whether `trace` names a whole layer rather than one of its entries.
pub fn is_generic_layer_trace(trace: &SourceTrace) -> (r: bool)
    ensures
        r == generic_trace(*trace),
{
    match trace.kind {
        SourceKind::Arguments => str_eq(trace.name.as_str(), "arguments"),
        SourceKind::Environment => str_eq(trace.name.as_str(), "environment"),
        _ => false,
    }
}

/// The length of a path in bytes of UTF-8, as `str::len` reports it.
pub open spec fn path_bytes(k: Seq<char>) -> usize {
    vstd::utf8::encode_utf8(k).len() as usize
}

/// How strongly an entry stands for an index: a specific trace first, then
/// more segments, then a longer path.
pub open spec fn rank(k: Seq<char>, t: SourceTrace) -> (bool, nat, usize) {
    (!generic_trace(t), split(k, '.').len(), path_bytes(k))
}

/// The lexicographic order of ranks.
pub open spec fn rank_lt(a: (bool, nat, usize), b: (bool, nat, usize)) -> bool {
    ||| !a.0 && b.0
    ||| a.0 == b.0 && a.1 < b.1
    ||| a.0 == b.0 && a.1 == b.1 && a.2 < b.2
}

/// Entry `a` is chosen over entry `b`: it ranks higher, or it ranks the same
/// and comes later in key order (the last of the greatest is kept).
pub open spec fn picked_over(a: Seq<char>, ta: SourceTrace, b: Seq<char>, tb: SourceTrace) -> bool {
    ||| rank_lt(rank(b, tb), rank(a, ta))
    ||| rank(a, ta) == rank(b, tb) && seq_lt(b, a)
}

/// An entry of `m` that lies in index `o` of the array at `c`.
pub open spec fn candidate(m: StrMap<SourceTrace>, c: Seq<char>, o: nat, k: Seq<char>) -> bool {
    m.get_spec(k) is Some && child_index(c, k) == Some(o)
}

/// The candidate chosen over every other.
pub open spec fn is_pick(m: StrMap<SourceTrace>, c: Seq<char>, o: nat, k: Seq<char>) -> bool {
    &&& candidate(m, c, o, k)
    &&& forall|k2: Seq<char>| #[trigger] candidate(m, c, o, k2) && k2 != k
            ==> picked_over(k, m.get_spec(k)->Some_0, k2, m.get_spec(k2)->Some_0)
}

/// The trace that a sparse index is blamed on: the chosen entry in that
/// index, else the entry at the index's own path.
pub open spec fn sparse_source(m: StrMap<SourceTrace>, c: Seq<char>, o: nat) -> Option<SourceTrace> {
    if exists|k: Seq<char>| is_pick(m, c, o, k) {
        m.get_spec(choose|k: Seq<char>| is_pick(m, c, o, k))
    } else {
        m.get_spec(joined(c, decimal(o)))
    }
}

pub open spec fn sparse_message(c: Seq<char>, o: nat, x: nat) -> Seq<char> {
    "sparse array override at `"@ + c + "`: index "@ + decimal(o) + " requires index "@ + decimal(x)
        + " to be set first"@
}

/// The error for index `o` of the array at `c` set before index `x`.
pub open spec fn sparse_error_is(e: ConfigError, m: StrMap<SourceTrace>, c: Seq<char>, o: nat, x: nat) -> bool {
    let p = joined(c, decimal(o));
    let msg = sparse_message(c, o, x);
    match sparse_source(m, c, o) {
        Some(t) => if t.kind == SourceKind::Environment {
            e matches ConfigError::InvalidEnv { name, path, message } && name@ == t.name@ && path@ == p && message@ == msg
        } else if t.kind == SourceKind::Arguments {
            e matches ConfigError::InvalidArg { arg, message } && arg@ == t.name@ && message@ == msg
        } else {
            e matches ConfigError::MetadataInvalid { path, message } && path@ == p && message@ == msg
        },
        None => e matches ConfigError::MetadataInvalid { path, message } && path@ == p && message@ == msg,
    }
}

proof fn lemma_pick_unique(m: StrMap<SourceTrace>, c: Seq<char>, o: nat, k1: Seq<char>, k2: Seq<char>)
    requires
        is_pick(m, c, o, k1),
        is_pick(m, c, o, k2),
    ensures
        k1 == k2,
{
    if k1 != k2 {
        assert(candidate(m, c, o, k2));
        assert(candidate(m, c, o, k1));
        lemma_lt_irrefl(k1);
        if seq_lt(k1, k2) && seq_lt(k2, k1) {
            lemma_lt_trans(k1, k2, k1);
        }
    }
}

/// The best of the candidates among the first `i` entries, by position.
pub open spec fn best_upto(es: Seq<(String, SourceTrace)>, c: Seq<char>, o: nat, i: int, best: Option<usize>) -> bool {
    match best {
        Some(j) => j < i && child_index(c, es[j as int].0@) == Some(o)
            && forall|j2: int| 0 <= j2 < i && j2 != j && #[trigger] child_index(c, es[j2].0@) == Some(o)
                ==> picked_over(es[j as int].0@, es[j as int].1, es[j2].0@, es[j2].1),
        None => forall|j2: int| 0 <= j2 < i ==> #[trigger] child_index(c, es[j2].0@) != Some(o),
    }
}

fn entry_rank(k: &String, t: &SourceTrace) -> (r: (bool, usize, usize))
    ensures
        r.0 == rank(k@, *t).0,
        r.1 == rank(k@, *t).1,
        r.2 == rank(k@, *t).2,
{
    let segs = split_chars(&chars_of(k.as_str()), '.');
    (!is_generic_layer_trace(t), segs.len(), k.as_str().len())
}

/// The error for a sparse index: `offending_index` of the array at
/// `container_path` is set while `expected_index` is not, blamed on the
/// entry that stands for it best.
pub fn sparse_indexed_array_error(
    layer: &Layer,
    container_path: &str,
    offending_index: usize,
    expected_index: usize,
) -> (r: ConfigError)
    requires
        layer.entries.wf(),
    ensures
        sparse_error_is(r, layer.entries, container_path@, offending_index as nat, expected_index as nat),
{
    let m = &layer.entries;
    let ghost es = m.entries();
    let ghost c = container_path@;
    let ghost o = offending_index as nat;
    proof {
        m.lemma_wf_sorted();
    }
    let n = m.len();
    let mut best: Option<usize> = None;
    let mut best_rank: (bool, usize, usize) = (false, 0, 0);
    let mut i: usize = 0;
    while i < n
        invariant
            n == es.len(),
            es == m.entries(),
            c == container_path@,
            o == offending_index as nat,
            m == &layer.entries,
            i <= n,
            crate::strmap::sorted_keys(es),
            best_upto(es, c, o, i as int, best),
            best matches Some(j) ==> best_rank.0 == rank(es[j as int].0@, es[j as int].1).0
                && best_rank.1 == rank(es[j as int].0@, es[j as int].1).1
                && best_rank.2 == rank(es[j as int].0@, es[j as int].1).2,
        decreases n - i,
    {
        let (k, t) = m.entry_at(i);
        let ks = k.as_str();
        assert(ks@ == es[i as int].0@);
        let ci = direct_child_array_index(container_path, ks);
        let here = match ci {
            Some(x) => x == offending_index,
            None => false,
        };
        assert(here == (child_index(c, es[i as int].0@) == Some(o)));
        if here {
            let rk = entry_rank(k, t);
            let take = match best {
                None => true,
                Some(_) => !((!rk.0 && best_rank.0) || (rk.0 == best_rank.0 && rk.1 < best_rank.1)
                    || (rk.0 == best_rank.0 && rk.1 == best_rank.1 && rk.2 < best_rank.2)),
            };
            if take {
                proof {
                    assert forall|j2: int| 0 <= j2 < i + 1 && j2 != i && #[trigger] child_index(c, es[j2].0@) == Some(o)
                        implies picked_over(es[i as int].0@, es[i as int].1, es[j2].0@, es[j2].1) by {
                        assert(seq_lt(es[j2].0@, es[i as int].0@));
                    }
                }
                best = Some(i);
                best_rank = rk;
            } else {
                proof {
                    let j = best->Some_0;
                    assert forall|j2: int| 0 <= j2 < i + 1 && j2 != j && #[trigger] child_index(c, es[j2].0@) == Some(o)
                        implies picked_over(es[j as int].0@, es[j as int].1, es[j2].0@, es[j2].1) by {
                    }
                }
            }
        } else {
            proof {
                match best {
                    Some(j) => {
                        assert forall|j2: int| 0 <= j2 < i + 1 && j2 != j && #[trigger] child_index(c, es[j2].0@) == Some(o)
                            implies picked_over(es[j as int].0@, es[j as int].1, es[j2].0@, es[j2].1) by {
                        }
                    },
                    None => {
                        assert forall|j2: int| 0 <= j2 < i + 1 implies #[trigger] child_index(c, es[j2].0@) != Some(o) by {
                        }
                    },
                }
            }
        }
        i = i + 1;
    }
    let offending_path = join_path(container_path, string_of(&decimal_chars(offending_index)).as_str());
    let source: Option<&SourceTrace> = match best {
        Some(j) => {
            let (_k, t) = m.entry_at(j);
            proof {
                let k = es[j as int].0@;
                StrMap::<SourceTrace>::lemma_keys_are_entries(*m);
                m.lemma_entry(j as int);
                assert forall|k2: Seq<char>| #[trigger] candidate(*m, c, o, k2) && k2 != k
                    implies picked_over(k, m.get_spec(k)->Some_0, k2, m.get_spec(k2)->Some_0) by {
                    let j2 = choose|j2: int| 0 <= j2 < es.len() && #[trigger] es[j2].0@ == k2;
                    m.lemma_entry(j2);
                    assert(child_index(c, es[j2].0@) == Some(o));
                }
                assert(is_pick(*m, c, o, k));
                lemma_pick_unique(*m, c, o, k, choose|k1: Seq<char>| is_pick(*m, c, o, k1));
            }
            Some(t)
        },
        None => {
            proof {
                StrMap::<SourceTrace>::lemma_keys_are_entries(*m);
                assert(!exists|k: Seq<char>| is_pick(*m, c, o, k)) by {
                    if exists|k: Seq<char>| is_pick(*m, c, o, k) {
                        let k = choose|k: Seq<char>| is_pick(*m, c, o, k);
                        let j2 = choose|j2: int| 0 <= j2 < es.len() && #[trigger] es[j2].0@ == k;
                        assert(child_index(c, es[j2].0@) != Some(o));
                    }
                }
            }
            m.get(offending_path.as_str())
        },
    };
    let message = cat(&cat(&cat(&cat(&cat(&cat("sparse array override at `", container_path), "`: index "),
        string_of(&decimal_chars(offending_index)).as_str()), " requires index "),
        string_of(&decimal_chars(expected_index)).as_str()), " to be set first");
    match source {
        Some(trace) => match trace.kind {
            SourceKind::Environment => ConfigError::InvalidEnv { name: copy_string(&trace.name), path: offending_path, message },
            SourceKind::Arguments => ConfigError::InvalidArg { arg: copy_string(&trace.name), message },
            _ => ConfigError::MetadataInvalid { path: offending_path, message },
        },
        None => ConfigError::MetadataInvalid { path: offending_path, message },
    }
}

/// The length an indexed array had before this layer: the recorded one,
/// none for an array the layer writes whole, else the length in `base`.
pub open spec fn base_length(base: Json, layer: Layer, path: Seq<char>) -> Option<nat> {
    match layer.indexed_array_base_lengths.get_spec(path) {
        Some(n) => Some(n as nat),
        None => if layer.direct_array_paths.get_spec(path) is Some {
            None
        } else {
            match value_at(base, path) {
                Some(Json::Array(items)) => Some(items.len()),
                _ => Some(0),
            }
        },
    }
}

/// The hole that the layer's indices leave in the array at `path`: the
/// first index set past it, and the index it needs first.
pub open spec fn path_fault(base: Json, layer: Layer, path: Seq<char>) -> Option<(nat, nat)> {
    match base_length(base, layer, path) {
        Some(b) => sparse_at(indices_below(path, key_set(layer.entries)), b),
        None => None,
    }
}

/// The array paths that the layer writes index by index.
pub open spec fn indexed_paths(layer: Layer) -> Set<Seq<char>> {
    Set::new(|k: Seq<char>| layer.indexed_array_paths.get_spec(k) is Some)
}

/// The maps of a layer are ordered.
pub open spec fn layer_maps_wf(layer: Layer) -> bool {
    &&& layer.entries.wf()
    &&& layer.indexed_array_paths.wf()
    &&& layer.indexed_array_base_lengths.wf()
    &&& layer.direct_array_paths.wf()
}

/// The hole in the array at `path`, if the layer leaves one.
fn indexed_path_fault(base: &JsonValue, layer: &Layer, path: &str) -> (r: Option<(usize, usize)>)
    requires
        layer_maps_wf(*layer),
    ensures
        match r {
            Some((x, g)) => path_fault(base@, *layer, path@) == Some((x as nat, g as nat)),
            None => path_fault(base@, *layer, path@) is None,
        },
{
    let base_len: usize = match layer.indexed_array_base_lengths.get(path) {
        Some(b) => *b,
        None => match layer.direct_array_paths.get(path) {
            Some(_) => {
                return None;
            },
            None => match get_value_at_path(base, path) {
                Some(JsonValue::Array(items)) => {
                    proof {
                        lemma_array_view(*items);
                    }
                    items.len()
                },
                _ => 0,
            },
        },
    };
    assert(base_length(base@, *layer, path@) == Some(base_len as nat));
    let explicit = indices_below_exec(path, &layer.entries);
    first_hole(&explicit, base_len)
}

/// Checks that every array the layer writes index by index grows without
/// holes from the length it had in `base`. The arrays are checked in path
/// order and the first hole is reported.
pub fn validate_indexed_array_paths(base: &JsonValue, layer: &Layer) -> (r: Result<(), ConfigError>)
    requires
        layer_maps_wf(*layer),
    ensures
        match r {
            Ok(()) => forall|p: Seq<char>| #[trigger] indexed_paths(*layer).contains(p)
                ==> path_fault(base@, *layer, p) is None,
            Err(e) => exists|p: Seq<char>| {
                &&& #[trigger] indexed_paths(*layer).contains(p)
                &&& path_fault(base@, *layer, p) matches Some((x, g))
                &&& sparse_error_is(e, layer.entries, p, x, g)
                &&& forall|q: Seq<char>| indexed_paths(*layer).contains(q) && seq_lt(q, p)
                    ==> path_fault(base@, *layer, q) is None
            },
        },
{
    let paths = &layer.indexed_array_paths;
    let ghost es = paths.entries();
    proof {
        paths.lemma_wf_sorted();
        StrMap::<()>::lemma_keys_are_entries(*paths);
    }
    let n = paths.len();
    let mut i: usize = 0;
    while i < n
        invariant
            n == es.len(),
            es == paths.entries(),
            paths == &layer.indexed_array_paths,
            layer_maps_wf(*layer),
            crate::strmap::sorted_keys(es),
            i <= n,
            forall|j: int| 0 <= j < i ==> path_fault(base@, *layer, #[trigger] es[j].0@) is None,
        decreases n - i,
    {
        let (path, _u) = paths.entry_at(i);
        let ps = path.as_str();
        if let Some((x, g)) = indexed_path_fault(base, layer, ps) {
            let e = sparse_indexed_array_error(layer, ps, x, g);
            proof {
                let p = es[i as int].0@;
                paths.lemma_entry(i as int);
                StrMap::<()>::lemma_keys_are_entries(*paths);
                assert(indexed_paths(*layer).contains(p));
                assert forall|q: Seq<char>| indexed_paths(*layer).contains(q) && seq_lt(q, p)
                    implies path_fault(base@, *layer, q) is None by {
                    let j = choose|j: int| 0 <= j < es.len() && #[trigger] es[j].0@ == q;
                    lemma_lt_irrefl(q);
                    if j >= i {
                        if j > i {
                            assert(seq_lt(es[i as int].0@, es[j].0@)) by {
                                assert(crate::strmap::sorted_keys(es));
                                assert(0 <= i < j < es.len());
                            }
                            lemma_lt_trans(q, p, q);
                        }
                    }
                }
            }
            return Err(e);
        }
        i = i + 1;
    }
    proof {
        assert forall|p: Seq<char>| #[trigger] indexed_paths(*layer).contains(p)
            implies path_fault(base@, *layer, p) is None by {
            let j = choose|j: int| 0 <= j < es.len() && #[trigger] es[j].0@ == p;
        }
    }
    Ok(())
}

} // verus!
