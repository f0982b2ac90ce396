//! Wildcard paths in cross-field checks: the values they reach, the
//! segments their wildcards bind, and paths rewritten with those bindings.
use vstd::prelude::*;
use crate::text::{join, views, string_views, chars_of, string_of, chars_eq, slice_chars, join_chars, parse_usize,
    parse_usize_chars, decimal, decimal_chars};
use crate::path::{segments, star, path_segments, joined, join_path, normalized, normalize_path};
use crate::json::{JsonValue, Json, json_of, items_view, entries_view, entry_get, entry_lookup, lemma_array_view,
    lemma_object_view, clone_value};

verus! {

/// The segments the wildcards of `pattern` bind in `path`, when `path` is
/// an instance of `pattern`.
pub open spec fn bindings_of(pattern: Seq<char>, path: Seq<char>) -> Option<Seq<Seq<char>>> {
    let p = segments(pattern);
    let a = segments(path);
    if p.len() != a.len() || exists|i: int| 0 <= i < p.len() && #[trigger] p[i] != star() && p[i] != a[i] {
        None
    } else {
        Some(wild_values(p, a, p.len() as int))
    }
}

/// The segments of `a` at the wildcard positions among the first `n` of `p`.
pub open spec fn wild_values(p: Seq<Seq<char>>, a: Seq<Seq<char>>, n: int) -> Seq<Seq<char>>
    decreases n,
{
    if n <= 0 {
        Seq::empty()
    } else if p[n - 1] == star() {
        wild_values(p, a, n - 1).push(a[n - 1])
    } else {
        wild_values(p, a, n - 1)
    }
}

/// The segments that the wildcards of `pattern` bind in `matched_path`.
pub fn wildcard_bindings(pattern: &str, matched_path: &str) -> (r: Option<Vec<String>>)
    ensures
        match r {
            Some(b) => bindings_of(pattern@, matched_path@) == Some(string_views(b@)),
            None => bindings_of(pattern@, matched_path@) is None,
        },
{
    let p = path_segments(&chars_of(pattern));
    let a = path_segments(&chars_of(matched_path));
    let ghost pv = views(p@);
    let ghost av = views(a@);
    if p.len() != a.len() {
        return None;
    }
    let wild = ['*'];
    assert(wild@ =~= star());
    let mut out: Vec<String> = Vec::new();
    let mut i: usize = 0;
    while i < p.len()
        invariant
            i <= p@.len(),
            p@.len() == a@.len(),
            pv == views(p@),
            av == views(a@),
            pv == segments(pattern@),
            av == segments(matched_path@),
            wild@ == star(),
            forall|j: int| 0 <= j < i ==> #[trigger] pv[j] == star() || pv[j] == av[j],
            string_views(out@) == wild_values(pv, av, i as int),
        decreases p@.len() - i,
    {
        assert(pv[i as int] == p@[i as int]@ && av[i as int] == a@[i as int]@);
        if chars_eq(&p[i], &wild) {
            let ghost before = out@;
            out.push(string_of(&a[i]));
            assert(string_views(out@) =~= string_views(before).push(av[i as int]));
        } else if !chars_eq(&p[i], &a[i]) {
            assert(pv[i as int] != star() && pv[i as int] != av[i as int]);
            return None;
        }
        i = i + 1;
    }
    assert(!exists|j: int| 0 <= j < pv.len() && #[trigger] pv[j] != star() && pv[j] != av[j]);
    Some(out)
}

/// `pattern` with its wildcards replaced, in order, by `bindings` (a
/// wildcard past the last binding stays `*`).
pub open spec fn bound_path(pattern: Seq<char>, bindings: Seq<Seq<char>>) -> Seq<char> {
    join(bound_segments(segments(pattern), bindings, segments(pattern).len() as int), seq!['.'])
}

pub open spec fn wild_count(p: Seq<Seq<char>>, n: int) -> nat
    decreases n,
{
    if n <= 0 {
        0
    } else {
        wild_count(p, n - 1) + if p[n - 1] == star() { 1nat } else { 0nat }
    }
}

pub open spec fn bound_segments(p: Seq<Seq<char>>, b: Seq<Seq<char>>, n: int) -> Seq<Seq<char>>
    decreases n,
{
    if n <= 0 {
        Seq::empty()
    } else {
        let prev = bound_segments(p, b, n - 1);
        let k = wild_count(p, n - 1);
        prev.push(if p[n - 1] == star() { if k < b.len() { b[k as int] } else { star() } } else { p[n - 1] })
    }
}

/// Rewrites `pattern` with the wildcard bindings.
pub fn apply_wildcard_bindings(pattern: &str, bindings: &Vec<String>) -> (r: String)
    ensures
        r@ == bound_path(pattern@, string_views(bindings@)),
{
    let p = path_segments(&chars_of(pattern));
    let ghost pv = views(p@);
    let ghost bv = string_views(bindings@);
    let wild = ['*'];
    assert(wild@ =~= star());
    let mut out: Vec<Vec<char>> = Vec::new();
    let mut k: usize = 0;
    let mut i: usize = 0;
    while i < p.len()
        invariant
            i <= p@.len(),
            pv == views(p@),
            bv == string_views(bindings@),
            wild@ == star(),
            k as nat == wild_count(pv, i as int),
            k <= i,
            views(out@) == bound_segments(pv, bv, i as int),
        decreases p@.len() - i,
    {
        assert(pv[i as int] == p@[i as int]@);
        let ghost before = views(out@);
        if chars_eq(&p[i], &wild) {
            if k < bindings.len() {
                assert(bv[k as int] == bindings@[k as int]@);
                out.push(chars_of(bindings[k].as_str()));
            } else {
                out.push(slice_chars(&wild, 0, 1));
                assert(wild@.subrange(0, 1) =~= star());
            }
            k = k + 1;
        } else {
            let c = slice_chars(&p[i], 0, p[i].len());
            assert(p@[i as int]@.subrange(0, p@[i as int]@.len() as int) =~= p@[i as int]@);
            out.push(c);
        }
        assert(views(out@) =~= bound_segments(pv, bv, i + 1));
        i = i + 1;
    }
    let dot = ['.'];
    assert(dot@ =~= seq!['.']);
    let j = join_chars(&out, &dot);
    assert(out@.map_values(|v: Vec<char>| v@) =~= views(out@));
    string_of(&j)
}

/// The paths a check requires once its trigger pattern matched
/// `matched_path`: each required path with the trigger's bindings applied.
pub fn bind_required_paths(trigger_pattern: &str, matched_path: &str, required: &Vec<String>) -> (r: Option<Vec<String>>)
    ensures
        match bindings_of(trigger_pattern@, matched_path@) {
            Some(b) => r matches Some(v) && string_views(v@) == string_views(required@).map_values(|p: Seq<char>| bound_path(p, b)),
            None => r is None,
        },
{
    let bindings = match wildcard_bindings(trigger_pattern, matched_path) {
        None => {
            return None;
        },
        Some(b) => b,
    };
    let ghost b = string_views(bindings@);
    let mut out: Vec<String> = Vec::new();
    let mut i: usize = 0;
    while i < required.len()
        invariant
            i <= required@.len(),
            b == string_views(bindings@),
            string_views(out@) == string_views(required@).take(i as int).map_values(|p: Seq<char>| bound_path(p, b)),
        decreases required@.len() - i,
    {
        let s = apply_wildcard_bindings(required[i].as_str(), &bindings);
        let ghost before = out@;
        out.push(s);
        assert(string_views(out@) =~= string_views(before).push(s@));
        assert(string_views(required@)[i as int] == required@[i as int]@);
        assert(string_views(required@).take(i + 1).map_values(|p: Seq<char>| bound_path(p, b))
            =~= string_views(required@).take(i as int).map_values(|p: Seq<char>| bound_path(p, b)).push(bound_path(required@[i as int]@, b)));
        i = i + 1;
    }
    assert(string_views(required@).take(required@.len() as int) =~= string_views(required@));
    Some(out)
}

/// The values that `segs` reach from `v` (at path `cur`), with their
/// paths: a wildcard segment fans out over every key or index.
pub open spec fn reached(v: Json, cur: Seq<char>, segs: Seq<Seq<char>>) -> Seq<(Seq<char>, Json)>
    decreases segs.len(), 1nat,
{
    if segs.len() == 0 {
        seq![(cur, v)]
    } else if segs[0] == star() {
        match v {
            Json::Object(es) => entry_matches(es, cur, segs.drop_first()).flatten(),
            Json::Array(items) => item_matches(items, cur, segs.drop_first()).flatten(),
            _ => Seq::empty(),
        }
    } else {
        match v {
            Json::Object(es) => match entry_get(es, segs[0]) {
                Some(c) => reached(c, joined(cur, segs[0]), segs.drop_first()),
                None => Seq::empty(),
            },
            Json::Array(items) => match parse_usize(segs[0]) {
                Some(n) => if n < items.len() { reached(items[n as int], joined(cur, segs[0]), segs.drop_first()) } else { Seq::empty() },
                None => Seq::empty(),
            },
            _ => Seq::empty(),
        }
    }
}

/// What `rest` reaches below each entry.
pub open spec fn entry_matches(es: Seq<(Seq<char>, Json)>, cur: Seq<char>, rest: Seq<Seq<char>>) -> Seq<Seq<(Seq<char>, Json)>>
    decreases rest.len() + 1, 0nat,
{
    Seq::new(es.len(), |i: int| reached(es[i].1, joined(cur, es[i].0), rest))
}

/// What `rest` reaches below each item.
pub open spec fn item_matches(items: Seq<Json>, cur: Seq<char>, rest: Seq<Seq<char>>) -> Seq<Seq<(Seq<char>, Json)>>
    decreases rest.len() + 1, 0nat,
{
    Seq::new(items.len(), |i: int| reached(items[i], joined(cur, decimal(i as nat)), rest))
}

pub open spec fn pairs_view(v: Seq<(String, JsonValue)>) -> Seq<(Seq<char>, Json)> {
    v.map_values(|p: (String, JsonValue)| (p.0@, json_of(p.1)))
}

fn collect_matching_rec(value: &JsonValue, current: &str, segs: &Vec<Vec<char>>, index: usize, out: &mut Vec<(String, JsonValue)>)
    requires
        index <= segs@.len(),
    ensures
        pairs_view(final(out)@) == pairs_view(old(out)@) + reached(value@, current@, views(segs@).skip(index as int)),
    decreases segs@.len() - index,
{
    let ghost o0 = pairs_view(out@);
    let ghost rest = views(segs@).skip(index as int);
    if index == segs.len() {
        let ghost before = out@;
        out.push((current.to_string(), clone_value(value)));
        assert(pairs_view(out@) =~= pairs_view(before) + seq![(current@, value@)]);
        return;
    }
    assert(rest[0] == segs@[index as int]@);
    assert(rest.drop_first() =~= views(segs@).skip(index + 1));
    let wild = ['*'];
    assert(wild@ =~= star());
    let next = index + 1;
    let seg = &segs[index];
    if chars_eq(seg, &wild) {
        match value {
            JsonValue::Object(es) => {
                proof {
                    lemma_object_view(*es);
                }
                let ghost ev = entries_view(es@);
                let ghost ms = entry_matches(ev, current@, rest.drop_first());
                let mut i: usize = 0;
                assert(ms.take(0) =~= Seq::<Seq<(Seq<char>, Json)>>::empty());
                while i < es.len()
                    invariant
                        i <= es@.len(),
                        index < segs@.len(),
                        next == index + 1,
                        ev == entries_view(es@),
                        rest == views(segs@).skip(index as int),
                        rest.drop_first() == views(segs@).skip(index + 1),
                        ms == entry_matches(ev, current@, rest.drop_first()),
                        pairs_view(out@) == o0 + ms.take(i as int).flatten(),
                    decreases es@.len() - i,
                {
                    let child = join_path(current, es[i].0.as_str());
                    collect_matching_rec(&es[i].1, child.as_str(), segs, next, out);
                    assert(ms.take(i + 1) =~= ms.take(i as int).push(ms[i as int]));
                    proof { ms.take(i as int).lemma_flatten_push(ms[i as int]); }
                    i = i + 1;
                }
                assert(ms.take(ms.len() as int) =~= ms);
            },
            JsonValue::Array(items) => {
                proof {
                    lemma_array_view(*items);
                }
                let ghost iv = items_view(items@);
                let ghost ms = item_matches(iv, current@, rest.drop_first());
                let mut i: usize = 0;
                assert(ms.take(0) =~= Seq::<Seq<(Seq<char>, Json)>>::empty());
                while i < items.len()
                    invariant
                        i <= items@.len(),
                        index < segs@.len(),
                        next == index + 1,
                        iv == items_view(items@),
                        rest == views(segs@).skip(index as int),
                        rest.drop_first() == views(segs@).skip(index + 1),
                        ms == item_matches(iv, current@, rest.drop_first()),
                        pairs_view(out@) == o0 + ms.take(i as int).flatten(),
                    decreases items@.len() - i,
                {
                    let child = join_path(current, string_of(&decimal_chars(i)).as_str());
                    collect_matching_rec(&items[i], child.as_str(), segs, next, out);
                    assert(ms.take(i + 1) =~= ms.take(i as int).push(ms[i as int]));
                    proof { ms.take(i as int).lemma_flatten_push(ms[i as int]); }
                    i = i + 1;
                }
                assert(ms.take(ms.len() as int) =~= ms);
            },
            _ => {
                assert(pairs_view(out@) =~= o0 + Seq::<(Seq<char>, Json)>::empty());
            },
        }
    } else {
        match value {
            JsonValue::Object(es) => {
                proof {
                    lemma_object_view(*es);
                }
                match entry_lookup(es, seg) {
                    Some(c) => {
                        let child = join_path(current, string_of(seg).as_str());
                        collect_matching_rec(c, child.as_str(), segs, index + 1, out);
                    },
                    None => {
                        assert(pairs_view(out@) =~= o0 + Seq::<(Seq<char>, Json)>::empty());
                    },
                }
            },
            JsonValue::Array(items) => {
                proof {
                    lemma_array_view(*items);
                }
                match parse_usize_chars(seg) {
                    Some(n) => {
                        if n < items.len() {
                            let child = join_path(current, string_of(seg).as_str());
                            collect_matching_rec(&items[n], child.as_str(), segs, index + 1, out);
                        } else {
                            assert(pairs_view(out@) =~= o0 + Seq::<(Seq<char>, Json)>::empty());
                        }
                    },
                    None => {
                        assert(pairs_view(out@) =~= o0 + Seq::<(Seq<char>, Json)>::empty());
                    },
                }
            },
            _ => {
                assert(pairs_view(out@) =~= o0 + Seq::<(Seq<char>, Json)>::empty());
            },
        }
    }
}

/// The values (with their paths) that a wildcard path reaches in `value`.
pub fn collect_matching_values(value: &JsonValue, path: &str) -> (r: Vec<(String, JsonValue)>)
    ensures
        pairs_view(r@) == (if normalized(path@).len() == 0 { Seq::empty() } else {
            reached(value@, Seq::empty(), crate::text::split(normalized(path@), '.'))
        }),
{
    let n = normalize_path(path);
    let mut out: Vec<(String, JsonValue)> = Vec::new();
    if n.as_str().is_empty() {
        assert(pairs_view(out@) =~= Seq::<(Seq<char>, Json)>::empty());
        return out;
    }
    let segs = crate::text::split_chars(&chars_of(n.as_str()), '.');
    assert(views(segs@) =~= crate::text::split(n@, '.'));
    assert(views(segs@).skip(0) =~= views(segs@));
    collect_matching_rec(value, "", &segs, 0, &mut out);
    assert(pairs_view(out@) =~= reached(value@, ""@, crate::text::split(n@, '.')));
    proof {
        reveal_strlit("");
        assert(""@ =~= Seq::<char>::empty());
    }
    out
}

proof fn lemma_wild_len(p: Seq<Seq<char>>, a: Seq<Seq<char>>, n: int)
    ensures
        wild_count(p, n) == wild_values(p, a, n).len(),
    decreases n,
{
    if n > 0 {
        lemma_wild_len(p, a, n - 1);
    }
}

proof fn lemma_wild_prefix(p: Seq<Seq<char>>, a: Seq<Seq<char>>, m: int, n: int)
    requires
        0 <= m <= n,
    ensures
        wild_values(p, a, m).len() <= wild_values(p, a, n).len(),
        forall|k: int| 0 <= k < wild_values(p, a, m).len() ==> #[trigger] wild_values(p, a, n)[k] == wild_values(p, a, m)[k],
    decreases n - m,
{
    if m < n {
        lemma_wild_prefix(p, a, m, n - 1);
    }
}

proof fn lemma_bound_prefix(p: Seq<Seq<char>>, a: Seq<Seq<char>>, n: int)
    requires
        p.len() == a.len(),
        0 <= n <= p.len(),
        forall|i: int| 0 <= i < p.len() ==> #[trigger] p[i] == star() || p[i] == a[i],
    ensures
        bound_segments(p, wild_values(p, a, p.len() as int), n) == a.take(n),
    decreases n,
{
    let b = wild_values(p, a, p.len() as int);
    if n == 0 {
        assert(a.take(0) =~= Seq::<Seq<char>>::empty());
    } else {
        lemma_bound_prefix(p, a, n - 1);
        lemma_wild_len(p, a, n - 1);
        lemma_wild_prefix(p, a, n, p.len() as int);
        let k = wild_count(p, n - 1);
        if p[n - 1] == star() {
            assert(wild_values(p, a, n) == wild_values(p, a, n - 1).push(a[n - 1]));
            assert(b[k as int] == wild_values(p, a, n)[k as int]);
        }
        assert(a.take(n - 1).push(a[n - 1]) =~= a.take(n));
    }
}

/// Rewriting a pattern with the segments its wildcards bound in a path
/// gives that path back (normalized).
pub proof fn law_bindings_round_trip(pattern: Seq<char>, path: Seq<char>)
    requires
        bindings_of(pattern, path) is Some,
    ensures
        bound_path(pattern, bindings_of(pattern, path)->Some_0) == normalized(path),
{
    let p = segments(pattern);
    let a = segments(path);
    assert forall|i: int| 0 <= i < p.len() implies #[trigger] p[i] == star() || p[i] == a[i] by {
        if !(p[i] == star() || p[i] == a[i]) {
            assert(0 <= i < p.len() && p[i] != star() && p[i] != a[i]);
        }
    }
    lemma_bound_prefix(p, a, p.len() as int);
    assert(a.take(a.len() as int) =~= a);
}

} // verus!
