//! "Did you mean" suggestions for unknown configuration paths.
use vstd::prelude::*;
use crate::text::{join, views, chars_of, string_of, chars_eq, slice_chars, join_chars};
use crate::path::{segments, star, path_segments};
use crate::syntax::{external_path_result, normalize_external_path};
use crate::strmap::StrMap;
use crate::path::normalized;

verus! {

pub open spec fn min_nat(a: nat, b: nat) -> nat {
    if a <= b { a } else { b }
}

pub open spec fn max_nat(a: nat, b: nat) -> nat {
    if a >= b { a } else { b }
}

/// The edit distance of two character sequences: the least number of
/// single-character insertions, deletions and substitutions.
pub open spec fn edit_distance(a: Seq<char>, b: Seq<char>) -> nat
    decreases a.len() + b.len(),
{
    if a.len() == 0 {
        b.len()
    } else if b.len() == 0 {
        a.len()
    } else {
        min_nat(min_nat(edit_distance(a, b.drop_last()) + 1, edit_distance(a.drop_last(), b) + 1),
            edit_distance(a.drop_last(), b.drop_last()) + if a.last() != b.last() { 1nat } else { 0nat })
    }
}

proof fn lemma_distance_bounded(a: Seq<char>, b: Seq<char>)
    ensures
        edit_distance(a, b) <= max_nat(a.len(), b.len()),
    decreases a.len() + b.len(),
{
    if a.len() > 0 && b.len() > 0 {
        lemma_distance_bounded(a.drop_last(), b.drop_last());
    }
}

proof fn lemma_distance_self(a: Seq<char>)
    ensures
        edit_distance(a, a) == 0,
    decreases a.len(),
{
    if a.len() > 0 {
        lemma_distance_self(a.drop_last());
    }
}

/// The edit distance does not depend on the order of its arguments.
pub proof fn law_distance_symmetric(a: Seq<char>, b: Seq<char>)
    ensures
        edit_distance(a, b) == edit_distance(b, a),
    decreases a.len() + b.len(),
{
    if a.len() > 0 && b.len() > 0 {
        law_distance_symmetric(a, b.drop_last());
        law_distance_symmetric(a.drop_last(), b);
        law_distance_symmetric(a.drop_last(), b.drop_last());
    }
}

/// Two texts are at distance zero exactly when they are equal.
pub proof fn law_distance_zero_iff_equal(a: Seq<char>, b: Seq<char>)
    ensures
        (edit_distance(a, b) == 0) == (a == b),
    decreases a.len() + b.len(),
{
    if a == b {
        lemma_distance_self(a);
    } else if a.len() > 0 && b.len() > 0 {
        law_distance_zero_iff_equal(a.drop_last(), b.drop_last());
        if edit_distance(a, b) == 0 {
            assert(a.last() == b.last());
            assert(a.drop_last() == b.drop_last());
            assert(a =~= a.drop_last().push(a.last()));
            assert(b =~= b.drop_last().push(b.last()));
        }
    } else if a.len() == 0 && b.len() == 0 {
        assert(a =~= b);
    }
}

/// The edit distance between two strings, counted in characters.
pub fn levenshtein(left: &str, right: &str) -> (r: usize)
    requires
        left@.len() < usize::MAX,
        right@.len() < usize::MAX,
    ensures
        r as nat == edit_distance(left@, right@),
{
    let a = chars_of(left);
    let b = chars_of(right);
    if chars_eq(&a, &b) {
        proof {
            lemma_distance_self(a@);
        }
        return 0;
    }
    if a.len() == 0 {
        return b.len();
    }
    if b.len() == 0 {
        return a.len();
    }
    let m = b.len();
    let mut previous: Vec<usize> = Vec::new();
    let mut j: usize = 0;
    while j <= m
        invariant
            m == b@.len(),
            m < usize::MAX,
            j <= m + 1,
            previous@.len() == j,
            forall|k: int| 0 <= k < j ==> previous@[k] as nat == edit_distance(a@.take(0), b@.take(k)),
        decreases m + 1 - j,
    {
        assert(a@.take(0).len() == 0);
        previous.push(j);
        j = j + 1;
    }
    let mut i: usize = 0;
    while i < a.len()
        invariant
            m == b@.len(),
            m < usize::MAX,
            a@.len() < usize::MAX,
            i <= a@.len(),
            previous@.len() == m + 1,
            forall|k: int| 0 <= k <= m ==> previous@[k] as nat == edit_distance(a@.take(i as int), b@.take(k)),
        decreases a@.len() - i,
    {
        let ai = a[i];
        let mut current: Vec<usize> = Vec::new();
        current.push(i + 1);
        assert(b@.take(0).len() == 0);
        assert(current@[0] as nat == edit_distance(a@.take(i + 1), b@.take(0)));
        let mut k: usize = 0;
        while k < m
            invariant
                m == b@.len(),
                m < usize::MAX,
                i < a@.len(),
                a@.len() < usize::MAX,
                ai == a@[i as int],
                k <= m,
                previous@.len() == m + 1,
                current@.len() == k + 1,
                forall|x: int| 0 <= x <= m ==> previous@[x] as nat == edit_distance(a@.take(i as int), b@.take(x)),
                forall|x: int| 0 <= x <= k ==> current@[x] as nat == edit_distance(a@.take(i + 1), b@.take(x)),
            decreases m - k,
        {
            let ghost aa = a@.take(i + 1);
            let ghost bb = b@.take(k + 1);
            assert(aa.drop_last() =~= a@.take(i as int));
            assert(bb.drop_last() =~= b@.take(k as int));
            assert(aa.last() == ai);
            assert(bb.last() == b@[k as int]);
            proof {
                lemma_distance_bounded(aa, b@.take(k as int));
                lemma_distance_bounded(a@.take(i as int), bb);
                lemma_distance_bounded(a@.take(i as int), b@.take(k as int));
            }
            let cost: usize = if ai != b[k] { 1 } else { 0 };
            let x = current[k] + 1;
            let y = previous[k + 1] + 1;
            let z = previous[k] + cost;
            let xy = if x <= y { x } else { y };
            let v = if xy <= z { xy } else { z };
            current.push(v);
            k = k + 1;
        }
        previous = current;
        i = i + 1;
    }
    assert(a@.take(a@.len() as int) =~= a@);
    assert(b@.take(m as int) =~= b@);
    previous[m]
}

/// `pattern` spelled for `actual`: each `*` takes the segment of `actual` at
/// its position, or `<item>` where `actual` is shorter.
pub open spec fn materialized(pattern: Seq<char>, actual: Seq<char>) -> Seq<char> {
    let p = segments(pattern);
    let a = segments(actual);
    join(Seq::new(p.len(), |i: int| if p[i] == star() { if i < a.len() { a[i] } else { "<item>"@ } } else { p[i] }), seq!['.'])
}

/// Spells the wildcard pattern `pattern` for the concrete path `actual_path`.
pub fn materialize_pattern_for_path(pattern: &str, actual_path: &str) -> (r: String)
    ensures
        r@ == materialized(pattern@, actual_path@),
{
    let p = path_segments(&chars_of(pattern));
    let a = path_segments(&chars_of(actual_path));
    let ghost pv = views(p@);
    let ghost av = views(a@);
    let ghost target = Seq::new(pv.len(), |i: int| if pv[i] == star() { if i < av.len() { av[i] } else { "<item>"@ } } else { pv[i] });
    let wild = ['*'];
    assert(wild@ =~= star());
    proof {
        reveal_strlit("<item>");
    }
    let mut out: Vec<Vec<char>> = Vec::new();
    let mut i: usize = 0;
    while i < p.len()
        invariant
            i <= p@.len(),
            pv == views(p@),
            av == views(a@),
            wild@ == star(),
            target == Seq::new(pv.len(), |i: int| if pv[i] == star() { if i < av.len() { av[i] } else { "<item>"@ } } else { pv[i] }),
            views(out@) == target.take(i as int),
        decreases p@.len() - i,
    {
        assert(pv[i as int] == p@[i as int]@);
        let s = if chars_eq(&p[i], &wild) {
            if i < a.len() {
                assert(av[i as int] == a@[i as int]@);
                let c = slice_chars(&a[i], 0, a[i].len());
                assert(a@[i as int]@.subrange(0, a@[i as int]@.len() as int) =~= a@[i as int]@);
                c
            } else {
                let c = chars_of("<item>");
                c
            }
        } else {
            let c = slice_chars(&p[i], 0, p[i].len());
            assert(p@[i as int]@.subrange(0, p@[i as int]@.len() as int) =~= p@[i as int]@);
            c
        };
        assert(s@ == target[i as int]);
        let ghost before = out@;
        out.push(s);
        assert(views(out@) =~= views(before).push(s@));
        assert(target.take(i + 1) =~= target.take(i as int).push(target[i as int]));
        i = i + 1;
    }
    assert(target.take(p@.len() as int) =~= target);
    let dot = ['.'];
    assert(dot@ =~= seq!['.']);
    let j = join_chars(&out, &dot);
    assert(out@.map_values(|v: Vec<char>| v@) =~= views(out@));
    string_of(&j)
}

/// The position of the last `.` in `s`.
pub open spec fn last_dot(s: Seq<char>) -> Option<int>
    decreases s.len(),
{
    if s.len() == 0 {
        None
    } else if s.last() == '.' {
        Some(s.len() - 1)
    } else {
        last_dot(s.drop_last())
    }
}

/// `s` split at its last `.` into parent and leaf (no parent without one).
pub open spec fn rsplit_dot(s: Seq<char>) -> (Seq<char>, Seq<char>) {
    match last_dot(s) {
        Some(i) => (s.take(i), s.skip(i + 1)),
        None => (Seq::empty(), s),
    }
}

fn rsplit_dot_exec(s: &Vec<char>) -> (r: (Vec<char>, Vec<char>))
    ensures
        r.0@ == rsplit_dot(s@).0,
        r.1@ == rsplit_dot(s@).1,
{
    let mut i: usize = s.len();
    assert(s@.take(s@.len() as int) =~= s@);
    while i > 0
        invariant
            i <= s@.len(),
            last_dot(s@) == last_dot(s@.take(i as int)),
        decreases i,
    {
        assert(s@.take(i as int).drop_last() =~= s@.take(i - 1));
        assert(s@.take(i as int).last() == s@[i - 1]);
        if s[i - 1] == '.' {
            let parent = slice_chars(s, 0, i - 1);
            let leaf = slice_chars(s, i, s.len());
            assert(s@.subrange(0, i - 1) =~= s@.take(i - 1));
            assert(s@.subrange(i as int, s@.len() as int) =~= s@.skip(i as int));
            return (parent, leaf);
        }
        i = i - 1;
    }
    assert(s@.take(0) =~= Seq::<char>::empty());
    let leaf = slice_chars(s, 0, s.len());
    assert(s@.subrange(0, s@.len() as int) =~= s@);
    (Vec::new(), leaf)
}

/// The number of bytes of the UTF-8 encoding of `s`.
pub open spec fn utf8_len(s: Seq<char>) -> nat
    decreases s.len(),
{
    if s.len() == 0 {
        0
    } else {
        let c = s.last() as u32;
        utf8_len(s.drop_last()) + if c < 0x80 { 1nat } else if c < 0x800 { 2nat } else if c < 0x10000 { 3nat } else { 4nat }
    }
}

fn utf8_len_exec(s: &Vec<char>) -> (r: usize)
    requires
        s@.len() < usize::MAX / 4,
    ensures
        r as nat == utf8_len(s@),
{
    let mut n: usize = 0;
    let mut i: usize = 0;
    while i < s.len()
        invariant
            i <= s@.len(),
            s@.len() < usize::MAX / 4,
            n as nat == utf8_len(s@.take(i as int)),
            n <= 4 * i,
        decreases s@.len() - i,
    {
        assert(s@.take(i + 1).drop_last() =~= s@.take(i as int));
        let c = s[i] as u32;
        n = n + if c < 0x80 { 1 } else if c < 0x800 { 2 } else if c < 0x10000 { 3 } else { 4 };
        i = i + 1;
    }
    assert(s@.take(s@.len() as int) =~= s@);
    n
}

/// The nearest sibling of the unknown path: entries whose spelled key has
/// the same parent, by edit distance of the leaves; the first of the least.
pub open spec fn sibling_scan(es: Seq<(String, String)>, n: nat, norm: Seq<char>) -> Option<(nat, Seq<char>)>
    decreases n,
{
    if n == 0 || n > es.len() {
        None
    } else {
        let prev = sibling_scan(es, (n - 1) as nat, norm);
        let dc = materialized(es[n - 1].0@, norm);
        let dk = materialized(es[n - 1].1@, norm);
        if rsplit_dot(dc).0 != rsplit_dot(norm).0 {
            prev
        } else {
            let d = edit_distance(rsplit_dot(norm).1, rsplit_dot(dc).1);
            match prev {
                Some(b) => if d < b.0 { Some((d, dk)) } else { prev },
                None => Some((d, dk)),
            }
        }
    }
}

/// The nearest entry by edit distance of whole paths; the first of the least.
pub open spec fn overall_scan(es: Seq<(String, String)>, n: nat, norm: Seq<char>) -> Option<(nat, Seq<char>)>
    decreases n,
{
    if n == 0 || n > es.len() {
        None
    } else {
        let prev = overall_scan(es, (n - 1) as nat, norm);
        let d = edit_distance(norm, materialized(es[n - 1].0@, norm));
        let dk = materialized(es[n - 1].1@, norm);
        match prev {
            Some(b) => if d < b.0 { Some((d, dk)) } else { prev },
            None => Some((d, dk)),
        }
    }
}

/// The suggestion for an unknown path among `paths` (spelling => canonical):
/// a close sibling (distance at most 3) first, else the nearest path when
/// its distance is at most a third of the longer length (and at least 2).
pub open spec fn suggestion(path: Seq<char>, paths: StrMap<String>) -> Option<Seq<char>> {
    let es = paths.entries();
    let norm = external_form(path);
    if es.len() == 0 {
        None
    } else {
        match sibling_scan(es, es.len(), norm) {
            Some(b) => if b.0 <= 3 { Some(b.1) } else { overall_pick(es, norm) },
            None => overall_pick(es, norm),
        }
    }
}

/// The dot form of a user-facing path (its text without empty segments when
/// it cannot be read).
pub open spec fn external_form(path: Seq<char>) -> Seq<char> {
    match external_path_result(path) {
        Ok(p) => p,
        Err(_) => normalized(path),
    }
}

/// The nearest path overall, when close enough.
pub open spec fn overall_pick(es: Seq<(String, String)>, norm: Seq<char>) -> Option<Seq<char>> {
    match overall_scan(es, es.len(), norm) {
        Some(b) => {
            let max_len = max_nat(utf8_len(norm), utf8_len(b.1));
            if b.0 <= max_nat(max_len / 3, 2) { Some(b.1) } else { None }
        },
        None => None,
    }
}

/// A path spelled for `norm` is of a length that memory can hold.
pub open spec fn spelled_fits(k: Seq<char>, norm: Seq<char>) -> bool {
    materialized(k, norm).len() < usize::MAX / 4
}

/// The strings compared are of a length that memory can hold.
pub open spec fn suggestion_fits(path: Seq<char>, paths: StrMap<String>) -> bool {
    &&& external_form(path).len() < usize::MAX / 4
    &&& forall|i: int| 0 <= i < paths.entries().len() ==> spelled_fits(#[trigger] paths.entries()[i].0@, external_form(path))
        && spelled_fits(paths.entries()[i].1@, external_form(path))
}

/// Suggests a known path for an unknown one.
pub fn best_path_suggestion(path: &str, suggestion_paths: &StrMap<String>) -> (r: Option<String>)
    requires
        suggestion_fits(path@, *suggestion_paths),
    ensures
        match r {
            Some(s) => suggestion(path@, *suggestion_paths) == Some(s@),
            None => suggestion(path@, *suggestion_paths) is None,
        },
{
    let ghost es = suggestion_paths.entries();
    if suggestion_paths.len() == 0 {
        return None;
    }
    let normalized_path = normalize_external_path(path);
    let norm = chars_of(normalized_path.as_str());
    let (parent, leaf) = rsplit_dot_exec(&norm);
    let mut sibling: Option<(usize, String)> = None;
    let mut i: usize = 0;
    while i < suggestion_paths.len()
        invariant
            i <= es.len(),
            es == suggestion_paths.entries(),
            suggestion_fits(path@, *suggestion_paths),
            norm@ == normalized_path@,
            normalized_path@ == external_form(path@),
            parent@ == rsplit_dot(norm@).0,
            leaf@ == rsplit_dot(norm@).1,
            match sibling {
                Some(b) => sibling_scan(es, i as nat, norm@) == Some((b.0 as nat, b.1@)),
                None => sibling_scan(es, i as nat, norm@) is None,
            },
        decreases es.len() - i,
    {
        let (candidate, canonical) = suggestion_paths.entry_at(i);
        let dc = materialize_pattern_for_path(candidate.as_str(), normalized_path.as_str());
        let dcc = chars_of(dc.as_str());
        let (cparent, cleaf) = rsplit_dot_exec(&dcc);
        if chars_eq(&cparent, &parent) {
            assert(spelled_fits(es[i as int].0@, external_form(path@)));
            proof {
                lemma_take_len(norm@);
                lemma_skip_len(dcc@);
            }
            let d = levenshtein(string_of(&leaf).as_str(), string_of(&cleaf).as_str());
            let better = match &sibling {
                Some(b) => d < b.0,
                None => true,
            };
            if better {
                let dk = materialize_pattern_for_path(canonical.as_str(), normalized_path.as_str());
                sibling = Some((d, dk));
            }
        }
        i = i + 1;
    }
    match sibling {
        Some((d, s)) => {
            if d <= 3 {
                return Some(s);
            }
        },
        None => {},
    }
    let mut best: Option<(usize, String)> = None;
    let mut i: usize = 0;
    while i < suggestion_paths.len()
        invariant
            i <= es.len(),
            es == suggestion_paths.entries(),
            suggestion_fits(path@, *suggestion_paths),
            norm@ == normalized_path@,
            normalized_path@ == external_form(path@),
            match best {
                Some(b) => overall_scan(es, i as nat, norm@) == Some((b.0 as nat, b.1@)),
                None => overall_scan(es, i as nat, norm@) is None,
            },
            best matches Some(b) ==> b.1@.len() < usize::MAX / 4,
        decreases es.len() - i,
    {
        let (candidate, canonical) = suggestion_paths.entry_at(i);
        let dc = materialize_pattern_for_path(candidate.as_str(), normalized_path.as_str());
        assert(spelled_fits(es[i as int].0@, external_form(path@)));
        assert(spelled_fits(es[i as int].1@, external_form(path@)));
        let d = levenshtein(normalized_path.as_str(), dc.as_str());
        let better = match &best {
            Some(b) => d < b.0,
            None => true,
        };
        if better {
            let dk = materialize_pattern_for_path(canonical.as_str(), normalized_path.as_str());
            best = Some((d, dk));
        }
        i = i + 1;
    }
    match best {
        Some((d, s)) => {
            let sc = chars_of(s.as_str());
            let a = utf8_len_exec(&norm);
            let b = utf8_len_exec(&sc);
            let max_len = if a >= b { a } else { b };
            let third = max_len / 3;
            let limit = if third >= 2 { third } else { 2 };
            if d <= limit {
                Some(s)
            } else {
                None
            }
        },
        None => None,
    }
}

proof fn lemma_take_len(s: Seq<char>)
    ensures
        rsplit_dot(s).1.len() <= s.len(),
        rsplit_dot(s).0.len() <= s.len(),
{
    lemma_last_dot_range(s);
}

proof fn lemma_skip_len(s: Seq<char>)
    ensures
        rsplit_dot(s).1.len() <= s.len(),
{
    lemma_last_dot_range(s);
}

proof fn lemma_last_dot_range(s: Seq<char>)
    ensures
        last_dot(s) matches Some(i) ==> 0 <= i < s.len(),
    decreases s.len(),
{
    if s.len() > 0 {
        lemma_last_dot_range(s.drop_last());
    }
}

} // verus!
