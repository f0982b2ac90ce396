//! A string-keyed map that keeps its keys in ascending order, as the
//! ordered maps of the loader do.
use vstd::prelude::*;
use crate::text::{chars_of, starts_with, starts_with_chars, chars_eq};

verus! {

/// Lexicographic order of character sequences (code point by code point,
/// which is the byte order of their UTF-8 encodings).
pub open spec fn seq_lt(a: Seq<char>, b: Seq<char>) -> bool
    decreases a.len(),
{
    if a.len() == 0 {
        b.len() > 0
    } else if b.len() == 0 {
        false
    } else if a[0] != b[0] {
        a[0] < b[0]
    } else {
        seq_lt(a.drop_first(), b.drop_first())
    }
}

pub proof fn lemma_lt_irrefl(a: Seq<char>)
    ensures
        !seq_lt(a, a),
    decreases a.len(),
{
    if a.len() > 0 {
        lemma_lt_irrefl(a.drop_first());
    }
}

pub proof fn lemma_lt_total(a: Seq<char>, b: Seq<char>)
    ensures
        a == b || seq_lt(a, b) || seq_lt(b, a),
        !(seq_lt(a, b) && seq_lt(b, a)),
    decreases a.len(),
{
    if a.len() > 0 && b.len() > 0 && a[0] == b[0] {
        lemma_lt_total(a.drop_first(), b.drop_first());
        if a.drop_first() == b.drop_first() {
            assert(a =~= seq![a[0]] + a.drop_first());
            assert(b =~= seq![b[0]] + b.drop_first());
        }
    }
    if a.len() == 0 && b.len() == 0 {
        assert(a =~= b);
    }
}

pub proof fn lemma_lt_trans(a: Seq<char>, b: Seq<char>, c: Seq<char>)
    requires
        seq_lt(a, b),
        seq_lt(b, c),
    ensures
        seq_lt(a, c),
    decreases a.len(),
{
    if a.len() > 0 && b.len() > 0 && c.len() > 0 && a[0] == b[0] && b[0] == c[0] {
        lemma_lt_trans(a.drop_first(), b.drop_first(), c.drop_first());
    }
}

/// Compares two character sequences.
pub fn chars_lt(a: &[char], b: &[char]) -> (r: bool)
    ensures
        r == seq_lt(a@, b@),
{
    let mut i: usize = 0;
    assert(a@.skip(0) =~= a@);
    assert(b@.skip(0) =~= b@);
    while i < a.len() && i < b.len() && a[i] == b[i]
        invariant
            i <= a.len(),
            i <= b.len(),
            seq_lt(a@.skip(i as int), b@.skip(i as int)) == seq_lt(a@, b@),
        decreases a.len() - i,
    {
        assert(a@.skip(i as int).drop_first() =~= a@.skip(i + 1));
        assert(b@.skip(i as int).drop_first() =~= b@.skip(i + 1));
        i = i + 1;
    }
    assert(a@.skip(i as int).len() == 0 ==> true);
    if i == a.len() {
        i < b.len()
    } else if i == b.len() {
        false
    } else {
        assert(a@.skip(i as int)[0] == a@[i as int]);
        assert(b@.skip(i as int)[0] == b@[i as int]);
        a[i] < b[i]
    }
}

/// Keys strictly ascending.
pub open spec fn sorted_keys<V>(e: Seq<(String, V)>) -> bool {
    forall|i: int, j: int| 0 <= i < j < e.len() ==> seq_lt(#[trigger] e[i].0@, #[trigger] e[j].0@)
}

/// The value stored for `k` in a list of entries (the first match).
pub open spec fn lookup<V>(e: Seq<(String, V)>, k: Seq<char>) -> Option<V>
    decreases e.len(),
{
    if e.len() == 0 {
        None
    } else if e[0].0@ == k {
        Some(e[0].1)
    } else {
        lookup(e.drop_first(), k)
    }
}

/// `lookup` finds nothing when no key is `k`.
pub proof fn lemma_lookup_absent<V>(e: Seq<(String, V)>, k: Seq<char>)
    requires
        forall|j: int| 0 <= j < e.len() ==> #[trigger] e[j].0@ != k,
    ensures
        lookup(e, k) is None,
    decreases e.len(),
{
    if e.len() > 0 {
        assert(e[0].0@ != k);
        assert forall|j: int| 0 <= j < e.drop_first().len() implies #[trigger] e.drop_first()[j].0@ != k by {
            assert(e.drop_first()[j] == e[j + 1]);
        }
        lemma_lookup_absent(e.drop_first(), k);
    }
}

/// In a sorted list, the entry whose key is `k` is the one `lookup` finds.
pub proof fn lemma_lookup<V>(e: Seq<(String, V)>, idx: int, k: Seq<char>)
    requires
        sorted_keys(e),
        0 <= idx < e.len(),
        e[idx].0@ == k,
    ensures
        lookup(e, k) == Some(e[idx].1),
    decreases e.len(),
{
    if idx > 0 {
        if e[0].0@ == k {
            assert(seq_lt(e[0].0@, e[idx].0@));
            lemma_lt_irrefl(k);
        }
        let t = e.drop_first();
        assert forall|i: int, j: int| 0 <= i < j < t.len() implies seq_lt(#[trigger] t[i].0@, #[trigger] t[j].0@) by {
            assert(t[i] == e[i + 1] && t[j] == e[j + 1]);
        }
        assert(t[idx - 1] == e[idx]);
        lemma_lookup(t, idx - 1, k);
    }
}

/// Looking up in a list with one more entry at the end.
pub proof fn lemma_lookup_push<V>(e: Seq<(String, V)>, a: (String, V), x: Seq<char>)
    ensures
        lookup(e.push(a), x) == match lookup(e, x) {
            Some(v) => Some(v),
            None => if a.0@ == x { Some(a.1) } else { None },
        },
    decreases e.len(),
{
    let p = e.push(a);
    if e.len() > 0 {
        assert(p.drop_first() =~= e.drop_first().push(a));
        assert(p[0] == e[0]);
        lemma_lookup_push(e.drop_first(), a, x);
        if e[0].0@ == x {
            assert(lookup(p, x) == Some(e[0].1));
        } else {
            assert(lookup(p, x) == lookup(p.drop_first(), x));
        }
    } else {
        assert(p.drop_first() =~= Seq::<(String, V)>::empty());
        assert(p[0] == a);
        assert(lookup(p.drop_first(), x) is None);
    }
}

/// `x` is `path` or lies below it.
pub open spec fn under(x: Seq<char>, path: Seq<char>) -> bool {
    x == path || starts_with(x, path + seq!['.'])
}

/// A map from strings to values whose entries are kept in ascending key order.
pub struct StrMap<V> {
    entries: Vec<(String, V)>,
}

impl<V> StrMap<V> {
    /// The entries, in ascending key order.
    pub closed spec fn entries(&self) -> Seq<(String, V)> {
        self.entries@
    }

    /// The value stored for `k`.
    pub open spec fn get_spec(&self, k: Seq<char>) -> Option<V> {
        lookup(self.entries(), k)
    }

    pub closed spec fn wf(&self) -> bool {
        sorted_keys(self.entries@)
    }

    pub proof fn lemma_wf_sorted(&self)
        requires
            self.wf(),
        ensures
            sorted_keys(self.entries()),
    {
    }

    /// Whether the keys are in strictly ascending order.
    pub fn is_ordered(&self) -> (r: bool)
        ensures
            r == self.wf(),
    {
        let mut i: usize = 1;
        if self.entries.len() == 0 {
            return true;
        }
        while i < self.entries.len()
            invariant
                1 <= i <= self.entries@.len(),
                forall|a: int, b: int| 0 <= a < b < i ==> seq_lt(#[trigger] self.entries@[a].0@, #[trigger] self.entries@[b].0@),
            decreases self.entries@.len() - i,
        {
            let x = chars_of(self.entries[i - 1].0.as_str());
            let y = chars_of(self.entries[i].0.as_str());
            if !chars_lt(&x, &y) {
                return false;
            }
            proof {
                assert forall|a: int, b: int| 0 <= a < b < i + 1 implies seq_lt(#[trigger] self.entries@[a].0@, #[trigger] self.entries@[b].0@) by {
                    if b == i as int && a < i - 1 {
                        lemma_lt_trans(self.entries@[a].0@, self.entries@[i - 1].0@, self.entries@[b].0@);
                    }
                }
            }
            i = i + 1;
        }
        true
    }

    /// An empty map.
    pub fn new() -> (r: Self)
        ensures
            r.wf(),
            r.entries().len() == 0,
    {
        StrMap { entries: Vec::new() }
    }

    /// The number of entries.
    pub fn len(&self) -> (r: usize)
        ensures
            r == self.entries().len(),
    {
        self.entries.len()
    }

    /// The key and value at position `i` of the ascending order.
    pub fn entry_at(&self, i: usize) -> (r: (&String, &V))
        requires
            i < self.entries().len(),
        ensures
            *r.0 == self.entries()[i as int].0,
            *r.1 == self.entries()[i as int].1,
    {
        (&self.entries[i].0, &self.entries[i].1)
    }

    /// The position of `k`, if present.
    pub fn find(&self, k: &str) -> (r: Option<usize>)
        ensures
            match r {
                Some(i) => i < self.entries().len() && self.entries()[i as int].0@ == k@,
                None => forall|i: int| 0 <= i < self.entries().len() ==> #[trigger] self.entries()[i].0@ != k@,
            },
    {
        let kc = chars_of(k);
        let mut i: usize = 0;
        while i < self.entries.len()
            invariant
                i <= self.entries@.len(),
                kc@ == k@,
                forall|j: int| 0 <= j < i ==> #[trigger] self.entries@[j].0@ != k@,
            decreases self.entries@.len() - i,
        {
            let ec = chars_of(self.entries[i].0.as_str());
            if crate::text::chars_eq(&ec, &kc) {
                return Some(i);
            }
            i = i + 1;
        }
        None
    }

    /// The value stored for `k`, if any.
    pub fn get(&self, k: &str) -> (r: Option<&V>)
        requires
            self.wf(),
        ensures
            match r {
                Some(v) => self.get_spec(k@) == Some(*v),
                None => self.get_spec(k@) is None,
            },
    {
        match self.find(k) {
            Some(i) => {
                proof {
                    lemma_lookup(self.entries@, i as int, k@);
                }
                Some(&self.entries[i].1)
            },
            None => {
                proof {
                    lemma_lookup_absent(self.entries@, k@);
                }
                None
            },
        }
    }

    /// Inserts `v` for `k`, replacing any value stored for `k`.
    pub fn insert(&mut self, k: String, v: V)
        requires
            old(self).wf(),
        ensures
            final(self).wf(),
            final(self).get_spec(k@) == Some(v),
            forall|x: Seq<char>| x != k@ ==> #[trigger] final(self).get_spec(x) == old(self).get_spec(x),
    {
        let kc = chars_of(k.as_str());
        let mut i: usize = 0;
        while i < self.entries.len() && self.key_lt(i, &kc)
            invariant
                i <= self.entries@.len(),
                kc@ == k@,
                sorted_keys(self.entries@),
                self.entries@ == old(self).entries@,
                forall|j: int| 0 <= j < i ==> seq_lt(#[trigger] self.entries@[j].0@, k@),
            decreases self.entries@.len() - i,
        {
            i = i + 1;
        }
        let ghost old_e = self.entries@;
        let ghost kv = k@;
        proof {
            if i < old_e.len() {
                lemma_lt_total(old_e[i as int].0@, k@);
            }
        }
        if i < self.entries.len() && crate::text::str_eq(self.entries[i].0.as_str(), k.as_str()) {
            self.entries.set(i, (k, v));
            proof {
                let e = self.entries@;
                assert forall|a: int, b: int| 0 <= a < b < e.len() implies seq_lt(#[trigger] e[a].0@, #[trigger] e[b].0@) by {
                    assert(e[a].0@ == old_e[a].0@);
                    assert(e[b].0@ == old_e[b].0@);
                }
                lemma_lookup(e, i as int, kv);
                assert forall|x: Seq<char>| x != kv implies #[trigger] lookup(e, x) == lookup(old_e, x) by {
                    if exists|j: int| 0 <= j < old_e.len() && #[trigger] old_e[j].0@ == x {
                        let j = choose|j: int| 0 <= j < old_e.len() && #[trigger] old_e[j].0@ == x;
                        lemma_lookup(old_e, j, x);
                        assert(e[j] == old_e[j]);
                        lemma_lookup(e, j, x);
                    } else {
                        assert forall|j: int| 0 <= j < e.len() implies #[trigger] e[j].0@ != x by {
                            if j != i {
                                assert(e[j] == old_e[j]);
                            }
                        }
                        lemma_lookup_absent(e, x);
                        lemma_lookup_absent(old_e, x);
                    }
                }
            }
        } else {
            self.entries.insert(i, (k, v));
            proof {
                let e = self.entries@;
                assert forall|a: int, b: int| 0 <= a < b < e.len() implies seq_lt(#[trigger] e[a].0@, #[trigger] e[b].0@) by {
                    if b < i {
                        assert(e[a] == old_e[a] && e[b] == old_e[b]);
                    } else if b == i {
                        assert(e[a] == old_e[a]);
                    } else if a == i {
                        assert(e[b] == old_e[b - 1]);
                        if b - 1 > i {
                            assert(seq_lt(old_e[i as int].0@, old_e[b - 1].0@));
                            lemma_lt_trans(kv, old_e[i as int].0@, old_e[b - 1].0@);
                        }
                    } else if a < i {
                        assert(e[a] == old_e[a] && e[b] == old_e[b - 1]);
                    } else {
                        assert(e[a] == old_e[a - 1] && e[b] == old_e[b - 1]);
                    }
                }
                lemma_lookup(e, i as int, kv);
                assert forall|x: Seq<char>| x != kv implies #[trigger] lookup(e, x) == lookup(old_e, x) by {
                    if exists|j: int| 0 <= j < old_e.len() && #[trigger] old_e[j].0@ == x {
                        let j = choose|j: int| 0 <= j < old_e.len() && #[trigger] old_e[j].0@ == x;
                        lemma_lookup(old_e, j, x);
                        if j < i {
                            assert(e[j] == old_e[j]);
                            lemma_lookup(e, j, x);
                        } else {
                            assert(e[j + 1] == old_e[j]);
                            lemma_lookup(e, j + 1, x);
                        }
                    } else {
                        assert forall|j: int| 0 <= j < e.len() implies #[trigger] e[j].0@ != x by {
                            if j < i {
                                assert(e[j] == old_e[j]);
                            } else if j > i {
                                assert(e[j] == old_e[j - 1]);
                            }
                        }
                        lemma_lookup_absent(e, x);
                        lemma_lookup_absent(old_e, x);
                    }
                }
            }
        }
    }

    fn key_lt(&self, i: usize, kc: &Vec<char>) -> (r: bool)
        requires
            i < self.entries@.len(),
        ensures
            r == seq_lt(self.entries@[i as int].0@, kc@),
    {
        let ec = chars_of(self.entries[i].0.as_str());
        chars_lt(&ec, kc)
    }

    /// Removes `path` and every key below it.
    pub fn remove_under(&mut self, path: &[char])
        requires
            old(self).wf(),
        ensures
            final(self).wf(),
            forall|x: Seq<char>| #[trigger] final(self).get_spec(x) == if under(x, path@) { None } else { old(self).get_spec(x) },
    {
        let ghost e = self.entries@;
        let n = self.entries.len();
        let mut dotted: Vec<char> = Vec::new();
        let mut j: usize = 0;
        while j < path.len()
            invariant
                j <= path@.len(),
                dotted@ == path@.take(j as int),
            decreases path@.len() - j,
        {
            dotted.push(path[j]);
            assert(dotted@ =~= path@.take(j + 1));
            j = j + 1;
        }
        dotted.push('.');
        assert(path@.take(path@.len() as int) =~= path@);
        let mut rest: Vec<(String, V)> = Vec::new();
        std::mem::swap(&mut rest, &mut self.entries);
        let mut out: StrMap<V> = StrMap::new();
        let mut i: usize = 0;
        assert(e.skip(0) =~= e);
        while rest.len() > 0
            invariant
                i <= e.len(),
                e.len() == n,
                rest@ == e.skip(i as int),
                sorted_keys(e),
                out.wf(),
                dotted@ == path@ + seq!['.'],
                forall|x: Seq<char>| #[trigger] out.get_spec(x) == if under(x, path@) { None } else { lookup(e.take(i as int), x) },
            decreases rest@.len(),
        {
            let ghost ei = e[i as int];
            assert(e.skip(i as int)[0] == ei);
            let (k, v) = rest.remove(0);
            assert(rest@ =~= e.skip(i + 1));
            assert(e.take(i + 1) =~= e.take(i as int).push(ei));
            proof {
                assert forall|jj: int| 0 <= jj < e.take(i as int).len() implies #[trigger] e.take(i as int)[jj].0@ != ei.0@ by {
                    lemma_lt_irrefl(ei.0@);
                    assert(seq_lt(e[jj].0@, e[i as int].0@));
                }
                lemma_lookup_absent(e.take(i as int), ei.0@);
                assert forall|x: Seq<char>| #[trigger] lookup(e.take(i + 1), x) == match lookup(e.take(i as int), x) {
                    Some(v) => Some(v),
                    None => if ei.0@ == x { Some(ei.1) } else { None },
                } by {
                    lemma_lookup_push(e.take(i as int), ei, x);
                }
            }
            let kc = chars_of(k.as_str());
            let gone = chars_eq(&kc, path) || starts_with_chars(&kc, &dotted);
            if !gone {
                out.insert(k, v);
            }
            i = i + 1;
        }
        assert(e.take(i as int) =~= e);
        *self = out;
    }

    /// In a sorted map the keys are distinct, and each finds its entry.
    pub proof fn lemma_keys_distinct(m: Self, i: int)
        requires
            m.wf(),
            0 <= i < m.entries().len(),
        ensures
            forall|j: int| 0 <= j < m.entries().len() && j != i ==> #[trigger] m.entries()[j].0@ != m.entries()[i].0@,
            m.get_spec(m.entries()[i].0@) == Some(m.entries()[i].1),
    {
        assert forall|j: int| 0 <= j < m.entries().len() && j != i implies #[trigger] m.entries()[j].0@ != m.entries()[i].0@ by {
            lemma_lt_irrefl(m.entries()[i].0@);
            if j < i {
                assert(seq_lt(m.entries@[j].0@, m.entries@[i].0@));
            } else {
                assert(seq_lt(m.entries@[i].0@, m.entries@[j].0@));
            }
        }
        lemma_lookup(m.entries@, i, m.entries@[i].0@);
    }

    /// The stored keys are exactly the keys of the entries.
    pub proof fn lemma_keys_are_entries(m: Self)
        requires
            m.wf(),
        ensures
            forall|k: Seq<char>| #[trigger] m.get_spec(k) is Some <==> exists|j: int| 0 <= j < m.entries().len() && #[trigger] m.entries()[j].0@ == k,
    {
        assert forall|k: Seq<char>| #[trigger] m.get_spec(k) is Some <==> exists|j: int| 0 <= j < m.entries().len() && #[trigger] m.entries()[j].0@ == k by {
            if exists|j: int| 0 <= j < m.entries().len() && #[trigger] m.entries()[j].0@ == k {
                let j = choose|j: int| 0 <= j < m.entries().len() && #[trigger] m.entries()[j].0@ == k;
                lemma_lookup(m.entries@, j, k);
            } else {
                lemma_lookup_absent(m.entries@, k);
            }
        }
    }

    /// Every stored key has its entry's value.
    pub proof fn lemma_entry(&self, i: int)
        requires
            self.wf(),
            0 <= i < self.entries().len(),
        ensures
            self.get_spec(self.entries()[i].0@) == Some(self.entries()[i].1),
    {
        lemma_lookup(self.entries@, i, self.entries@[i].0@);
    }
}

} // verus!
