//! The cross-field checks that a metadata set carries: kept with their paths
//! in normal form, each check once.
use vstd::prelude::*;
use crate::config::ConfigMetadata;
use crate::rules::{ValidationCheck, ValidationValue};
use crate::json::{Json, json_eq, clone_value};
use crate::syntax::{metadata_path_result, index_overflows, normalize_metadata_path, lemma_metadata_form_readable};
use crate::metadata::metadata_normal;
use crate::text::{string_views, str_eq};

verus! {

/// What a check says: its kind (in declaration order of the variants), the
/// paths of a group check, the path of a conditional check, the value it
/// compares against, and the paths it requires.
pub struct CheckModel {
    pub kind: nat,
    pub group: Seq<Seq<char>>,
    pub path: Seq<char>,
    pub equals: Option<Json>,
    pub requires: Seq<Seq<char>>,
}

pub open spec fn group_model(kind: nat, group: Seq<Seq<char>>) -> CheckModel {
    CheckModel { kind, group, path: Seq::empty(), equals: None, requires: Seq::empty() }
}

pub open spec fn check_model(c: ValidationCheck) -> CheckModel {
    match c {
        ValidationCheck::AtLeastOneOf { paths } => group_model(0, string_views(paths@)),
        ValidationCheck::ExactlyOneOf { paths } => group_model(1, string_views(paths@)),
        ValidationCheck::MutuallyExclusive { paths } => group_model(2, string_views(paths@)),
        ValidationCheck::RequiredWith { path, requires: req } =>
            CheckModel { kind: 3, group: Seq::empty(), path: path@, equals: None, requires: string_views(req@) },
        ValidationCheck::RequiredIf { path, equals, requires: req } =>
            CheckModel { kind: 4, group: Seq::empty(), path: path@, equals: Some(equals.0@), requires: string_views(req@) },
    }
}

/// The paths without repeats, each kept where it first occurs.
pub open spec fn dedup_paths(s: Seq<Seq<char>>) -> Seq<Seq<char>>
    decreases s.len(),
{
    if s.len() == 0 {
        Seq::empty()
    } else {
        let d = dedup_paths(s.drop_last());
        if d.contains(s.last()) { d } else { d.push(s.last()) }
    }
}

/// A group of paths in normal form without repeats; none when empty.
pub open spec fn group_normal(ps: Seq<Seq<char>>) -> Option<Seq<Seq<char>>> {
    let d = dedup_paths(ps.map_values(|p: Seq<char>| metadata_normal(p)));
    if d.len() == 0 { None } else { Some(d) }
}

/// A check in normal form; none when a group it needs is empty.
pub open spec fn check_normal(c: ValidationCheck) -> Option<CheckModel> {
    let m = check_model(c);
    if m.kind <= 2 {
        match group_normal(m.group) {
            Some(g) => Some(CheckModel { group: g, ..m }),
            None => None,
        }
    } else {
        match group_normal(m.requires) {
            Some(g) => Some(CheckModel { path: metadata_normal(m.path), requires: g, ..m }),
            None => None,
        }
    }
}

/// Every path of every check can be read without an index too large for
/// `usize`.
pub open spec fn check_readable(m: CheckModel) -> bool {
    &&& !index_overflows(m.path)
    &&& forall|i: int| 0 <= i < m.group.len() ==> !index_overflows(#[trigger] m.group[i])
    &&& forall|i: int| 0 <= i < m.requires.len() ==> !index_overflows(#[trigger] m.requires[i])
}

pub open spec fn checks_readable(ms: Seq<CheckModel>) -> bool {
    forall|i: int| 0 <= i < ms.len() ==> check_readable(#[trigger] ms[i])
}

/// The checks after one more is added: dropped when it normalizes to
/// nothing or to a check already held.
pub open spec fn add_check(ms: Seq<CheckModel>, c: ValidationCheck) -> Seq<CheckModel> {
    match check_normal(c) {
        None => ms,
        Some(m) => if ms.contains(m) { ms } else { ms.push(m) },
    }
}

pub open spec fn add_checks(ms: Seq<CheckModel>, cs: Seq<ValidationCheck>) -> Seq<CheckModel>
    decreases cs.len(),
{
    if cs.len() == 0 { ms } else { add_check(add_checks(ms, cs.drop_last()), cs.last()) }
}

/// Adding a check a second time changes nothing.
pub proof fn law_add_check_idempotent(ms: Seq<CheckModel>, c: ValidationCheck)
    ensures
        add_check(add_check(ms, c), c) == add_check(ms, c),
{
    if let Some(m) = check_normal(c) {
        if !ms.contains(m) {
            assert(ms.push(m)[ms.len() as int] == m);
        }
    }
}

fn strings_eq(a: &Vec<String>, b: &Vec<String>) -> (r: bool)
    ensures
        r == (string_views(a@) == string_views(b@)),
{
    if a.len() != b.len() {
        assert(string_views(a@).len() != string_views(b@).len());
        return false;
    }
    let mut i: usize = 0;
    while i < a.len()
        invariant
            i <= a@.len(),
            a@.len() == b@.len(),
            forall|j: int| 0 <= j < i ==> (#[trigger] a@[j])@ == b@[j]@,
        decreases a@.len() - i,
    {
        if !str_eq(a[i].as_str(), b[i].as_str()) {
            assert(string_views(a@)[i as int] != string_views(b@)[i as int]);
            return false;
        }
        i = i + 1;
    }
    assert(string_views(a@) =~= string_views(b@));
    true
}

fn check_eq(a: &ValidationCheck, b: &ValidationCheck) -> (r: bool)
    ensures
        r == (check_model(*a) == check_model(*b)),
{
    match (a, b) {
        (ValidationCheck::AtLeastOneOf { paths: x }, ValidationCheck::AtLeastOneOf { paths: y }) => strings_eq(x, y),
        (ValidationCheck::ExactlyOneOf { paths: x }, ValidationCheck::ExactlyOneOf { paths: y }) => strings_eq(x, y),
        (ValidationCheck::MutuallyExclusive { paths: x }, ValidationCheck::MutuallyExclusive { paths: y }) => strings_eq(x, y),
        (ValidationCheck::RequiredWith { path: p, requires: x }, ValidationCheck::RequiredWith { path: q, requires: y }) =>
            str_eq(p.as_str(), q.as_str()) && strings_eq(x, y),
        (ValidationCheck::RequiredIf { path: p, equals: e, requires: x }, ValidationCheck::RequiredIf { path: q, equals: f, requires: y }) =>
            str_eq(p.as_str(), q.as_str()) && json_eq(&e.0, &f.0) && strings_eq(x, y),
        _ => false,
    }
}

fn contains_path(v: &Vec<String>, p: &String) -> (r: bool)
    ensures
        r == string_views(v@).contains(p@),
{
    let mut i: usize = 0;
    while i < v.len()
        invariant
            i <= v@.len(),
            forall|j: int| 0 <= j < i ==> (#[trigger] v@[j])@ != p@,
        decreases v@.len() - i,
    {
        if str_eq(v[i].as_str(), p.as_str()) {
            assert(string_views(v@)[i as int] == p@);
            return true;
        }
        i = i + 1;
    }
    assert forall|j: int| 0 <= j < string_views(v@).len() implies string_views(v@)[j] != p@ by {
        assert(string_views(v@)[j] == v@[j]@);
    }
    false
}

fn normalize_group(paths: &Vec<String>) -> (r: Option<Vec<String>>)
    requires
        forall|i: int| 0 <= i < paths@.len() ==> !index_overflows(#[trigger] paths@[i]@),
    ensures
        match r {
            Some(g) => group_normal(string_views(paths@)) == Some(string_views(g@)),
            None => group_normal(string_views(paths@)) is None,
        },
        r matches Some(g) ==> forall|i: int| 0 <= i < g@.len() ==> !index_overflows(#[trigger] g@[i]@),
{
    let ghost src = string_views(paths@).map_values(|p: Seq<char>| metadata_normal(p));
    let mut out: Vec<String> = Vec::new();
    let mut i: usize = 0;
    while i < paths.len()
        invariant
            i <= paths@.len(),
            forall|j: int| 0 <= j < paths@.len() ==> !index_overflows(#[trigger] paths@[j]@),
            src == string_views(paths@).map_values(|p: Seq<char>| metadata_normal(p)),
            string_views(out@) == dedup_paths(src.take(i as int)),
            forall|j: int| 0 <= j < out@.len() ==> !index_overflows(#[trigger] out@[j]@),
        decreases paths@.len() - i,
    {
        assert(!index_overflows(paths@[i as int]@));
        let n = normalize_metadata_path(paths[i].as_str());
        proof {
            assert(src.take(i + 1).drop_last() =~= src.take(i as int));
            assert(src.take(i + 1).last() == metadata_normal(paths@[i as int]@));
            if metadata_path_result(paths@[i as int]@) is Ok {
                lemma_metadata_form_readable(paths@[i as int]@);
            }
        }
        if !contains_path(&out, &n) {
            let ghost before = string_views(out@);
            out.push(n);
            assert(string_views(out@) =~= before.push(n@));
        }
        i = i + 1;
    }
    assert(src.take(paths@.len() as int) =~= src);
    if out.len() == 0 {
        None
    } else {
        Some(out)
    }
}

proof fn lemma_views_readable(v: Seq<String>)
    ensures
        (forall|i: int| 0 <= i < string_views(v).len() ==> !index_overflows(#[trigger] string_views(v)[i]))
            <==> (forall|i: int| 0 <= i < v.len() ==> !index_overflows(#[trigger] v[i]@)),
{
    if forall|i: int| 0 <= i < string_views(v).len() ==> !index_overflows(#[trigger] string_views(v)[i]) {
        assert forall|i: int| 0 <= i < v.len() implies !index_overflows(#[trigger] v[i]@) by {
            assert(string_views(v)[i] == v[i]@);
        }
    }
    if forall|i: int| 0 <= i < v.len() ==> !index_overflows(#[trigger] v[i]@) {
        assert forall|i: int| 0 <= i < string_views(v).len() implies !index_overflows(#[trigger] string_views(v)[i]) by {
            assert(string_views(v)[i] == v[i]@);
        }
    }
}

/// The check with its paths in normal form, or none when a group it needs
/// is empty.
pub fn normalize_check(c: &ValidationCheck) -> (r: Option<ValidationCheck>)
    requires
        check_readable(check_model(*c)),
    ensures
        match r {
            Some(n) => check_normal(*c) == Some(check_model(n)) && check_readable(check_model(n)),
            None => check_normal(*c) is None,
        },
{
    match c {
        ValidationCheck::AtLeastOneOf { paths } => match { proof { lemma_views_readable(paths@); } normalize_group(paths) } {
            Some(g) => {
                proof { lemma_views_readable(g@); }
                Some(ValidationCheck::AtLeastOneOf { paths: g })
            },
            None => None,
        },
        ValidationCheck::ExactlyOneOf { paths } => match { proof { lemma_views_readable(paths@); } normalize_group(paths) } {
            Some(g) => {
                proof { lemma_views_readable(g@); }
                Some(ValidationCheck::ExactlyOneOf { paths: g })
            },
            None => None,
        },
        ValidationCheck::MutuallyExclusive { paths } => match { proof { lemma_views_readable(paths@); } normalize_group(paths) } {
            Some(g) => {
                proof { lemma_views_readable(g@); }
                Some(ValidationCheck::MutuallyExclusive { paths: g })
            },
            None => None,
        },
        ValidationCheck::RequiredWith { path, requires: req } => {
            let p = normalize_metadata_path(path.as_str());
            proof {
                if metadata_path_result(path@) is Ok {
                    lemma_metadata_form_readable(path@);
                }
            }
            proof {
                lemma_views_readable(req@);
            }
            match normalize_group(req) {
                Some(g) => {
                    proof { lemma_views_readable(g@); }
                    Some(ValidationCheck::RequiredWith { path: p, requires: g })
                },
                None => None,
            }
        },
        ValidationCheck::RequiredIf { path, equals, requires: req } => {
            let p = normalize_metadata_path(path.as_str());
            proof {
                if metadata_path_result(path@) is Ok {
                    lemma_metadata_form_readable(path@);
                }
            }
            proof {
                lemma_views_readable(req@);
            }
            match normalize_group(req) {
                Some(g) => {
                    proof { lemma_views_readable(g@); }
                    Some(ValidationCheck::RequiredIf { path: p, equals: ValidationValue(clone_value(&equals.0)), requires: g })
                },
                None => None,
            }
        },
    }
}

fn contains_check(v: &Vec<ValidationCheck>, c: &ValidationCheck) -> (r: bool)
    ensures
        r == v@.map_values(|x: ValidationCheck| check_model(x)).contains(check_model(*c)),
{
    let ghost ms = v@.map_values(|x: ValidationCheck| check_model(x));
    let mut i: usize = 0;
    while i < v.len()
        invariant
            i <= v@.len(),
            ms == v@.map_values(|x: ValidationCheck| check_model(x)),
            forall|j: int| 0 <= j < i ==> check_model(#[trigger] v@[j]) != check_model(*c),
        decreases v@.len() - i,
    {
        if check_eq(&v[i], c) {
            assert(ms[i as int] == check_model(*c));
            return true;
        }
        i = i + 1;
    }
    assert forall|j: int| 0 <= j < ms.len() implies ms[j] != check_model(*c) by {
        assert(ms[j] == check_model(v@[j]));
    }
    false
}

impl ConfigMetadata {
    /// The cross-field checks, in normal form and in the order added.
    pub fn checks(&self) -> (r: &Vec<ValidationCheck>)
        ensures
            r@.map_values(|c: ValidationCheck| check_model(c)) == self.checks_spec(),
            r@ == self.check_list(),
    {
        proof {
            crate::config::lemma_checks_spec(*self);
        }
        &self.checks
    }

    /// Adds a cross-field check with its paths in normal form, unless it
    /// has no paths to check or an equal check is already held.
    pub fn push_check(&mut self, check: ValidationCheck)
        requires
            checks_readable(old(self).checks_spec()),
            check_readable(check_model(check)),
        ensures
            final(self).checks_spec() == add_check(old(self).checks_spec(), check),
            final(self).fields_spec() == old(self).fields_spec(),
            checks_readable(final(self).checks_spec()),
    {
        proof {
            crate::config::lemma_checks_spec(*old(self));
            crate::config::lemma_fields_spec(*old(self));
        }
        let ghost before = old(self).checks_spec();
        match normalize_check(&check) {
            None => {},
            Some(n) => {
                if !contains_check(&self.checks, &n) {
                    let ghost nm = check_model(n);
                    self.checks.push(n);
                    proof {
                        assert(self.checks@.map_values(|c: ValidationCheck| check_model(c)) =~= before.push(nm));
                    }
                }
            },
        }
        proof {
            crate::config::lemma_checks_spec(*self);
            crate::config::lemma_fields_spec(*self);
        }
    }

    /// Adds several checks, as `push_check` does one by one.
    pub fn extend_checks(&mut self, checks: Vec<ValidationCheck>)
        requires
            checks_readable(old(self).checks_spec()),
            forall|i: int| 0 <= i < checks@.len() ==> check_readable(check_model(#[trigger] checks@[i])),
        ensures
            final(self).checks_spec() == add_checks(old(self).checks_spec(), checks@),
            final(self).fields_spec() == old(self).fields_spec(),
            checks_readable(final(self).checks_spec()),
    {
        let ghost start = old(self).checks_spec();
        let ghost fs = old(self).fields_spec();
        let mut rest = checks;
        let ghost all = rest@;
        let mut i: usize = 0;
        let n = rest.len();
        assert(all.take(0) =~= Seq::<ValidationCheck>::empty());
        while i < n
            invariant
                n == all.len(),
                i <= n,
                rest@ == all.subrange(i as int, n as int),
                forall|j: int| 0 <= j < all.len() ==> check_readable(check_model(#[trigger] all[j])),
                self.checks_spec() == add_checks(start, all.take(i as int)),
                self.fields_spec() == fs,
                checks_readable(self.checks_spec()),
            decreases n - i,
        {
            let c = rest.remove(0);
            assert(c == all[i as int]);
            assert(all.take(i + 1).drop_last() =~= all.take(i as int));
            self.push_check(c);
            assert(rest@ =~= all.subrange(i + 1, n as int));
            i = i + 1;
        }
        assert(all.take(n as int) =~= all);
    }
}

impl ConfigMetadata {
    /// The metadata with one more cross-field check (see `push_check`).
    pub fn check(self, check: ValidationCheck) -> (r: Self)
        requires
            checks_readable(self.checks_spec()),
            check_readable(check_model(check)),
        ensures
            r.checks_spec() == add_check(self.checks_spec(), check),
            r.fields_spec() == self.fields_spec(),
            checks_readable(r.checks_spec()),
    {
        let mut m = self;
        m.push_check(check);
        m
    }

    /// Requires that at least one of the paths is configured.
    pub fn at_least_one_of(self, paths: Vec<String>) -> (r: Self)
        requires
            checks_readable(self.checks_spec()),
            check_readable(check_model(ValidationCheck::AtLeastOneOf { paths })),
        ensures
            r.checks_spec() == add_check(self.checks_spec(), ValidationCheck::AtLeastOneOf { paths }),
            r.fields_spec() == self.fields_spec(),
    {
        self.check(ValidationCheck::AtLeastOneOf { paths })
    }

    /// Requires that exactly one of the paths is configured.
    pub fn exactly_one_of(self, paths: Vec<String>) -> (r: Self)
        requires
            checks_readable(self.checks_spec()),
            check_readable(check_model(ValidationCheck::ExactlyOneOf { paths })),
        ensures
            r.checks_spec() == add_check(self.checks_spec(), ValidationCheck::ExactlyOneOf { paths }),
            r.fields_spec() == self.fields_spec(),
    {
        self.check(ValidationCheck::ExactlyOneOf { paths })
    }

    /// Requires that at most one of the paths is configured.
    pub fn mutually_exclusive(self, paths: Vec<String>) -> (r: Self)
        requires
            checks_readable(self.checks_spec()),
            check_readable(check_model(ValidationCheck::MutuallyExclusive { paths })),
        ensures
            r.checks_spec() == add_check(self.checks_spec(), ValidationCheck::MutuallyExclusive { paths }),
            r.fields_spec() == self.fields_spec(),
    {
        self.check(ValidationCheck::MutuallyExclusive { paths })
    }

    /// Requires the paths `req` whenever `path` is configured.
    pub fn required_with(self, path: String, req: Vec<String>) -> (r: Self)
        requires
            checks_readable(self.checks_spec()),
            check_readable(check_model(ValidationCheck::RequiredWith { path, requires: req })),
        ensures
            r.checks_spec() == add_check(self.checks_spec(), ValidationCheck::RequiredWith { path, requires: req }),
            r.fields_spec() == self.fields_spec(),
    {
        self.check(ValidationCheck::RequiredWith { path, requires: req })
    }

    /// Requires the paths `req` whenever `path` equals `equals`.
    pub fn required_if(self, path: String, equals: ValidationValue, req: Vec<String>) -> (r: Self)
        requires
            checks_readable(self.checks_spec()),
            check_readable(check_model(ValidationCheck::RequiredIf { path, equals, requires: req })),
        ensures
            r.checks_spec() == add_check(self.checks_spec(), ValidationCheck::RequiredIf { path, equals, requires: req }),
            r.fields_spec() == self.fields_spec(),
    {
        self.check(ValidationCheck::RequiredIf { path, equals, requires: req })
    }
}

} // verus!
