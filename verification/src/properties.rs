//! Laws that tie the layer merge, the declared rules and checks, the path
//! suggestions, the migrations, the command-line overrides and the
//! environment decoders to what they are for.
use vstd::prelude::*;
use crate::text::{decimal, is_space, split, nonempty, string_views};
use crate::path::{joined, segments};
use crate::docs::trim;
use crate::json::{Json, entry_get, entry_insert, entry_remove, lemma_get_inserted, walk, child_at, replace_child, taken,
    runtime_path, insert_result, law_walk_after_insert};
use crate::config::FieldMetadata;
use crate::metadata::{MergeStrategy, EnvDecoder};
use crate::merge::{merged, patch_items, strategy_at, law_unmentioned_key_kept};
use crate::rules::{ValidationRule, ValidationCheck, RuleProbe, rule_result, json_len, rule_code, value_jsons, check_errors,
    present, present_of};
use crate::validate::{IpKind, hostname_ok};
use crate::strmap::StrMap;
use crate::suggest::{suggestion, sibling_scan, overall_scan, edit_distance, materialized, utf8_len, max_nat, external_form,
    rsplit_dot};
use crate::sources::{ConfigMigration, ConfigMigrationKind};
use crate::migrate::{MigState, mig_step, mig_path};
use crate::overrides::{decoded, kv_fold, csv_items};
use crate::args::{ArgsView, set_step, set_parts, override_result, json_syntax};
use crate::syntax::external_path_result;

verus! {

/// What patching the first `n` overlay items does to target item `i`: it
/// stays until the overlay reaches it, and a present item meets a present
/// overlay item by merging.
proof fn lemma_patch_item(
    fs: Seq<FieldMetadata>,
    t: Seq<Json>,
    o: Seq<Json>,
    n: nat,
    path: Seq<char>,
    indexed: Seq<Seq<char>>,
    direct: Seq<Seq<char>>,
    i: nat,
)
    requires
        i < t.len(),
    ensures
        patch_items(fs, t, o, n, path, indexed, direct).len() >= t.len(),
        (n <= i || n > o.len()) ==> patch_items(fs, t, o, n, path, indexed, direct)[i as int] == t[i as int],
        (i < n <= o.len() && !(o[i as int] is Null) && !(t[i as int] is Null)) ==> patch_items(fs, t, o, n, path, indexed, direct)[i as int]
            == merged(fs, t[i as int], o[i as int], joined(path, decimal(i)), indexed, direct),
        (i < n <= o.len() && !(o[i as int] is Null) && t[i as int] is Null) ==> patch_items(fs, t, o, n, path, indexed, direct)[i as int]
            == o[i as int],
        (i < o.len() && o[i as int] is Null) ==> patch_items(fs, t, o, n, path, indexed, direct)[i as int] == t[i as int],
    decreases n,
{
    if n == 0 || n > o.len() {
    } else {
        lemma_patch_item(fs, t, o, (n - 1) as nat, path, indexed, direct, i);
        let acc = patch_items(fs, t, o, (n - 1) as nat, path, indexed, direct);
        let m = (n - 1) as nat;
        let p = crate::json::padded(acc, m, Json::Null);
        assert(p.len() >= acc.len());
        assert(p[i as int] == acc[i as int]);
    }
}

/// Patching past the end of the target: the array only grows as far as the
/// overlay reaches, and a present overlay item lands at its index.
proof fn lemma_patch_beyond(
    fs: Seq<FieldMetadata>,
    t: Seq<Json>,
    o: Seq<Json>,
    n: nat,
    path: Seq<char>,
    indexed: Seq<Seq<char>>,
    direct: Seq<Seq<char>>,
    i: nat,
)
    requires
        t.len() <= i,
    ensures
        patch_items(fs, t, o, n, path, indexed, direct).len() >= t.len(),
        n <= o.len() ==> patch_items(fs, t, o, n, path, indexed, direct).len() <= (if n > t.len() { n } else { t.len() }),
        (i < n <= o.len() && !(o[i as int] is Null)) ==> i < patch_items(fs, t, o, n, path, indexed, direct).len()
            && patch_items(fs, t, o, n, path, indexed, direct)[i as int] == o[i as int],
    decreases n,
{
    if n == 0 || n > o.len() {
    } else {
        lemma_patch_beyond(fs, t, o, (n - 1) as nat, path, indexed, direct, i);
        let acc = patch_items(fs, t, o, (n - 1) as nat, path, indexed, direct);
        let m = (n - 1) as nat;
        let p = crate::json::padded(acc, m, Json::Null);
        assert(p.len() >= acc.len());
        assert(p.len() <= (if n > acc.len() { n } else { acc.len() as nat }));
        if m == i {
            assert(acc.len() <= i);
            assert(p[i as int] == Json::Null);
        } else if i < m {
            if i < acc.len() {
                assert(p[i as int] == acc[i as int]);
            }
        }
    }
}

/// An indexed array patch puts a present overlay item where the target has
/// nothing (past its end, or a null), and leaves a target item alone where
/// the overlay item is null; the array never shrinks.
pub proof fn law_indexed_patch_places_items(
    fs: Seq<FieldMetadata>,
    t: Seq<Json>,
    o: Seq<Json>,
    path: Seq<char>,
    indexed: Seq<Seq<char>>,
    direct: Seq<Seq<char>>,
    i: nat,
)
    requires
        indexed.contains(path),
        !direct.contains(path),
        path.len() > 0,
        i < o.len(),
    ensures
        merged(fs, Json::Array(t), Json::Array(o), path, indexed, direct) is Array,
        merged(fs, Json::Array(t), Json::Array(o), path, indexed, direct)->Array_0.len() >= t.len(),
        !(o[i as int] is Null) && (i >= t.len() || t[i as int] is Null) ==> ({
            let r = merged(fs, Json::Array(t), Json::Array(o), path, indexed, direct)->Array_0;
            i < r.len() && r[i as int] == o[i as int]
        }),
        o[i as int] is Null && i < t.len()
            ==> merged(fs, Json::Array(t), Json::Array(o), path, indexed, direct)->Array_0[i as int] == t[i as int],
{
    if i < t.len() {
        lemma_patch_item(fs, t, o, o.len(), path, indexed, direct, i);
    } else {
        lemma_patch_beyond(fs, t, o, o.len(), path, indexed, direct, i);
    }
}

/// Away from an indexed array patch, a path declared `Replace` takes the
/// overlay whole, and a path declared `Append` concatenates arrays, target
/// items first.
pub proof fn law_merge_strategies(
    fs: Seq<FieldMetadata>,
    target: Json,
    overlay: Json,
    path: Seq<char>,
    indexed: Seq<Seq<char>>,
    direct: Seq<Seq<char>>,
)
    requires
        path.len() > 0,
        !indexed.contains(path) || direct.contains(path),
    ensures
        strategy_at(fs, path) == MergeStrategy::Replace ==> merged(fs, target, overlay, path, indexed, direct) == overlay,
        (strategy_at(fs, path) == MergeStrategy::Append && target is Array && overlay is Array)
            ==> merged(fs, target, overlay, path, indexed, direct) == Json::Array(target->Array_0 + overlay->Array_0),
{
}

/// An indexed array patch merges into an item that holds an object: keys
/// the overlay item does not mention keep their values, as when objects
/// merge.
pub proof fn law_indexed_patch_keeps_item_keys(
    fs: Seq<FieldMetadata>,
    t: Seq<Json>,
    o: Seq<Json>,
    path: Seq<char>,
    indexed: Seq<Seq<char>>,
    direct: Seq<Seq<char>>,
    i: nat,
    k: Seq<char>,
)
    requires
        indexed.contains(path),
        !direct.contains(path),
        path.len() > 0,
        i < t.len(),
        i < o.len(),
        t[i as int] is Object,
        o[i as int] is Object,
        strategy_at(fs, joined(path, decimal(i))) != MergeStrategy::Replace,
        forall|j: int| 0 <= j < o[i as int]->Object_0.len() ==> (#[trigger] o[i as int]->Object_0[j]).0 != k,
    ensures
        ({
            &&& merged(fs, Json::Array(t), Json::Array(o), path, indexed, direct) matches Json::Array(r)
            &&& i < r.len()
            &&& r[i as int] matches Json::Object(re)
            &&& entry_get(re, k) == entry_get(t[i as int]->Object_0, k)
        }),
{
    lemma_patch_item(fs, t, o, o.len(), path, indexed, direct, i);
    let te = t[i as int]->Object_0;
    let oe = o[i as int]->Object_0;
    law_unmentioned_key_kept(fs, te, oe, joined(path, decimal(i)), indexed, direct, k);
}

/// The non-empty rule fails exactly on an empty string, array or object,
/// and says so.
pub proof fn law_non_empty_rejects_exactly_empty(
    path: Seq<char>,
    actual: Json,
    secrets: Seq<Seq<char>>,
    probe: RuleProbe,
    ips: Map<Seq<char>, IpKind>,
)
    ensures
        rule_result(path, actual, ValidationRule::NonEmpty, secrets, probe, ips) is Some <==> json_len(actual) == Some(0nat),
        rule_result(path, actual, ValidationRule::NonEmpty, secrets, probe, ips) matches Some(e)
            ==> e.message == "must not be empty"@ && e.path == path,
{
}

/// Every failing rule reports the path it checked and its own code.
pub proof fn law_rule_error_names_rule(
    path: Seq<char>,
    actual: Json,
    rule: ValidationRule,
    secrets: Seq<Seq<char>>,
    probe: RuleProbe,
    ips: Map<Seq<char>, IpKind>,
)
    ensures
        rule_result(path, actual, rule, secrets, probe, ips) matches Some(e) ==> e.path == path && e.rule == Some(rule_code(rule)),
{
}

/// The counting rules pass exactly when the count they measure is within
/// their bound: characters, items or entries for the length rules, items of
/// an array, entries of an object; a value they cannot count fails.
pub proof fn law_count_rules_bound(
    path: Seq<char>,
    actual: Json,
    n: usize,
    secrets: Seq<Seq<char>>,
    probe: RuleProbe,
    ips: Map<Seq<char>, IpKind>,
)
    ensures
        rule_result(path, actual, ValidationRule::MinLength(n), secrets, probe, ips) is None
            <==> (json_len(actual) matches Some(l) && l >= n),
        rule_result(path, actual, ValidationRule::MaxLength(n), secrets, probe, ips) is None
            <==> (json_len(actual) matches Some(l) && l <= n),
        rule_result(path, actual, ValidationRule::MinItems(n), secrets, probe, ips) is None
            <==> (actual matches Json::Array(items) && items.len() >= n),
        rule_result(path, actual, ValidationRule::MaxItems(n), secrets, probe, ips) is None
            <==> (actual matches Json::Array(items) && items.len() <= n),
        rule_result(path, actual, ValidationRule::MinProperties(n), secrets, probe, ips) is None
            <==> (actual matches Json::Object(es) && es.len() >= n),
        rule_result(path, actual, ValidationRule::MaxProperties(n), secrets, probe, ips) is None
            <==> (actual matches Json::Object(es) && es.len() <= n),
{
}

/// Unique items pass exactly on an array with no two equal items; one-of
/// passes exactly on one of its values; the hostname rule passes exactly on
/// a valid hostname string.
pub proof fn law_membership_rules(
    path: Seq<char>,
    actual: Json,
    values: Vec<crate::rules::ValidationValue>,
    secrets: Seq<Seq<char>>,
    probe: RuleProbe,
    ips: Map<Seq<char>, IpKind>,
)
    ensures
        rule_result(path, actual, ValidationRule::UniqueItems, secrets, probe, ips) is None
            <==> (actual matches Json::Array(items)
                && forall|i: int, j: int| 0 <= i < j < items.len() ==> (#[trigger] items[i]) != (#[trigger] items[j])),
        rule_result(path, actual, ValidationRule::OneOf(values), secrets, probe, ips) is None
            <==> value_jsons(values@).contains(actual),
        rule_result(path, actual, ValidationRule::Hostname, secrets, probe, ips) is None
            <==> (actual matches Json::Str(s) && hostname_ok(s)),
{
}

/// None of the paths is configured exactly when none is found present.
proof fn lemma_present_none(j: Json, ps: Seq<Seq<char>>)
    ensures
        present_of(j, ps).len() == 0 <==> forall|i: int| 0 <= i < ps.len() ==> !present(j, #[trigger] ps[i]),
    decreases ps.len(),
{
    if ps.len() > 0 {
        let front = ps.drop_last();
        lemma_present_none(j, front);
        if present_of(j, ps).len() == 0 {
            assert forall|i: int| 0 <= i < ps.len() implies !present(j, #[trigger] ps[i]) by {
                if i < front.len() {
                    assert(ps[i] == front[i]);
                }
            }
        }
        if forall|i: int| 0 <= i < ps.len() ==> !present(j, #[trigger] ps[i]) {
            assert(!present(j, ps[ps.len() - 1]));
            assert forall|i: int| 0 <= i < front.len() implies !present(j, #[trigger] front[i]) by {
                assert(ps[i] == front[i]);
            }
        }
    }
}

/// At least two of the paths are configured exactly when two positions
/// hold configured paths.
proof fn lemma_present_two(j: Json, ps: Seq<Seq<char>>)
    ensures
        present_of(j, ps).len() > 1 <==> exists|a: int, b: int| 0 <= a < b < ps.len() && present(j, #[trigger] ps[a])
            && present(j, #[trigger] ps[b]),
    decreases ps.len(),
{
    if ps.len() > 0 {
        let front = ps.drop_last();
        let last = ps[ps.len() - 1];
        lemma_present_two(j, front);
        lemma_present_none(j, front);
        if present_of(j, ps).len() > 1 {
            if present(j, last) {
                assert(present_of(j, front).len() > 0);
                let a = choose|a: int| 0 <= a < front.len() && present(j, #[trigger] front[a]);
                assert(ps[a] == front[a]);
                assert(present(j, ps[a]) && present(j, ps[ps.len() - 1]));
            } else {
                let (a, b) = choose|a: int, b: int| 0 <= a < b < front.len() && present(j, #[trigger] front[a])
                    && present(j, #[trigger] front[b]);
                assert(ps[a] == front[a] && ps[b] == front[b]);
            }
        }
        if exists|a: int, b: int| 0 <= a < b < ps.len() && present(j, #[trigger] ps[a]) && present(j, #[trigger] ps[b]) {
            let (a, b) = choose|a: int, b: int| 0 <= a < b < ps.len() && present(j, #[trigger] ps[a]) && present(j, #[trigger] ps[b]);
            assert(ps[a] == front[a]);
            if b < ps.len() - 1 {
                assert(ps[b] == front[b]);
                assert(present(j, front[a]) && present(j, front[b]));
            } else {
                assert(present(j, front[a]));
                assert(present_of(j, front).len() > 0);
            }
        }
    }
}

/// `at_least_one_of` fails exactly when none of its paths is configured;
/// `mutually_exclusive` fails exactly when two of its paths are.
pub proof fn law_group_checks_count_present(j: Json, paths: Vec<String>, secrets: Seq<Seq<char>>)
    ensures
        check_errors(j, ValidationCheck::AtLeastOneOf { paths }, secrets).len() > 0
            <==> forall|i: int| 0 <= i < paths@.len() ==> !present(j, #[trigger] string_views(paths@)[i]),
        check_errors(j, ValidationCheck::MutuallyExclusive { paths }, secrets).len() > 0
            <==> exists|a: int, b: int| 0 <= a < b < paths@.len() && present(j, #[trigger] string_views(paths@)[a])
                && present(j, #[trigger] string_views(paths@)[b]),
{
    let ps = string_views(paths@);
    lemma_present_none(j, ps);
    lemma_present_two(j, ps);
    assert(ps.len() == paths@.len());
}

/// The nearest path overall is no farther than any one path.
proof fn lemma_overall_scan_nearest(es: Seq<(String, String)>, n: nat, norm: Seq<char>, j: int)
    requires
        0 <= j < n <= es.len(),
    ensures
        overall_scan(es, n, norm) is Some,
        overall_scan(es, n, norm)->Some_0.0 <= edit_distance(norm, materialized(es[j].0@, norm)),
    decreases n,
{
    if j < n - 1 {
        lemma_overall_scan_nearest(es, (n - 1) as nat, norm, j);
    }
}

/// What the overall scan offers is the canonical path of one of the scanned
/// entries.
proof fn lemma_overall_scan_from(es: Seq<(String, String)>, n: nat, norm: Seq<char>)
    ensures
        overall_scan(es, n, norm) matches Some(b)
            ==> exists|j: int| 0 <= j < n && j < es.len() && b.1 == materialized(#[trigger] es[j].1@, norm),
    decreases n,
{
    if n > 0 && n <= es.len() {
        lemma_overall_scan_from(es, (n - 1) as nat, norm);
        assert(0 <= n - 1 < es.len());
    }
}

/// An entry whose spelled path has the same parent as `norm`.
pub open spec fn is_sibling(e: (String, String), norm: Seq<char>) -> bool {
    rsplit_dot(materialized(e.0@, norm)).0 == rsplit_dot(norm).0
}

/// How far the last segment of an entry's spelled path is from that of
/// `norm`.
pub open spec fn leaf_distance(e: (String, String), norm: Seq<char>) -> nat {
    edit_distance(rsplit_dot(norm).1, rsplit_dot(materialized(e.0@, norm)).1)
}

proof fn lemma_sibling_scan_nearest(es: Seq<(String, String)>, n: nat, norm: Seq<char>, j: int)
    requires
        0 <= j < n <= es.len(),
        is_sibling(es[j], norm),
    ensures
        sibling_scan(es, n, norm) is Some,
        sibling_scan(es, n, norm)->Some_0.0 <= leaf_distance(es[j], norm),
    decreases n,
{
    if j < n - 1 {
        lemma_sibling_scan_nearest(es, (n - 1) as nat, norm, j);
    }
}

proof fn lemma_sibling_scan_picks(es: Seq<(String, String)>, n: nat, norm: Seq<char>)
    ensures
        sibling_scan(es, n, norm) matches Some(b) ==> exists|k: int| 0 <= k < n && k < es.len()
            && is_sibling(#[trigger] es[k], norm) && b.0 == leaf_distance(es[k], norm) && b.1 == materialized(es[k].1@, norm),
    decreases n,
{
    if n > 0 && n <= es.len() {
        lemma_sibling_scan_picks(es, (n - 1) as nat, norm);
        assert(0 <= n - 1 < es.len());
    }
}

/// A sibling of the unknown path (same parent) whose last segment is within
/// 3 edits wins: the suggestion is then a sibling within 3 edits.
pub proof fn law_close_sibling_preferred(path: Seq<char>, paths: StrMap<String>, j: int)
    requires
        0 <= j < paths.entries().len(),
        is_sibling(paths.entries()[j], external_form(path)),
        leaf_distance(paths.entries()[j], external_form(path)) <= 3,
    ensures
        suggestion(path, paths) matches Some(s) && exists|k: int| 0 <= k < paths.entries().len()
            && is_sibling(#[trigger] paths.entries()[k], external_form(path))
            && leaf_distance(paths.entries()[k], external_form(path)) <= 3
            && s == materialized(paths.entries()[k].1@, external_form(path)),
{
    let es = paths.entries();
    let norm = external_form(path);
    lemma_sibling_scan_nearest(es, es.len(), norm, j);
    lemma_sibling_scan_picks(es, es.len(), norm);
}

/// A known path within the overall threshold of the unknown one (at most a
/// third of its length, and at least 2) guarantees that something is
/// suggested, whether or not a sibling is close.
pub proof fn law_close_path_is_suggested(path: Seq<char>, paths: StrMap<String>, j: int)
    requires
        0 <= j < paths.entries().len(),
        edit_distance(external_form(path), materialized(paths.entries()[j].0@, external_form(path)))
            <= max_nat(utf8_len(external_form(path)) / 3, 2),
    ensures
        suggestion(path, paths) is Some,
{
    let es = paths.entries();
    let norm = external_form(path);
    lemma_overall_scan_nearest(es, es.len(), norm, j);
    let b = overall_scan(es, es.len(), norm)->Some_0;
    let a = utf8_len(norm);
    let m = max_nat(utf8_len(norm), utf8_len(b.1));
    assert(a / 3 <= m / 3) by (nonlinear_arith)
        requires
            a <= m,
    ;
}

/// A suggestion is always the canonical path of one of the known entries.
pub proof fn law_suggestion_is_known(path: Seq<char>, paths: StrMap<String>)
    ensures
        suggestion(path, paths) matches Some(s)
            ==> exists|j: int| 0 <= j < paths.entries().len()
                && s == materialized(#[trigger] paths.entries()[j].1@, external_form(path)),
{
    let es = paths.entries();
    let norm = external_form(path);
    lemma_overall_scan_from(es, es.len(), norm);
    lemma_sibling_scan_picks(es, es.len(), norm);
}

/// No two entries of an object share a key.
pub open spec fn keys_distinct(es: Seq<(Seq<char>, Json)>) -> bool {
    forall|i: int, j: int| 0 <= i < j < es.len() ==> (#[trigger] es[i]).0 != (#[trigger] es[j]).0
}

/// A parent from which removing a child leaves nothing behind under that
/// child's name: anything but an array (whose later items move up) or an
/// object with a repeated key.
pub open spec fn removal_parent_ok(parent: Option<Json>) -> bool {
    match parent {
        Some(Json::Array(_)) => false,
        Some(Json::Object(es)) => keys_distinct(es),
        _ => true,
    }
}

/// The segments a removal migration takes out, when it names a path.
pub open spec fn removal_segments(st: MigState, m: ConfigMigration) -> Option<Seq<Seq<char>>> {
    match m.kind {
        ConfigMigrationKind::Remove { path } => match mig_path(path@) {
            Ok(pp) => Some(segments(runtime_path(st.root, pp))),
            Err(_) => None,
        },
        _ => None,
    }
}

proof fn lemma_get_absent(es: Seq<(Seq<char>, Json)>, k: Seq<char>)
    requires
        forall|i: int| 0 <= i < es.len() ==> (#[trigger] es[i]).0 != k,
    ensures
        entry_get(es, k) is None,
    decreases es.len(),
{
    if es.len() > 0 {
        lemma_get_absent(es.drop_first(), k);
    }
}

/// Once a key is removed from an object with distinct keys, looking it up
/// finds nothing.
proof fn lemma_get_removed(es: Seq<(Seq<char>, Json)>, k: Seq<char>)
    requires
        keys_distinct(es),
    ensures
        entry_get(entry_remove(es, k), k) is None,
    decreases es.len(),
{
    if es.len() == 0 {
    } else if es[0].0 == k {
        assert forall|i: int| 0 <= i < es.drop_first().len() implies (#[trigger] es.drop_first()[i]).0 != k by {
            assert(es.drop_first()[i] == es[i + 1]);
        }
        lemma_get_absent(es.drop_first(), k);
    } else if crate::strmap::seq_lt(k, es[0].0) {
    } else {
        let rest = es.drop_first();
        assert forall|i: int, j: int| 0 <= i < j < rest.len() implies (#[trigger] rest[i]).0 != (#[trigger] rest[j]).0 by {
            assert(rest[i] == es[i + 1] && rest[j] == es[j + 1]);
        }
        lemma_get_removed(rest, k);
        let r = seq![es[0]] + entry_remove(rest, k);
        assert(r[0] == es[0]);
        assert(r.drop_first() =~= entry_remove(rest, k));
    }
}

/// Walking the removed path below what removal leaves finds nothing.
proof fn lemma_taken_gone(cur: Json, segs: Seq<Seq<char>>)
    requires
        segs.len() > 0,
        removal_parent_ok(walk(cur, segs.drop_last())),
    ensures
        walk(taken(cur, segs).0, segs) is None,
    decreases segs.len(),
{
    let s0 = segs[0];
    if segs.len() == 1 {
        assert(segs.drop_last() =~= Seq::<Seq<char>>::empty());
        assert(walk(cur, segs.drop_last()) == Some(cur));
        match cur {
            Json::Object(es) => {
                lemma_get_removed(es, s0);
            },
            _ => {},
        }
        let r = taken(cur, segs).0;
        assert(segs.drop_first() =~= Seq::<Seq<char>>::empty());
        assert(child_at(r, s0) is None);
    } else {
        let rest = segs.drop_first();
        assert(segs.drop_last().drop_first() =~= rest.drop_last());
        assert(segs.drop_last()[0] == s0);
        match child_at(cur, s0) {
            Some(c) => {
                lemma_taken_gone(c, rest);
                let t0 = taken(c, rest).0;
                let r = replace_child(cur, s0, t0);
                match cur {
                    Json::Object(es) => {
                        lemma_get_inserted(es, s0, t0);
                    },
                    _ => {},
                }
                assert(child_at(r, s0) == Some(t0));
            },
            None => {},
        }
    }
}

/// A removal migration that applies leaves nothing at the path it removes,
/// unless the path ends in an array index (later items move up) or in a
/// key that its object repeats.
pub proof fn law_removed_path_is_gone(st: MigState, m: ConfigMigration, current: nat)
    requires
        st.version < m.since_version <= current,
        removal_segments(st, m) matches Some(segs) && segs.len() > 0
            && removal_parent_ok(walk(st.root, segs.drop_last())),
    ensures
        mig_step(st, m, current) matches Ok(st2)
            && walk(st2.root, removal_segments(st, m)->Some_0) is None,
{
    let segs = removal_segments(st, m)->Some_0;
    lemma_taken_gone(st.root, segs);
}

/// Text with no white space at either end.
pub open spec fn unpadded(s: Seq<char>) -> bool {
    s.len() == 0 || (!is_space(s[0]) && !is_space(s.last()))
}

/// A decoded map entry: a non-empty key and a string value, both without
/// white space at either end.
pub open spec fn clean_entry(e: (Seq<char>, Json)) -> bool {
    &&& e.0.len() > 0
    &&& unpadded(e.0)
    &&& e.1 matches Json::Str(v) && unpadded(v)
}

proof fn lemma_trim_unpadded(s: Seq<char>)
    ensures
        unpadded(trim(s)),
    decreases s.len(),
{
    if s.len() > 0 && is_space(s[0]) {
        lemma_trim_unpadded(s.drop_first());
    } else if s.len() > 0 && is_space(s.last()) {
        lemma_trim_unpadded(s.drop_last());
    }
}

proof fn lemma_insert_clean(es: Seq<(Seq<char>, Json)>, k: Seq<char>, v: Json)
    requires
        forall|i: int| 0 <= i < es.len() ==> clean_entry(#[trigger] es[i]),
        clean_entry((k, v)),
    ensures
        forall|i: int| 0 <= i < entry_insert(es, k, v).len() ==> clean_entry(#[trigger] entry_insert(es, k, v)[i]),
    decreases es.len(),
{
    if es.len() > 0 && es[0].0 != k && !crate::strmap::seq_lt(k, es[0].0) {
        let rest = es.drop_first();
        assert forall|i: int| 0 <= i < rest.len() implies clean_entry(#[trigger] rest[i]) by {
            assert(rest[i] == es[i + 1]);
        }
        lemma_insert_clean(rest, k, v);
        let r = seq![es[0]] + entry_insert(rest, k, v);
        assert forall|i: int| 0 <= i < r.len() implies clean_entry(#[trigger] r[i]) by {
            if i > 0 {
                assert(r[i] == entry_insert(rest, k, v)[i - 1]);
            }
        }
    } else if es.len() > 0 && es[0].0 != k {
        let r = seq![(k, v)] + es;
        assert forall|i: int| 0 <= i < r.len() implies clean_entry(#[trigger] r[i]) by {
            if i > 0 {
                assert(r[i] == es[i - 1]);
            }
        }
    } else if es.len() > 0 {
        assert forall|i: int| 0 <= i < es.update(0, (k, v)).len() implies clean_entry(#[trigger] es.update(0, (k, v))[i]) by {
            if i > 0 {
                assert(es.update(0, (k, v))[i] == es[i]);
            }
        }
    } else {
        assert(seq![(k, v)][0] == (k, v));
    }
}

proof fn lemma_kv_fold_clean(entries: Seq<Seq<char>>, n: nat)
    ensures
        kv_fold(entries, n) matches Ok(es) ==> forall|i: int| 0 <= i < es.len() ==> clean_entry(#[trigger] es[i]),
    decreases n,
{
    if n > 0 && n <= entries.len() {
        lemma_kv_fold_clean(entries, (n - 1) as nat);
        let entry = entries[n - 1];
        match crate::args::char_index(entry, '=') {
            Some(i) => {
                lemma_trim_unpadded(entry.take(i));
                lemma_trim_unpadded(entry.skip(i + 1));
                match kv_fold(entries, (n - 1) as nat) {
                    Ok(es) => {
                        let k = trim(entry.take(i));
                        if k.len() > 0 {
                            lemma_insert_clean(es, k, Json::Str(trim(entry.skip(i + 1))));
                        }
                    },
                    Err(_) => {},
                }
            },
            None => {},
        }
    }
}

/// A decoded `key=value` map has non-empty keys and string values, every
/// key and value trimmed of white space at both ends.
pub proof fn law_key_value_map_is_trimmed(raw: Seq<char>, paths: Seq<Seq<char>>)
    ensures
        decoded(raw, EnvDecoder::KeyValueMap, paths) matches Ok(j)
            ==> (j matches Json::Object(es) && forall|i: int| 0 <= i < es.len() ==> clean_entry(#[trigger] es[i])),
{
    lemma_kv_fold_clean(crate::overrides::csv_items(raw), crate::overrides::csv_items(raw).len());
}

/// The runtime spellings of the two paths of a rename migration, when both
/// can be registered.
pub open spec fn rename_paths(st: MigState, m: ConfigMigration) -> Option<(Seq<char>, Seq<char>)> {
    match m.kind {
        ConfigMigrationKind::Rename { from, to } => match (mig_path(from@), mig_path(to@)) {
            (Ok(fp), Ok(tp)) => Some((runtime_path(st.root, fp), runtime_path(st.root, tp))),
            _ => None,
        },
        _ => None,
    }
}

/// What removal takes out is what walking the path finds.
proof fn lemma_taken_value(cur: Json, segs: Seq<Seq<char>>)
    requires
        segs.len() > 0,
    ensures
        taken(cur, segs).1 == walk(cur, segs),
    decreases segs.len(),
{
    if segs.len() == 1 {
        assert(segs.drop_first() =~= Seq::<Seq<char>>::empty());
        match child_at(cur, segs[0]) {
            Some(c) => {
                assert(walk(c, segs.drop_first()) == Some(c));
                assert(walk(cur, segs) == Some(c));
            },
            None => {
                assert(walk(cur, segs) is None);
            },
        }
    } else {
        match child_at(cur, segs[0]) {
            Some(c) => {
                lemma_taken_value(c, segs.drop_first());
            },
            None => {},
        }
    }
}

/// A rename migration that applies and succeeds puts at the new path what
/// the old path held.
pub proof fn law_renamed_value_moves(st: MigState, m: ConfigMigration, current: nat)
    requires
        st.version < m.since_version <= current,
        rename_paths(st, m) matches Some(p) && segments(p.0).len() > 0,
    ensures
        mig_step(st, m, current) matches Ok(st2) ==> {
            let p = rename_paths(st, m)->Some_0;
            walk(st.root, segments(p.0)) matches Some(v) ==> walk(st2.root, split(p.1, '.')) == Some(v)
        },
{
    let p = rename_paths(st, m)->Some_0;
    lemma_taken_value(st.root, segments(p.0));
    let t = taken(st.root, segments(p.0));
    match t.1 {
        Some(v) => {
            if insert_result(t.0, split(p.1, '.'), v) is Ok {
                law_walk_after_insert(t.0, split(p.1, '.'), v);
            }
        },
        None => {},
    }
}

/// The pieces `nonempty` keeps are non-empty pieces of the input.
proof fn lemma_nonempty_members(parts: Seq<Seq<char>>)
    ensures
        forall|i: int| 0 <= i < nonempty(parts).len() ==> (#[trigger] nonempty(parts)[i]).len() > 0
            && exists|j: int| 0 <= j < parts.len() && parts[j] == nonempty(parts)[i],
    decreases parts.len(),
{
    if parts.len() > 0 {
        let front = parts.drop_last();
        lemma_nonempty_members(front);
        let last = parts.last();
        let nf = nonempty(front);
        assert forall|i: int| 0 <= i < nonempty(parts).len() implies (#[trigger] nonempty(parts)[i]).len() > 0
            && exists|j: int| 0 <= j < parts.len() && parts[j] == nonempty(parts)[i] by {
            if i < nf.len() {
                assert(nonempty(parts)[i] == nf[i]);
                let j = choose|j: int| 0 <= j < front.len() && front[j] == nf[i];
                assert(parts[j] == front[j]);
            } else {
                assert(nonempty(parts) == nf.push(last));
                assert(nonempty(parts)[i] == last);
                assert(parts[parts.len() - 1] == last);
            }
        }
    }
}

/// No piece of a white-space split holds white space.
proof fn lemma_split_space_pieces(s: Seq<char>)
    ensures
        crate::overrides::split_space(s).len() >= 1,
        forall|i: int, k: int| 0 <= i < crate::overrides::split_space(s).len() && 0 <= k < crate::overrides::split_space(s)[i].len()
            ==> !is_space(#[trigger] crate::overrides::split_space(s)[i][k]),
    decreases s.len(),
{
    if s.len() > 0 {
        lemma_split_space_pieces(s.drop_last());
        let p = crate::overrides::split_space(s.drop_last());
        let c = s.last();
        if is_space(c) {
            assert forall|i: int, k: int| 0 <= i < p.push(Seq::<char>::empty()).len() && 0 <= k < p.push(Seq::<char>::empty())[i].len()
                implies !is_space(#[trigger] p.push(Seq::<char>::empty())[i][k]) by {
                if i < p.len() {
                    assert(p.push(Seq::<char>::empty())[i] == p[i]);
                }
            }
        } else {
            let q = p.update(p.len() - 1, p.last().push(c));
            assert forall|i: int, k: int| 0 <= i < q.len() && 0 <= k < q[i].len() implies !is_space(#[trigger] q[i][k]) by {
                if i < p.len() - 1 {
                    assert(q[i] == p[i]);
                } else {
                    assert(q[i] == p[p.len() - 1].push(c));
                    if k < p[p.len() - 1].len() {
                        assert(q[i][k] == p[p.len() - 1][k]);
                    }
                }
            }
        }
    }
}

/// Every word decoded from a white-space separated variable is non-empty
/// and holds no white space.
pub proof fn law_words_hold_no_space(raw: Seq<char>, paths: Seq<Seq<char>>)
    ensures
        decoded(raw, EnvDecoder::Whitespace, paths) matches Ok(j) ==> (j matches Json::Array(items)
            && forall|i: int| 0 <= i < items.len() ==> (#[trigger] items[i] matches Json::Str(v) && v.len() > 0
                && forall|k: int| 0 <= k < v.len() ==> !is_space(v[k]))),
{
    let parts = crate::overrides::split_space(raw);
    lemma_split_space_pieces(raw);
    lemma_nonempty_members(parts);
    let ws = nonempty(parts);
    let js = ws.map_values(|p: Seq<char>| Json::Str(p));
    assert forall|i: int| 0 <= i < js.len() implies (#[trigger] js[i] matches Json::Str(v) && v.len() > 0
        && forall|k: int| 0 <= k < v.len() ==> !is_space(v[k])) by {
        assert(js[i] == Json::Str(ws[i]));
        let j = choose|j: int| 0 <= j < parts.len() && parts[j] == ws[i];
        assert forall|k: int| 0 <= k < ws[i].len() implies !is_space(ws[i][k]) by {
            assert(ws[i][k] == parts[j][k]);
        }
    }
}

/// Every comma-separated item decoded from a variable is non-empty and has
/// no white space at either end.
pub proof fn law_csv_items_are_trimmed(raw: Seq<char>, paths: Seq<Seq<char>>)
    ensures
        decoded(raw, EnvDecoder::Csv, paths) matches Ok(j) ==> (j matches Json::Array(items)
            && forall|i: int| 0 <= i < items.len() ==> (#[trigger] items[i] matches Json::Str(v) && v.len() > 0 && unpadded(v))),
{
    let parts = split(raw, ',').map_values(|p: Seq<char>| trim(p));
    assert forall|i: int| 0 <= i < parts.len() implies unpadded(#[trigger] parts[i]) by {
        lemma_trim_unpadded(split(raw, ',')[i]);
    }
    lemma_nonempty_members(parts);
    let items = csv_items(raw);
    assert(items == nonempty(parts));
    let js = items.map_values(|p: Seq<char>| Json::Str(p));
    assert forall|i: int| 0 <= i < js.len() implies (#[trigger] js[i] matches Json::Str(v) && v.len() > 0 && unpadded(v)) by {
        assert(js[i] == Json::Str(items[i]));
        let j = choose|j: int| 0 <= j < parts.len() && parts[j] == items[i];
        assert(unpadded(parts[j]));
    }
}

/// Read after write for `--set path=value`: once the override is applied,
/// the overrides hold its value at its path; a value that is not written
/// in JSON syntax is kept as the text given.
pub proof fn law_set_override_reads_back(st: ArgsView, sv: Seq<char>, table: Map<Seq<char>, Result<Json, Seq<char>>>)
    ensures
        set_step(st, sv, table) matches Ok(st2) ==> ({
            let rp = set_parts(sv)->Some_0.0;
            let rv = set_parts(sv)->Some_0.1;
            let path = external_path_result(rp)->Ok_0;
            &&& walk(st2.root, split(path, '.')) == Some(override_result(rv, table)->Ok_0.0)
            &&& st2.claimed.contains_key(path)
            &&& (!json_syntax(trim(rv)) ==> walk(st2.root, split(path, '.')) == Some(Json::Str(rv)))
        }),
{
    if set_step(st, sv, table) is Ok {
        let rp = set_parts(sv)->Some_0.0;
        let rv = set_parts(sv)->Some_0.1;
        let path = external_path_result(rp)->Ok_0;
        let v = override_result(rv, table)->Ok_0.0;
        law_walk_after_insert(st.root, split(path, '.'), v);
        if rv.len() == 0 {
            assert(rv =~= Seq::<char>::empty());
        }
    }
}

} // verus!
