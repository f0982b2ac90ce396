//! Registered paths and versioned configuration migrations.
use vstd::prelude::*;
use crate::text::{split, string_views, chars_of, string_of, is_digit, digits_value, parse_digits, decimal, decimal_chars};
use crate::strmap::StrMap;
use crate::syntax::{external_path_result, try_normalize_external_path};
use crate::json::{JsonValue, Json, value_at, get_value_at_path, runtime_path, canonicalize_runtime_path, taken,
    take_value_at_path, insert_result, insert_path, indices_bounded, inserted_state};
use crate::path::segments;
use crate::sources::{cat, ConfigMigration, ConfigMigrationKind};
use crate::config::MetaFault;
use crate::error::ConfigError;
use crate::args::{split_segments};
use crate::arrays::set_view;

verus! {

/// A registered path read as a user-facing path; `what` names it in
/// messages and `empty` is the message for the root.
pub open spec fn registered(path: Seq<char>, what: Seq<char>, empty: Seq<char>) -> Result<Seq<char>, MetaFault> {
    match external_path_result(path) {
        Err(m) => Err(MetaFault::Invalid(path, "invalid "@ + what + " path: "@ + m)),
        Ok(p) => if p.len() == 0 { Err(MetaFault::Invalid(path, empty)) } else { Ok(p) },
    }
}

pub open spec fn invalid_fault(e: ConfigError) -> Option<MetaFault> {
    match e {
        ConfigError::MetadataInvalid { path, message } => Some(MetaFault::Invalid(path@, message@)),
        _ => None,
    }
}

fn register(path: &str, what: &str, empty: &str) -> (r: Result<String, ConfigError>)
    ensures
        match registered(path@, what@, empty@) {
            Ok(p) => r matches Ok(s) && s@ == p,
            Err(f) => r matches Err(e) && invalid_fault(e) == Some(f),
        },
{
    match try_normalize_external_path(path) {
        Err(m) => {
            let message = cat(&cat(&cat("invalid ", what), " path: "), m.as_str());
            Err(ConfigError::MetadataInvalid { path: path.to_string(), message })
        },
        Ok(p) => {
            if p.as_str().is_empty() {
                Err(ConfigError::MetadataInvalid { path: path.to_string(), message: empty.to_string() })
            } else {
                Ok(p)
            }
        },
    }
}

/// Reads the path an environment decoder is registered for.
pub fn normalize_decoder_registration_path(path: &str) -> (r: Result<String, ConfigError>)
    ensures
        match registered(path@, "environment decoder"@, "invalid environment decoder path: configuration path cannot be empty"@) {
            Ok(p) => r matches Ok(s) && s@ == p,
            Err(f) => r matches Err(e) && invalid_fault(e) == Some(f),
        },
{
    register(path, "environment decoder", "invalid environment decoder path: configuration path cannot be empty")
}

/// Reads the path the configuration version is kept at.
pub fn normalize_version_registration_path(path: &str) -> (r: Result<String, ConfigError>)
    ensures
        match registered(path@, "configuration version"@, "configuration version path cannot be empty"@) {
            Ok(p) => r matches Ok(s) && s@ == p,
            Err(f) => r matches Err(e) && invalid_fault(e) == Some(f),
        },
{
    register(path, "configuration version", "configuration version path cannot be empty")
}

/// Reads a path a migration names.
pub fn normalize_migration_registration_path(path: &str) -> (r: Result<String, ConfigError>)
    ensures
        match registered(path@, "migration"@, "migration paths cannot target the configuration root"@) {
            Ok(p) => r matches Ok(s) && s@ == p,
            Err(f) => r matches Err(e) && invalid_fault(e) == Some(f),
        },
{
    register(path, "migration", "migration paths cannot target the configuration root")
}

/// Reading the registered secret paths in order: the first that cannot be
/// read stops it.
pub open spec fn secrets_run(es: Seq<(String, ())>, n: nat) -> Result<Set<Seq<char>>, MetaFault>
    decreases n,
{
    if n == 0 || n > es.len() {
        Ok(Set::empty())
    } else {
        match secrets_run(es, (n - 1) as nat) {
            Err(f) => Err(f),
            Ok(s) => match registered(es[n - 1].0@, "secret"@, "invalid secret path: configuration path cannot be empty"@) {
                Err(f) => Err(f),
                Ok(p) => Ok(s.insert(p)),
            },
        }
    }
}

/// Reads the registered secret paths.
pub fn normalize_secret_registration_paths(secret_paths: &StrMap<()>) -> (r: Result<StrMap<()>, ConfigError>)
    ensures
        match secrets_run(secret_paths.entries(), secret_paths.entries().len()) {
            Ok(s) => r matches Ok(m) && m.wf() && set_view(m) == s,
            Err(f) => r matches Err(e) && invalid_fault(e) == Some(f),
        },
{
    let ghost es = secret_paths.entries();
    let mut out: StrMap<()> = StrMap::new();
    assert(set_view(out) =~= Set::<Seq<char>>::empty());
    let mut i: usize = 0;
    while i < secret_paths.len()
        invariant
            i <= es.len(),
            es == secret_paths.entries(),
            out.wf(),
            secrets_run(es, i as nat) == Ok::<Set<Seq<char>>, MetaFault>(set_view(out)),
        decreases es.len() - i,
    {
        let (p, _u) = secret_paths.entry_at(i);
        match register(p.as_str(), "secret", "invalid secret path: configuration path cannot be empty") {
            Err(e) => {
                proof {
                    lemma_secrets_stop(es, (i + 1) as nat);
                }
                return Err(e);
            },
            Ok(n) => {
                let ghost before = set_view(out);
                let ghost nv = n@;
                out.insert(n, ());
                assert(set_view(out) =~= before.insert(nv));
            },
        }
        i = i + 1;
    }
    Ok(out)
}

proof fn lemma_secrets_stop(es: Seq<(String, ())>, n: nat)
    requires
        n <= es.len(),
        secrets_run(es, n) is Err,
    ensures
        secrets_run(es, es.len()) == secrets_run(es, n),
    decreases es.len() - n,
{
    if n < es.len() {
        lemma_secrets_stop_step(es, n);
        lemma_secrets_stop(es, n + 1);
    }
}

proof fn lemma_secrets_stop_step(es: Seq<(String, ())>, n: nat)
    requires
        n < es.len(),
        secrets_run(es, n) is Err,
    ensures
        secrets_run(es, n + 1) == secrets_run(es, n),
{
}

/// What `serde_json::Value::as_u64` gives for a number written as `t`: the
/// value of a run of decimal digits that fits in `u64`.
pub open spec fn number_u64(t: Seq<char>) -> Option<nat> {
    if t.len() > 0 && (forall|i: int| 0 <= i < t.len() ==> is_digit(#[trigger] t[i])) && digits_value(t) <= u64::MAX {
        Some(digits_value(t))
    } else {
        None
    }
}

/// Why a version cannot be read, if it cannot.
pub open spec fn version_at(root: Json, path: Seq<char>) -> Result<nat, Seq<char>> {
    match value_at(root, path) {
        None => Ok(0),
        Some(Json::Number(t)) => match number_u64(t) {
            Some(n) => if n <= u32::MAX { Ok(n) } else { Err("version must fit in u32"@) },
            None => Err("expected an unsigned integer"@),
        },
        Some(_) => Err("expected an unsigned integer"@),
    }
}

fn parse_digits_u64(s: &[char]) -> (r: Option<u64>)
    requires
        forall|i: int| 0 <= i < s@.len() ==> is_digit(#[trigger] s@[i]),
    ensures
        match r {
            Some(v) => v as nat == digits_value(s@),
            None => digits_value(s@) > u64::MAX,
        },
{
    assert(crate::text::all_chars(s@, |c: char| is_digit(c)));
    let mut v: u64 = 0;
    let mut i: usize = 0;
    while i < s.len()
        invariant
            i <= s@.len(),
            forall|k: int| 0 <= k < s@.len() ==> is_digit(#[trigger] s@[k]),
            crate::text::all_chars(s@, |c: char| is_digit(c)),
            v as nat == digits_value(s@.take(i as int)),
        decreases s@.len() - i,
    {
        assert(s@.take(i + 1).drop_last() =~= s@.take(i as int));
        let c = s[i];
        assert(is_digit(s@[i as int]));
        let d: u64 = ((c as u32) - ('0' as u32)) as u64;
        if v > (0xffff_ffff_ffff_ffffu64 - d) / 10 {
            proof {
                crate::text::lemma_digits_value_prefix_le(s@, i + 1);
                assert(digits_value(s@.take(i + 1)) == digits_value(s@.take(i as int)) * 10 + ((s@[i as int] as int) - ('0' as int)));
                assert(digits_value(s@.take(i as int)) * 10 + d > u64::MAX) by (nonlinear_arith)
                    requires
                        v > (0xffff_ffff_ffff_ffffu64 - d) / 10,
                        v as nat == digits_value(s@.take(i as int)),
                        d <= 9;
            }
            return None;
        }
        assert(v * 10 + d <= u64::MAX) by (nonlinear_arith)
            requires
                v <= (0xffff_ffff_ffff_ffffu64 - d) / 10,
                d <= 9;
        v = v * 10 + d;
        i = i + 1;
    }
    assert(s@.take(s@.len() as int) =~= s@);
    Some(v)
}

/// Reads the configuration version at `path` (none means version 0).
#[verifier::loop_isolation(false)]
pub fn read_config_version(value: &JsonValue, path: &str) -> (r: Result<u32, ConfigError>)
    ensures
        match version_at(value@, path@) {
            Ok(n) => r matches Ok(v) && v as nat == n,
            Err(m) => r matches Err(ConfigError::InvalidConfigVersion { path: p, message: msg }) && p@ == path@ && msg@ == m,
        },
{
    let found = match get_value_at_path(value, path) {
        None => {
            return Ok(0);
        },
        Some(found) => found,
    };
    let fail = ConfigError::InvalidConfigVersion { path: path.to_string(), message: "expected an unsigned integer".to_string() };
    match found {
        JsonValue::Number(t) => {
            let cs = chars_of(t.as_str());
            if cs.len() == 0 {
                return Err(fail);
            }
            let mut i: usize = 0;
            while i < cs.len()
                invariant
                    i <= cs@.len(),
                    forall|j: int| 0 <= j < i ==> is_digit(#[trigger] cs@[j]),
                decreases cs@.len() - i,
            {
                if !crate::text::is_digit_char(cs[i]) {
                    assert(!is_digit(cs@[i as int]));
                    return Err(fail);
                }
                i = i + 1;
            }
            match parse_digits_u64(&cs) {
                None => Err(fail),
                Some(n) => {
                    if n > 0xffff_ffff {
                        return Err(ConfigError::InvalidConfigVersion { path: path.to_string(), message: "version must fit in u32".to_string() });
                    }
                    Ok(n as u32)
                },
            }
        },
        _ => Err(fail),
    }
}

/// `m` placed into `sorted` after every migration of the same or an
/// earlier version.
pub open spec fn ins_by_version(sorted: Seq<ConfigMigration>, m: ConfigMigration) -> Seq<ConfigMigration>
    decreases sorted.len(),
{
    if sorted.len() == 0 {
        seq![m]
    } else if m.since_version < sorted.last().since_version {
        ins_by_version(sorted.drop_last(), m).push(sorted.last())
    } else {
        sorted.push(m)
    }
}

/// The migrations in ascending version order, keeping the given order
/// among equal versions.
pub open spec fn by_version(ms: Seq<ConfigMigration>) -> Seq<ConfigMigration>
    decreases ms.len(),
{
    if ms.len() == 0 {
        Seq::empty()
    } else {
        ins_by_version(by_version(ms.drop_last()), ms.last())
    }
}

proof fn lemma_ins_at(sorted: Seq<ConfigMigration>, m: ConfigMigration, j: int)
    requires
        0 <= j <= sorted.len(),
        forall|k: int| j <= k < sorted.len() ==> m.since_version < #[trigger] sorted[k].since_version,
        j > 0 ==> !(m.since_version < sorted[j - 1].since_version),
    ensures
        ins_by_version(sorted, m) == sorted.insert(j, m),
    decreases sorted.len() - j,
{
    if j == sorted.len() {
        if sorted.len() > 0 {
            assert(sorted.push(m) =~= sorted.insert(j, m));
        } else {
            assert(seq![m] =~= sorted.insert(j, m));
        }
    } else {
        let d = sorted.drop_last();
        assert forall|k: int| j <= k < d.len() implies m.since_version < #[trigger] d[k].since_version by {
            assert(d[k] == sorted[k]);
        }
        assert(j > 0 ==> d[j - 1] == sorted[j - 1]);
        lemma_ins_at(d, m, j);
        assert(d.insert(j, m).push(sorted.last()) =~= sorted.insert(j, m));
    }
}

/// The positions of the migrations in ascending version order.
fn sort_by_version(migrations: &Vec<ConfigMigration>) -> (r: Vec<usize>)
    ensures
        forall|k: int| 0 <= k < r@.len() ==> #[trigger] r@[k] < migrations@.len(),
        r@.map_values(|k: usize| migrations@[k as int]) == by_version(migrations@),
{
    let ghost ms = migrations@;
    let mut order: Vec<usize> = Vec::new();
    let mut i: usize = 0;
    assert(ms.take(0) =~= Seq::<ConfigMigration>::empty());
    assert(order@.map_values(|k: usize| ms[k as int]) =~= Seq::<ConfigMigration>::empty());
    while i < migrations.len()
        invariant
            i <= ms.len(),
            ms == migrations@,
            forall|k: int| 0 <= k < order@.len() ==> #[trigger] order@[k] < i,
            order@.map_values(|k: usize| ms[k as int]) == by_version(ms.take(i as int)),
        decreases ms.len() - i,
    {
        let ghost sorted = order@.map_values(|k: usize| ms[k as int]);
        let m = &migrations[i];
        assert(ms.take(i + 1).drop_last() =~= ms.take(i as int));
        assert(ms.take(i + 1).last() == *m);
        let mut j: usize = order.len();
        while j > 0 && m.since_version < migrations[order[j - 1]].since_version
            invariant
                j <= order@.len(),
                i < ms.len(),
                ms == migrations@,
                *m == ms[i as int],
                sorted == order@.map_values(|k: usize| ms[k as int]),
                forall|k: int| 0 <= k < order@.len() ==> #[trigger] order@[k] < i,
                forall|k: int| j <= k < order@.len() ==> m.since_version < #[trigger] sorted[k].since_version,
            decreases j,
        {
            j = j - 1;
        }
        proof {
            lemma_ins_at(sorted, *m, j as int);
        }
        order.insert(j, i);
        assert(order@.map_values(|k: usize| ms[k as int]) =~= sorted.insert(j as int, *m));
        i = i + 1;
    }
    assert(ms.take(ms.len() as int) =~= ms);
    order
}

/// A migration that was applied.
pub struct AppliedMigration {
    pub kind: String,
    pub from_version: u32,
    pub to_version: u32,
    pub from_path: String,
    pub to_path: Option<String>,
    pub note: Option<String>,
}

pub struct AppliedView {
    pub kind: Seq<char>,
    pub from_version: nat,
    pub to_version: nat,
    pub from_path: Seq<char>,
    pub to_path: Option<Seq<char>>,
    pub note: Option<Seq<char>>,
}

pub open spec fn applied_view(a: AppliedMigration) -> AppliedView {
    AppliedView {
        kind: a.kind@,
        from_version: a.from_version as nat,
        to_version: a.to_version as nat,
        from_path: a.from_path@,
        to_path: crate::sources::opt_view(a.to_path),
        note: crate::sources::opt_view(a.note),
    }
}

/// The value, version and applied migrations while migrating.
pub struct MigState {
    pub root: Json,
    pub version: nat,
    pub applied: Seq<AppliedView>,
}

/// Why migrating stopped.
pub enum MigFault {
    Meta(MetaFault),
    Version(Seq<char>, Seq<char>),
    Unsupported(Seq<char>, nat, nat),
    /// A write at an array index that no array can reach.
    Stuck,
}

pub open spec fn mig_fault(e: ConfigError) -> Option<MigFault> {
    match e {
        ConfigError::MetadataInvalid { path, message } => Some(MigFault::Meta(MetaFault::Invalid(path@, message@))),
        ConfigError::InvalidConfigVersion { path, message } => Some(MigFault::Version(path@, message@)),
        ConfigError::UnsupportedConfigVersion { path, found, supported } => Some(MigFault::Unsupported(path@, found as nat, supported as nat)),
        _ => None,
    }
}

pub open spec fn mig_path(p: Seq<char>) -> Result<Seq<char>, MetaFault> {
    registered(p, "migration"@, "migration paths cannot target the configuration root"@)
}

/// One migration applied to the state: skipped unless newer than the
/// working version and not newer than the supported one; a rename moves a
/// present value, a removal drops it; either way the working version moves
/// up to the migration's.
pub open spec fn mig_step(st: MigState, m: ConfigMigration, current: nat) -> Result<MigState, MigFault> {
    if m.since_version <= st.version || m.since_version > current {
        Ok(st)
    } else {
        match m.kind {
            ConfigMigrationKind::Rename { from, to } => match mig_path(from@) {
                Err(f) => Err(MigFault::Meta(f)),
                Ok(fp) => match mig_path(to@) {
                    Err(f) => Err(MigFault::Meta(f)),
                    Ok(tp) => {
                        let from_c = runtime_path(st.root, fp);
                        let to_c = runtime_path(st.root, tp);
                        let t = taken(st.root, segments(from_c));
                        match t.1 {
                            None => Ok(MigState { root: t.0, version: m.since_version as nat, applied: st.applied }),
                            Some(v) => if !indices_bounded(split(to_c, '.')) {
                                Err(MigFault::Stuck)
                            } else {
                                match insert_result(t.0, split(to_c, '.'), v) {
                                    Err(msg) => Err(MigFault::Meta(MetaFault::Invalid(to_c, "failed to apply migration: "@ + msg))),
                                    Ok(root) => Ok(MigState {
                                        root,
                                        version: m.since_version as nat,
                                        applied: st.applied.push(AppliedView {
                                            kind: "rename"@,
                                            from_version: st.version,
                                            to_version: m.since_version as nat,
                                            from_path: from_c,
                                            to_path: Some(to_c),
                                            note: crate::sources::opt_view(m.note),
                                        }),
                                    }),
                                }
                            },
                        }
                    },
                },
            },
            ConfigMigrationKind::Remove { path } => match mig_path(path@) {
                Err(f) => Err(MigFault::Meta(f)),
                Ok(pp) => {
                    let pc = runtime_path(st.root, pp);
                    let t = taken(st.root, segments(pc));
                    Ok(MigState {
                        root: t.0,
                        version: m.since_version as nat,
                        applied: if t.1 is Some {
                            st.applied.push(AppliedView {
                                kind: "remove"@,
                                from_version: st.version,
                                to_version: m.since_version as nat,
                                from_path: pc,
                                to_path: None,
                                note: crate::sources::opt_view(m.note),
                            })
                        } else {
                            st.applied
                        },
                    })
                },
            },
        }
    }
}

/// The first `n` migrations applied in turn.
pub open spec fn mig_run(ms: Seq<ConfigMigration>, n: nat, start: MigState, current: nat) -> Result<MigState, MigFault>
    decreases n,
{
    if n == 0 || n > ms.len() {
        Ok(start)
    } else {
        match mig_run(ms, (n - 1) as nat, start, current) {
            Ok(st) => mig_step(st, ms[n - 1], current),
            Err(f) => Err(f),
        }
    }
}

/// Migrating a merged value: read its version (at the version path as the
/// value spells it), refuse one newer than supported, apply the newer
/// migrations in version order, then record the supported version.
pub open spec fn migrated(root: Json, version_path: Seq<char>, current: nat, ms: Seq<ConfigMigration>) -> Result<(Json, Seq<AppliedView>), MigFault> {
    let vp = runtime_path(root, version_path);
    match version_at(root, vp) {
        Err(m) => Err(MigFault::Version(vp, m)),
        Ok(w) => if w > current {
            Err(MigFault::Unsupported(vp, w, current))
        } else {
            let sorted = by_version(ms);
            match mig_run(sorted, sorted.len(), MigState { root, version: w, applied: Seq::empty() }, current) {
                Err(f) => Err(f),
                Ok(st) => if !indices_bounded(split(vp, '.')) {
                    Err(MigFault::Stuck)
                } else {
                    match insert_result(st.root, split(vp, '.'), Json::Number(decimal(current))) {
                        Err(m) => Err(MigFault::Version(vp, m)),
                        Ok(r) => Ok((r, st.applied)),
                    }
                },
            }
        },
    }
}

/// What the merged value holds after a migration step that fails: the
/// step changes nothing before its paths are read; a rename whose target
/// cannot be written keeps the value taken out of the source and what the
/// write made on the way.
pub open spec fn step_error_root(st: MigState, m: ConfigMigration, current: nat) -> Json {
    if m.since_version <= st.version || m.since_version > current {
        st.root
    } else {
        match m.kind {
            ConfigMigrationKind::Rename { from, to } => match mig_path(from@) {
                Err(_) => st.root,
                Ok(fp) => match mig_path(to@) {
                    Err(_) => st.root,
                    Ok(tp) => {
                        let t = taken(st.root, segments(runtime_path(st.root, fp)));
                        match t.1 {
                            None => t.0,
                            Some(v) => inserted_state(t.0, split(runtime_path(st.root, tp), '.'), v),
                        }
                    },
                },
            },
            ConfigMigrationKind::Remove { path } => st.root,
        }
    }
}

/// What the merged value holds when the first `n` migrations stop on an
/// error: what the failing step left.
pub open spec fn mig_error_root(ms: Seq<ConfigMigration>, n: nat, start: MigState, current: nat) -> Json
    decreases n,
{
    if n == 0 || n > ms.len() {
        start.root
    } else {
        match mig_run(ms, (n - 1) as nat, start, current) {
            Ok(st) => step_error_root(st, ms[n - 1], current),
            Err(_) => mig_error_root(ms, (n - 1) as nat, start, current),
        }
    }
}

/// What migrating leaves in the merged value once its version has been
/// read and is supported: on a failed step, what that step left; else the
/// migrated value with the supported version written (as far as it could be).
pub open spec fn migrated_root(root: Json, version_path: Seq<char>, current: nat, ms: Seq<ConfigMigration>) -> Json {
    let vp = runtime_path(root, version_path);
    let w = version_at(root, vp)->Ok_0;
    let sorted = by_version(ms);
    let start = MigState { root, version: w, applied: Seq::empty() };
    match mig_run(sorted, sorted.len(), start, current) {
        Err(_) => mig_error_root(sorted, sorted.len(), start, current),
        Ok(st) => inserted_state(st.root, split(vp, '.'), Json::Number(decimal(current))),
    }
}

proof fn lemma_error_root_stays(ms: Seq<ConfigMigration>, k: nat, start: MigState, current: nat, n: nat)
    requires
        k < n <= ms.len(),
        mig_run(ms, k, start, current) is Ok,
        mig_step(mig_run(ms, k, start, current)->Ok_0, ms[k as int], current) is Err,
    ensures
        mig_error_root(ms, n, start, current) == step_error_root(mig_run(ms, k, start, current)->Ok_0, ms[k as int], current),
        mig_run(ms, n, start, current) is Err,
    decreases n - k,
{
    if n > k + 1 {
        lemma_error_root_stays(ms, k, start, current, (n - 1) as nat);
    }
}

proof fn lemma_mig_stop(ms: Seq<ConfigMigration>, n: nat, start: MigState, current: nat)
    requires
        n <= ms.len(),
        mig_run(ms, n, start, current) is Err,
    ensures
        mig_run(ms, ms.len(), start, current) == mig_run(ms, n, start, current),
    decreases ms.len() - n,
{
    if n < ms.len() {
        assert(mig_run(ms, n + 1, start, current) == mig_run(ms, n, start, current));
        lemma_mig_stop(ms, n + 1, start, current);
    }
}

fn copy_note(n: &Option<String>) -> (r: Option<String>)
    ensures
        crate::sources::opt_view(r) == crate::sources::opt_view(*n),
{
    match n {
        Some(s) => Some(crate::text::copy_string(s)),
        None => None,
    }
}

pub open spec fn applied_views(v: Seq<AppliedMigration>) -> Seq<AppliedView> {
    v.map_values(|a: AppliedMigration| applied_view(a))
}

/// Applies one migration.
fn apply_one(merged: &mut JsonValue, m: &ConfigMigration, w: u32, current: u32, applied: &mut Vec<AppliedMigration>) -> (r: Result<u32, ConfigError>)
    requires
        mig_step(MigState { root: old(merged)@, version: w as nat, applied: applied_views(old(applied)@) }, *m, current as nat) != Err::<MigState, MigFault>(MigFault::Stuck),
    ensures
        match mig_step(MigState { root: old(merged)@, version: w as nat, applied: applied_views(old(applied)@) }, *m, current as nat) {
            Ok(st) => r matches Ok(w2) && w2 as nat == st.version && final(merged)@ == st.root && applied_views(final(applied)@) == st.applied,
            Err(f) => r matches Err(e) && mig_fault(e) == Some(f)
                && final(merged)@ == step_error_root(MigState { root: old(merged)@, version: w as nat, applied: applied_views(old(applied)@) }, *m, current as nat),
        },
{
    if m.since_version <= w || m.since_version > current {
        return Ok(w);
    }
    let ghost before = applied_views(applied@);
    match &m.kind {
        ConfigMigrationKind::Rename { from, to } => {
            let fp = match normalize_migration_registration_path(from.as_str()) {
                Err(e) => {
                    return Err(e);
                },
                Ok(p) => p,
            };
            let tp = match normalize_migration_registration_path(to.as_str()) {
                Err(e) => {
                    return Err(e);
                },
                Ok(p) => p,
            };
            let from_c = canonicalize_runtime_path(merged, fp.as_str());
            let to_c = canonicalize_runtime_path(merged, tp.as_str());
            match take_value_at_path(merged, from_c.as_str()) {
                None => Ok(m.since_version),
                Some(v) => {
                    let segs = split_segments(to_c.as_str());
                    proof {
                        crate::text::lemma_split_nonempty(to_c@, '.');
                        assert(string_views(segs@).len() == segs@.len());
                    }
                    match insert_path(merged, &segs, v) {
                        Err(msg) => Err(ConfigError::MetadataInvalid { path: to_c, message: cat("failed to apply migration: ", msg.as_str()) }),
                        Ok(()) => {
                            proof {
                                reveal_strlit("rename");
                            }
                            let rec = AppliedMigration {
                                kind: "rename".to_string(),
                                from_version: w,
                                to_version: m.since_version,
                                from_path: from_c,
                                to_path: Some(to_c),
                                note: copy_note(&m.note),
                            };
                            applied.push(rec);
                            assert(applied_views(applied@) =~= before.push(applied_view(rec)));
                            Ok(m.since_version)
                        },
                    }
                },
            }
        },
        ConfigMigrationKind::Remove { path } => {
            let pp = match normalize_migration_registration_path(path.as_str()) {
                Err(e) => {
                    return Err(e);
                },
                Ok(p) => p,
            };
            let pc = canonicalize_runtime_path(merged, pp.as_str());
            match take_value_at_path(merged, pc.as_str()) {
                None => Ok(m.since_version),
                Some(_) => {
                    proof {
                        reveal_strlit("remove");
                    }
                    let rec = AppliedMigration {
                        kind: "remove".to_string(),
                        from_version: w,
                        to_version: m.since_version,
                        from_path: pc,
                        to_path: None,
                        note: copy_note(&m.note),
                    };
                    applied.push(rec);
                    assert(applied_views(applied@) =~= before.push(applied_view(rec)));
                    Ok(m.since_version)
                },
            }
        },
    }
}

/// Brings a merged value up to `current_version`: reads its version at
/// `version_path`, refuses a newer one, applies each newer migration in
/// version order and records the supported version. Returns the migrations
/// applied.
#[verifier::rlimit(40)]
pub fn apply_config_migrations(merged: &mut JsonValue, version_path: &str, current_version: u32, migrations: &Vec<ConfigMigration>) -> (r: Result<Vec<AppliedMigration>, ConfigError>)
    requires
        migrated(old(merged)@, version_path@, current_version as nat, migrations@) != Err::<(Json, Seq<AppliedView>), MigFault>(MigFault::Stuck),
    ensures
        match migrated(old(merged)@, version_path@, current_version as nat, migrations@) {
            Ok((root, applied)) => r matches Ok(v) && final(merged)@ == root && applied_views(v@) == applied,
            Err(f) => r matches Err(e) && mig_fault(e) == Some(f),
        },
        match version_at(old(merged)@, runtime_path(old(merged)@, version_path@)) {
            Err(_) => final(merged)@ == old(merged)@,
            Ok(w) => if w > current_version {
                final(merged)@ == old(merged)@
            } else {
                final(merged)@ == migrated_root(old(merged)@, version_path@, current_version as nat, migrations@)
            },
        },
{
    let ghost root0 = merged@;
    let vp = canonicalize_runtime_path(merged, version_path);
    let working = match read_config_version(merged, vp.as_str()) {
        Err(e) => {
            return Err(e);
        },
        Ok(v) => v,
    };
    if working > current_version {
        return Err(ConfigError::UnsupportedConfigVersion { path: vp, found: working, supported: current_version });
    }
    let order = sort_by_version(migrations);
    let ghost sorted = by_version(migrations@);
    let ghost start = MigState { root: root0, version: working as nat, applied: Seq::empty() };
    let mut applied: Vec<AppliedMigration> = Vec::new();
    let mut w = working;
    let mut k: usize = 0;
    assert(applied_views(applied@) =~= Seq::<AppliedView>::empty());
    while k < order.len()
        invariant
            k <= order@.len(),
            sorted == by_version(migrations@),
            order@.map_values(|x: usize| migrations@[x as int]) == sorted,
            forall|x: int| 0 <= x < order@.len() ==> #[trigger] order@[x] < migrations@.len(),
            start == (MigState { root: root0, version: working as nat, applied: Seq::empty() }),
            root0 == old(merged)@,
            vp@ == runtime_path(root0, version_path@),
            version_at(root0, vp@) == Ok::<nat, Seq<char>>(working as nat),
            working <= current_version,
            mig_run(sorted, sorted.len(), start, current_version as nat) != Err::<MigState, MigFault>(MigFault::Stuck),
            mig_run(sorted, k as nat, start, current_version as nat) == Ok::<MigState, MigFault>(MigState { root: merged@, version: w as nat, applied: applied_views(applied@) }),
        decreases order@.len() - k,
    {
        let m = &migrations[order[k]];
        assert(sorted[k as int] == *m);
        let ghost st = MigState { root: merged@, version: w as nat, applied: applied_views(applied@) };
        assert(mig_run(sorted, (k + 1) as nat, start, current_version as nat) == mig_step(st, *m, current_version as nat));
        proof {
            if mig_step(st, *m, current_version as nat) is Err {
                lemma_mig_stop(sorted, (k + 1) as nat, start, current_version as nat);
            }
        }
        match apply_one(merged, m, w, current_version, &mut applied) {
            Err(e) => {
                proof {
                    lemma_mig_stop(sorted, (k + 1) as nat, start, current_version as nat);
                    lemma_error_root_stays(sorted, k as nat, start, current_version as nat, sorted.len());
                }
                return Err(e);
            },
            Ok(w2) => {
                w = w2;
            },
        }
        k = k + 1;
    }
    let segs = split_segments(vp.as_str());
    proof {
        crate::text::lemma_split_nonempty(vp@, '.');
        assert(string_views(segs@).len() == segs@.len());
    }
    let num = JsonValue::Number(string_of(&decimal_chars(current_version as usize)));
    match insert_path(merged, &segs, num) {
        Err(message) => Err(ConfigError::InvalidConfigVersion { path: vp, message }),
        Ok(()) => Ok(applied),
    }
}

/// Applied migrations move strictly forward: each goes from a version to a
/// later one no newer than `current` or `version`, and each starts where
/// the one before it ended or later.
pub open spec fn applied_in_order(a: Seq<AppliedView>, version: nat, current: nat) -> bool {
    &&& forall|i: int| 0 <= i < a.len() ==> (#[trigger] a[i]).from_version < a[i].to_version
        && a[i].to_version <= current && a[i].to_version <= version
    &&& forall|i: int, j: int| 0 <= i < j < a.len() ==> (#[trigger] a[i]).to_version <= (#[trigger] a[j]).from_version
}

proof fn lemma_step_in_order(st: MigState, m: ConfigMigration, current: nat)
    requires
        mig_step(st, m, current) is Ok,
        applied_in_order(st.applied, st.version, current),
    ensures
        mig_step(st, m, current)->Ok_0.version >= st.version,
        applied_in_order(mig_step(st, m, current)->Ok_0.applied, mig_step(st, m, current)->Ok_0.version, current),
{
    let st2 = mig_step(st, m, current)->Ok_0;
    let a = st.applied;
    let a2 = st2.applied;
    if !(m.since_version <= st.version || m.since_version > current) {
        assert(st2.version == m.since_version);
        if a2.len() > a.len() {
            assert(a2.len() == a.len() + 1);
            assert forall|i: int| 0 <= i < a2.len() implies (#[trigger] a2[i]).from_version < a2[i].to_version
                && a2[i].to_version <= current && a2[i].to_version <= st2.version by {
                if i < a.len() {
                    assert(a2[i] == a[i]);
                }
            }
            assert forall|i: int, j: int| 0 <= i < j < a2.len() implies (#[trigger] a2[i]).to_version <= (#[trigger] a2[j]).from_version by {
                assert(a2[i] == a[i]);
                if j < a.len() {
                    assert(a2[j] == a[j]);
                }
            }
        } else {
            assert(a2 == a);
        }
    }
}

proof fn lemma_run_in_order(ms: Seq<ConfigMigration>, n: nat, start: MigState, current: nat)
    requires
        mig_run(ms, n, start, current) is Ok,
        applied_in_order(start.applied, start.version, current),
    ensures
        mig_run(ms, n, start, current)->Ok_0.version >= start.version,
        applied_in_order(mig_run(ms, n, start, current)->Ok_0.applied, mig_run(ms, n, start, current)->Ok_0.version, current),
    decreases n,
{
    if n > 0 && n <= ms.len() {
        lemma_run_in_order(ms, (n - 1) as nat, start, current);
        let st = mig_run(ms, (n - 1) as nat, start, current)->Ok_0;
        lemma_step_in_order(st, ms[n - 1], current);
    }
}

/// Migrations report what they did in version order: every applied
/// migration goes forward to a version no newer than the supported one,
/// starting from where the previous one ended.
pub proof fn law_migrations_in_order(root: Json, version_path: Seq<char>, current: nat, ms: Seq<ConfigMigration>)
    requires
        migrated(root, version_path, current, ms) is Ok,
    ensures
        applied_in_order(migrated(root, version_path, current, ms)->Ok_0.1, current, current),
{
    let vp = runtime_path(root, version_path);
    let w = version_at(root, vp)->Ok_0;
    let sorted = by_version(ms);
    let start = MigState { root, version: w, applied: Seq::empty() };
    lemma_run_in_order(sorted, sorted.len(), start, current);
    let st = mig_run(sorted, sorted.len(), start, current)->Ok_0;
    assert forall|i: int| 0 <= i < st.applied.len() implies (#[trigger] st.applied[i]).to_version <= current by {
    }
}

/// A migrated value records the supported version at the version path.
pub proof fn law_migrated_version_recorded(root: Json, version_path: Seq<char>, current: nat, ms: Seq<ConfigMigration>)
    requires
        migrated(root, version_path, current, ms) is Ok,
    ensures
        value_at(migrated(root, version_path, current, ms)->Ok_0.0, runtime_path(root, version_path))
            == Some(Json::Number(decimal(current))),
{
    let vp = runtime_path(root, version_path);
    let w = version_at(root, vp)->Ok_0;
    let sorted = by_version(ms);
    let st = mig_run(sorted, sorted.len(), MigState { root, version: w, applied: Seq::empty() }, current)->Ok_0;
    let segs = split(vp, '.');
    crate::json::law_walk_after_insert(st.root, segs, Json::Number(decimal(current)));
    if vp.len() == 0 {
        assert(segs =~= seq![Seq::<char>::empty()]);
    }
}

} // verus!
