//! Loading a configuration value: the metadata and the registrations are
//! checked, the layers are merged over the defaults in their fixed order,
//! the migrations bring the value to the supported version, and the
//! declared checks are run on the value the application deserialized.
use vstd::prelude::*;
use crate::json::{JsonValue, Json, ensure_root_object, kind_name};
use crate::args::Layer;
use crate::config::{ConfigMetadata, FieldMetadata, MetaFault, meta_fault, fields_readable};
use crate::metachecks::{CheckModel, checks_readable};
use crate::vetting::{env_outcome, metadata_fault, refused_as};
use crate::assemble::{assemble_layers, ordered_layers, applied, layer_fits, layer_ready, layers_outcome};
use crate::migrate::{apply_config_migrations, migrated, mig_fault, mig_path, registered, invalid_fault, MigFault,
    normalize_version_registration_path, normalize_migration_registration_path};
use crate::sources::{ConfigMigration, ConfigMigrationKind};
use crate::rules::{ValidationErrors, validate_declared_checks, checks_errors};
use crate::error::ConfigError;
use crate::text::string_views;

verus! {

/// The metadata passes `validate_paths`.
pub open spec fn metadata_valid(fs: Seq<FieldMetadata>, cs: Seq<CheckModel>) -> bool {
    env_outcome(fs) is Ok && metadata_fault(fs, cs) is None
}

/// `e` is the error `validate_paths` reports for the metadata.
pub open spec fn metadata_refusal(fs: Seq<FieldMetadata>, cs: Seq<CheckModel>, e: ConfigError) -> bool {
    match env_outcome(fs) {
        Err(f) => meta_fault(e) == Some(f),
        Ok(_) => match metadata_fault(fs, cs) {
            Some(fault) => refused_as(Err(e), fault),
            None => false,
        },
    }
}

/// The first migration, from index `i` on, that names a path that cannot
/// be registered.
pub open spec fn migration_paths_fault(ms: Seq<ConfigMigration>, i: int) -> Option<MetaFault>
    decreases ms.len() - i,
{
    if i < 0 || i >= ms.len() {
        None
    } else {
        let f = match ms[i].kind {
            ConfigMigrationKind::Rename { from, to } => match mig_path(from@) {
                Err(f) => Some(f),
                Ok(_) => match mig_path(to@) {
                    Err(f) => Some(f),
                    Ok(_) => None,
                },
            },
            ConfigMigrationKind::Remove { path } => match mig_path(path@) {
                Err(f) => Some(f),
                Ok(_) => None,
            },
        };
        if f is Some { f } else { migration_paths_fault(ms, i + 1) }
    }
}

/// Why loading stops before any layer is merged.
pub enum SetupStop {
    /// A registration is refused.
    Meta(MetaFault),
    /// The defaults are not an object (of this kind).
    Root(Seq<char>),
}

/// The registrations, checked in order: the version path, the migration
/// paths, the defaults being an object, and migrations having a version to
/// work on. The version path and the supported version, when there is one.
pub open spec fn setup(version: Option<(String, u32)>, ms: Seq<ConfigMigration>, defaults: Json) -> Result<Option<(Seq<char>, u32)>, SetupStop> {
    let vp = match version {
        Some((p, v)) => match registered(p@, "configuration version"@, "configuration version path cannot be empty"@) {
            Err(f) => Err(f),
            Ok(q) => Ok(Some((q, v))),
        },
        None => Ok(None),
    };
    match vp {
        Err(f) => Err(SetupStop::Meta(f)),
        Ok(vp) => match migration_paths_fault(ms, 0) {
            Some(f) => Err(SetupStop::Meta(f)),
            None => if !(defaults is Object) {
                Err(SetupStop::Root(kind_name(defaults)))
            } else if ms.len() > 0 && vp is None {
                Err(SetupStop::Meta(MetaFault::Invalid(Seq::empty(),
                    "configuration migrations require ConfigLoader::config_version(...) to be set"@)))
            } else {
                Ok(vp)
            },
        },
    }
}

/// Every layer fits over the value merged before it.
pub open spec fn all_fit(base: Json, ls: Seq<Layer>, fs: Seq<FieldMetadata>) -> bool {
    forall|i: int| 0 <= i < ls.len() ==> layer_fits(applied(base, ls.take(i), fs), #[trigger] ls[i])
}

/// Loading can be carried out on this machine: no migration would have to
/// grow an array to an index beyond `usize`.
pub open spec fn load_fits_machine(defaults: Json, ls: Seq<Layer>, fs: Seq<FieldMetadata>,
    version: Option<(String, u32)>, ms: Seq<ConfigMigration>) -> bool
{
    match setup(version, ms, defaults) {
        Ok(Some((p, c))) => all_fit(defaults, ls, fs)
            ==> migrated(applied(defaults, ls, fs), p, c as nat, ms) != Err::<(Json, Seq<crate::migrate::AppliedView>), MigFault>(MigFault::Stuck),
        _ => true,
    }
}

fn check_migration_paths(migrations: &Vec<ConfigMigration>) -> (r: Result<(), ConfigError>)
    ensures
        match migration_paths_fault(migrations@, 0) {
            None => r is Ok,
            Some(f) => r matches Err(e) && invalid_fault(e) == Some(f),
        },
{
    let mut i: usize = 0;
    while i < migrations.len()
        invariant
            i <= migrations@.len(),
            migration_paths_fault(migrations@, 0) == migration_paths_fault(migrations@, i as int),
        decreases migrations@.len() - i,
    {
        match &migrations[i].kind {
            ConfigMigrationKind::Rename { from, to } => {
                normalize_migration_registration_path(from.as_str())?;
                normalize_migration_registration_path(to.as_str())?;
            },
            ConfigMigrationKind::Remove { path } => {
                normalize_migration_registration_path(path.as_str())?;
            },
        }
        i = i + 1;
    }
    Ok(())
}

/// Loads the configuration value: checks the metadata, the version and
/// migration registrations and the defaults; merges the file, custom,
/// environment and command-line layers over the defaults in that order,
/// refusing a layer that leaves a hole in an array; then, when a version
/// is configured, migrates the merged value to it.
pub fn load_value(
    defaults: JsonValue,
    files: Vec<Layer>,
    custom: Vec<Layer>,
    env: Vec<Layer>,
    args: Option<Layer>,
    metadata: &ConfigMetadata,
    version: Option<(String, u32)>,
    migrations: &Vec<ConfigMigration>,
) -> (r: Result<JsonValue, ConfigError>)
    requires
        fields_readable(metadata.fields_spec()),
        checks_readable(metadata.checks_spec()),
        forall|i: int| 0 <= i < ordered_layers(files@, custom@, env@, args, Seq::empty()).len()
            ==> layer_ready(#[trigger] ordered_layers(files@, custom@, env@, args, Seq::empty())[i]),
        load_fits_machine(defaults@, ordered_layers(files@, custom@, env@, args, Seq::empty()),
            metadata.fields_spec(), version, migrations@),
    ensures
        !metadata_valid(metadata.fields_spec(), metadata.checks_spec())
            ==> (r matches Err(e) && metadata_refusal(metadata.fields_spec(), metadata.checks_spec(), e)),
        metadata_valid(metadata.fields_spec(), metadata.checks_spec()) ==> match setup(version, migrations@, defaults@) {
            Err(SetupStop::Meta(f)) => r matches Err(e) && invalid_fault(e) == Some(f),
            Err(SetupStop::Root(k)) => r matches Err(ConfigError::RootMustBeObject { actual }) && actual@ == k,
            Ok(vp) => {
                let ls = ordered_layers(files@, custom@, env@, args, Seq::empty());
                let fs = metadata.fields_spec();
                let a = applied(defaults@, ls, fs);
                &&& !all_fit(defaults@, ls, fs) ==> (r matches Err(e) && layers_outcome(Err(e), defaults@, ls, fs))
                &&& all_fit(defaults@, ls, fs) && vp is None ==> (r matches Ok(x) && x@ == a)
                &&& all_fit(defaults@, ls, fs) && vp is Some ==> match migrated(a, vp->Some_0.0, vp->Some_0.1 as nat, migrations@) {
                    Ok((root, _)) => r matches Ok(x) && x@ == root,
                    Err(f) => r matches Err(e) && mig_fault(e) == Some(f),
                }
            },
        },
{
    metadata.validate_paths()?;
    let vp: Option<(String, u32)> = match &version {
        Some((p, v)) => Some((normalize_version_registration_path(p.as_str())?, *v)),
        None => None,
    };
    check_migration_paths(migrations)?;
    ensure_root_object(&defaults)?;
    if migrations.len() > 0 && vp.is_none() {
        return Err(ConfigError::MetadataInvalid {
            path: String::new(),
            message: "configuration migrations require ConfigLoader::config_version(...) to be set".to_string(),
        });
    }
    let ghost ls = ordered_layers(files@, custom@, env@, args, Seq::empty());
    let ghost fs = metadata.fields_spec();
    let ghost d = defaults@;
    let mut merged = match assemble_layers(defaults, files, custom, env, args, Vec::new(), metadata) {
        Err(e) => {
            proof {
                reveal(layers_outcome);
                reveal(layer_fits);
                reveal(crate::assemble::layer_refused);
                let i = choose|i: int| 0 <= i < ls.len()
                    && (forall|j: int| 0 <= j < i ==> layer_fits(applied(d, ls.take(j), fs), #[trigger] ls[j]))
                    && crate::assemble::layer_refused(e, applied(d, ls.take(i), fs), #[trigger] ls[i]);
                assert(!layer_fits(applied(d, ls.take(i), fs), ls[i]));
            }
            return Err(e);
        },
        Ok(m) => m,
    };
    proof {
        reveal(layers_outcome);
    }
    match vp {
        None => Ok(merged),
        Some((p, c)) => {
            apply_config_migrations(&mut merged, p.as_str(), c, migrations)?;
            Ok(merged)
        },
    }
}

/// Runs the metadata's cross-field checks on the value the application
/// deserialized; any failure refuses the load with all failures in order.
pub fn validate_declared(value: &JsonValue, metadata: &ConfigMetadata, secret_paths: &Vec<String>) -> (r: Result<(), ConfigError>)
    ensures
        ({
            let errs = checks_errors(value@, metadata.check_list(), string_views(secret_paths@), metadata.check_list().len());
            &&& errs.len() == 0 ==> r is Ok
            &&& errs.len() > 0 ==> (r matches Err(ConfigError::DeclaredValidation { errors }) && errors@ == errs)
        }),
{
    let errors = validate_declared_checks(value, metadata.checks(), secret_paths);
    if errors.is_empty() {
        Ok(())
    } else {
        Err(ConfigError::DeclaredValidation { errors })
    }
}

} // verus!
