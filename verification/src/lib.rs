//! Layered configuration loading: paths, environment mapping, overrides and merging.

pub mod text;
pub mod json;
pub mod path;
pub mod syntax;
pub mod env;
pub mod docs;
pub mod strmap;
pub mod metadata;
pub mod sources;
pub mod error;
pub mod config;
pub mod merge;
pub mod arrays;
pub mod args;
pub mod suggest;
pub mod validate;
pub mod migrate;
pub mod checks;
pub mod files;
pub mod patch;
pub mod rules;
pub mod overrides;
pub mod sparse;
pub mod field;
pub mod assemble;
pub mod parse;
pub mod vetting;
pub mod metachecks;
pub mod load;
pub mod envlayer;
pub mod valuelayer;
pub mod envdocs;
pub mod readiness;
pub mod properties;
