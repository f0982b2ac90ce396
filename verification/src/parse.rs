//! Reading configuration text: JSON, TOML and YAML through their parsers,
//! into the library's value model.
use vstd::prelude::*;
use crate::json::Json;
use crate::json;
use crate::json::JsonValue;
use serde_json::Value as Js;
use crate::error::{ConfigError, LineColumn, offset_to_line_column, line_column_at};
use crate::sources::FileFormat;
use vstd::string::StringSliceAdditionalSpecFns;

verus! {

/// What `serde_json::from_str::<serde_json::Value>` reads from a text: the
/// value, or the error's message with its line and column.
pub uninterp spec fn json_text(text: Seq<char>) -> Result<Json, (Seq<char>, nat, nat)>;

/// What `toml::from_str::<toml::Value>` reads from a text, written as
/// JSON text (through `serde_json::to_value` and `serde_json::to_string`):
/// the text; or the TOML error's message with the byte offset where its
/// span starts, when it has one (`false`); or the message of a failure to
/// write the value as JSON (`true`, no offset).
pub uninterp spec fn toml_json(text: Seq<char>) -> Result<Seq<char>, (Seq<char>, Option<nat>, bool)>;

/// What `serde_yaml::from_str::<serde_json::Value>` reads from a text,
/// written as JSON text with `serde_json::to_string`: the text, or the
/// error's message with its line and column, when it has one.
pub uninterp spec fn yaml_json(text: Seq<char>) -> Result<Seq<char>, (Seq<char>, Option<(nat, nat)>)>;

/// Parses JSON text with `serde_json::from_str` and moves the result into
/// the library's value model, variant for variant (a number as its JSON
/// text; the items of an array and the entries of an object, in the map's
/// order, each read again from its own JSON text). Claimed: the result is
/// the named `json_text` of the text.
#[verifier::external_body]
pub(crate) fn read_json(text: &str) -> (r: Result<json::JsonValue, (String, usize, usize)>)
    ensures
        match json_text(text@) {
            Ok(j) => r matches Ok(v) && v@ == j,
            Err((m, l, c)) => r matches Err(e) && e.0@ == m && e.1 == l && e.2 == c,
        },
{
    Ok(match serde_json::from_str(text).map_err(|e| (e.to_string(), e.line(), e.column()))? {
        Js::Null => JsonValue::Null,
        Js::Bool(b) => JsonValue::Bool(b),
        Js::Number(n) => JsonValue::Number(n.to_string()),
        Js::String(s) => JsonValue::String(s),
        Js::Array(xs) => JsonValue::Array(xs.iter().map(|x| read_json(&x.to_string())).collect::<Result<_, _>>()?),
        Js::Object(m) => JsonValue::Object(m.into_iter().map(|(k, x)| Ok((k, read_json(&x.to_string())?))).collect::<Result<_, _>>()?),
    })
}

/// Parses TOML text with `toml::from_str::<toml::Value>` and writes the
/// result as JSON text. Claimed: the result is the named `toml_json` of
/// the text; the flag tells a serde_json failure from a TOML one.
#[verifier::external_body]
pub(crate) fn toml_to_json(text: &str) -> (r: Result<String, (String, Option<usize>, bool)>)
    ensures
        match toml_json(text@) {
            Ok(t) => r matches Ok(x) && x@ == t,
            Err((m, o, ser)) => r matches Err(e) && e.0@ == m && e.2 == ser && match o {
                Some(n) => e.1 matches Some(k) && k as nat == n,
                None => e.1 is None,
            },
        },
{
    match toml::from_str::<toml::Value>(text) {
        Ok(t) => match serde_json::to_value(t).and_then(|v| serde_json::to_string(&v)) {
            Ok(x) => Ok(x),
            Err(e) => Err((e.to_string(), None, true)),
        },
        Err(e) => Err((e.to_string(), e.span().map(|s| s.start), false)),
    }
}

/// Parses YAML text with `serde_yaml::from_str::<serde_json::Value>` and
/// writes the result as JSON text. Claimed: the result is the named
/// `yaml_json` of the text.
#[verifier::external_body]
pub(crate) fn yaml_to_json(text: &str) -> (r: Result<String, (String, Option<(usize, usize)>)>)
    ensures
        match yaml_json(text@) {
            Ok(t) => r matches Ok(x) && x@ == t,
            Err((m, lc)) => r matches Err(e) && e.0@ == m && match lc {
                Some((l, c)) => e.1 matches Some(k) && k.0 as nat == l && k.1 as nat == c,
                None => e.1 is None,
            },
        },
{
    match serde_yaml::from_str::<serde_json::Value>(text) {
        Ok(v) => match serde_json::to_string(&v) {
            Ok(x) => Ok(x),
            Err(e) => Err((e.to_string(), None)),
        },
        Err(e) => Err((e.to_string(), e.location().map(|l| (l.line(), l.column())))),
    }
}

/// The value JSON text reads as, with a parse error kept without location.
pub open spec fn json_of_text(t: Seq<char>) -> Result<Json, (Seq<char>, Option<(nat, nat)>)> {
    match json_text(t) {
        Ok(j) => Ok(j),
        Err((m, _, _)) => Err((m, None)),
    }
}

/// What reading a configuration file's text gives: the value, or the
/// parse error with its message and, where the parser gives one, its line
/// and column.
pub open spec fn file_value(content: &str, format: FileFormat) -> Result<Json, (Seq<char>, Option<(nat, nat)>)> {
    match format {
        FileFormat::Json => match json_text(content@) {
            Ok(j) => Ok(j),
            Err((m, l, c)) => Err((m, Some((l, c)))),
        },
        FileFormat::Toml => match toml_json(content@) {
            Ok(t) => json_of_text(t),
            Err((m, None, _)) => Err((m, None)),
            Err((m, Some(o), _)) => Err((m, Some(line_column_at(content.spec_bytes(), o)))),
        },
        FileFormat::Yaml => match yaml_json(content@) {
            Ok(t) => json_of_text(t),
            Err((m, lc)) => Err((m, lc)),
        },
    }
}

/// The message of a TOML value that could not be written as JSON.
pub open spec fn serialize_failure(content: &str, format: FileFormat) -> Option<Seq<char>> {
    match format {
        FileFormat::Toml => match toml_json(content@) {
            Err((m, _, true)) => Some(m),
            _ => None,
        },
        _ => None,
    }
}

/// Reads the JSON text that a TOML or YAML document was written as.
fn json_in_file(path: &str, t: &str, format: FileFormat) -> (r: Result<json::JsonValue, ConfigError>)
    ensures
        match json_of_text(t@) {
            Ok(j) => r matches Ok(v) && v@ == j,
            Err((m, _)) => r matches Err(ConfigError::ParseFile { path: p, format: f, location, message })
                && p@ == path@ && f == format && message@ == m && location is None,
        },
{
    match read_json(t) {
        Ok(v) => Ok(v),
        Err((m, _, _)) => Err(ConfigError::ParseFile { path: path.to_string(), format, location: None, message: m }),
    }
}

/// Parses the text of the configuration file at `path` in `format`.
pub fn parse_file_value(path: &str, content: &str, format: FileFormat) -> (r: Result<json::JsonValue, ConfigError>)
    requires
        content.spec_bytes().len() < usize::MAX,
    ensures
        serialize_failure(content, format) matches Some(m) ==> r matches Err(ConfigError::Serialize { message }) && message@ == m,
        serialize_failure(content, format) is None ==> match file_value(content, format) {
            Ok(j) => r matches Ok(v) && v@ == j,
            Err((m, lc)) => r matches Err(ConfigError::ParseFile { path: p, format: f, location, message })
                && p@ == path@ && f == format && message@ == m
                && match lc {
                    Some((l, c)) => location matches Some(x) && x.line == l && x.column == c,
                    None => location is None,
                },
        },
{
    match format {
        FileFormat::Json => match read_json(content) {
            Ok(v) => Ok(v),
            Err((m, l, c)) => Err(ConfigError::ParseFile {
                path: path.to_string(),
                format,
                location: Some(LineColumn { line: l, column: c }),
                message: m,
            }),
        },
        FileFormat::Toml => match toml_to_json(content) {
            Ok(t) => json_in_file(path, t.as_str(), format),
            Err((m, o, ser)) => {
                if ser {
                    return Err(ConfigError::Serialize { message: m });
                }
                let location = match o {
                    Some(n) => Some(offset_to_line_column(content, n)),
                    None => None,
                };
                Err(ConfigError::ParseFile { path: path.to_string(), format, location, message: m })
            },
        },
        FileFormat::Yaml => match yaml_to_json(content) {
            Ok(t) => json_in_file(path, t.as_str(), format),
            Err((m, lc)) => {
                let location = match lc {
                    Some((l, c)) => Some(LineColumn { line: l, column: c }),
                    None => None,
                };
                Err(ConfigError::ParseFile { path: path.to_string(), format, location, message: m })
            },
        },
    }
}

} // verus!
