//! Errors and diagnostic records of configuration loading.
use vstd::prelude::*;
use vstd::string::StringSliceAdditionalSpecFns;
use crate::text::{join, chars_of, string_of, join_chars, concat_chars, decimal, decimal_chars, views};
use crate::sources::{SourceKind, SourceTrace, FileFormat, kind_label, trace_text, opt_view, cat};

verus! {

/// Line and column information for parse diagnostics (both one-based).
#[derive(Clone, Copy, PartialEq, Eq, Structural, Debug)]
pub struct LineColumn {
    /// One-based line number.
    pub line: usize,
    /// One-based column number.
    pub column: usize,
}

/// Information about an unknown configuration path discovered during loading.
#[derive(Debug)]
pub struct UnknownField {
    /// Dot-delimited path that was not recognized.
    pub path: String,
    /// Most recent source that contributed the unknown path, when known.
    pub source: Option<SourceTrace>,
    /// Best-effort suggestion for the intended path.
    pub suggestion: Option<String>,
}

impl UnknownField {
    /// Creates an unknown field description for a path.
    pub fn new(path: String) -> (r: Self)
        ensures
            r.path == path,
            r.source is None,
            r.suggestion is None,
    {
        UnknownField { path, source: None, suggestion: None }
    }

    /// Attaches source information.
    pub fn with_source(self, source: Option<SourceTrace>) -> (r: Self)
        ensures
            r.path == self.path,
            r.source == source,
            r.suggestion == self.suggestion,
    {
        UnknownField { path: self.path, source, suggestion: self.suggestion }
    }

    /// Attaches a best-effort suggestion.
    pub fn with_suggestion(self, suggestion: Option<String>) -> (r: Self)
        ensures
            r.path == self.path,
            r.source == self.source,
            r.suggestion == suggestion,
    {
        UnknownField { path: self.path, source: self.source, suggestion }
    }

    /// How the field is reported: ``unknown field `p` from src; did you mean `s`?``.
    pub fn render(&self) -> (r: String)
        ensures
            r@ == unknown_field_text(self.path@, match self.source {
                Some(t) => Some(trace_text(t.kind, t.name@, opt_view(t.location))),
                None => None,
            }, opt_view(self.suggestion)),
    {
        let mut out = cat(&cat("unknown field `", self.path.as_str()), "`");
        match &self.source {
            Some(t) => {
                out = cat(&cat(out.as_str(), " from "), t.render().as_str());
            },
            None => {},
        }
        match &self.suggestion {
            Some(sug) => {
                out = cat(&cat(&cat(out.as_str(), "; did you mean `"), sug.as_str()), "`?");
            },
            None => {},
        }
        out
    }
}

pub open spec fn unknown_field_text(path: Seq<char>, source: Option<Seq<char>>, suggestion: Option<Seq<char>>) -> Seq<char> {
    let a = "unknown field `"@ + path + "`"@;
    let b = match source {
        Some(s) => a + " from "@ + s,
        None => a,
    };
    match suggestion {
        Some(s) => b + "; did you mean `"@ + s + "`?"@,
        None => b,
    }
}

/// Errors returned while building, loading, validating, or inspecting configuration.
#[derive(Debug)]
pub enum ConfigError {
    /// Writing configuration state as an intermediate JSON value failed.
    Serialize { message: String },
    /// Declared field rules or cross-field checks failed.
    DeclaredValidation { errors: crate::rules::ValidationErrors },
    /// The root value was not a map-like object.
    RootMustBeObject { actual: String },
    /// A required configuration file was not found.
    MissingFile { path: String },
    /// None of the required candidate files were found.
    MissingFiles { paths: Vec<String> },
    /// Parsing a configuration file failed.
    ParseFile { path: String, format: FileFormat, location: Option<LineColumn>, message: String },
    /// An environment variable could not be converted into configuration data.
    InvalidEnv { name: String, path: String, message: String },
    /// A CLI override argument was invalid.
    InvalidArg { arg: String, message: String },
    /// A typed sparse patch could not be converted into a configuration layer.
    InvalidPatch { name: String, path: String, message: String },
    /// Multiple input paths resolved to the same canonical path.
    PathConflict { first_path: String, second_path: String, canonical_path: String },
    /// A source attempted to write to a field that restricts allowed source kinds.
    SourcePolicyViolation { path: String, trace: SourceTrace, allowed_sources: Vec<SourceKind> },
    /// An object key could not be represented in the dot-delimited path model.
    InvalidPathKey { path: String, key: String, message: String },
    /// Metadata declared the same alias or environment variable more than once.
    MetadataConflict { kind: String, name: String, first_path: String, second_path: String },
    /// Metadata declared an unsupported or invalid field configuration.
    MetadataInvalid { path: String, message: String },
    /// A CLI flag requiring a value was missing one.
    MissingArgValue { flag: String },
    /// A file path template referenced `{profile}` without a profile being set.
    MissingProfile { path: String },
    /// Deserializing the merged value into the target type failed.
    Deserialize { path: String, provenance: Option<SourceTrace>, message: String },
    /// Unknown configuration paths were found and the active policy rejected them.
    UnknownFields { fields: Vec<UnknownField> },
    /// The configuration declares a newer version than the loader supports.
    UnsupportedConfigVersion { path: String, found: u32, supported: u32 },
    /// The configuration version value could not be read or written.
    InvalidConfigVersion { path: String, message: String },
    /// A normalizer hook failed.
    Normalize { name: String, message: String },
}

/// ` (line L, column C)`, or nothing without a location.
pub open spec fn location_text(location: Option<LineColumn>) -> Seq<char> {
    match location {
        Some(l) => " (line "@ + decimal(l.line as nat) + ", column "@ + decimal(l.column as nat) + ")"@,
        None => Seq::empty(),
    }
}

/// How a parse location is appended to a message.
pub fn format_location(location: Option<LineColumn>) -> (r: String)
    ensures
        r@ == location_text(location),
{
    match location {
        Some(l) => {
            let line = string_of(&decimal_chars(l.line));
            let column = string_of(&decimal_chars(l.column));
            cat(&cat(&cat(&cat(" (line ", line.as_str()), ", column "), column.as_str()), ")")
        },
        None => String::new(),
    }
}

/// How a parent path is named in key errors.
pub fn format_path_location(path: &str) -> (r: String)
    ensures
        r@ == (if path@.len() == 0 { "the configuration root"@ } else { "`"@ + path@ + "`"@ }),
{
    if path.is_empty() {
        "the configuration root".to_string()
    } else {
        cat(&cat("`", path), "`")
    }
}

/// ` from SOURCE`, or nothing without a source.
pub fn deserialize_source_suffix(provenance: &Option<SourceTrace>) -> (r: String)
    ensures
        r@ == match *provenance {
            Some(t) => " from "@ + trace_text(t.kind, t.name@, opt_view(t.location)),
            None => Seq::empty(),
        },
{
    match provenance {
        Some(t) => cat(" from ", t.render().as_str()),
        None => String::new(),
    }
}

/// The names of source kinds, separated by `, `.
pub fn format_source_kind_list(kinds: &Vec<SourceKind>) -> (r: String)
    ensures
        r@ == join(kinds@.map_values(|k: SourceKind| kind_label(k)), ", "@),
{
    let mut labels: Vec<Vec<char>> = Vec::new();
    let mut i: usize = 0;
    while i < kinds.len()
        invariant
            i <= kinds.len(),
            views(labels@) == kinds@.take(i as int).map_values(|k: SourceKind| kind_label(k)),
        decreases kinds.len() - i,
    {
        let l = chars_of(kinds[i].label().as_str());
        let ghost old = views(labels@);
        labels.push(l);
        assert(views(labels@) =~= old.push(l@));
        assert(kinds@.take(i + 1).map_values(|k: SourceKind| kind_label(k)) =~= kinds@.take(i as int).map_values(|k: SourceKind| kind_label(k)).push(kind_label(kinds@[i as int])));
        i = i + 1;
    }
    assert(kinds@.take(kinds.len() as int) =~= kinds@);
    let sep = chars_of(", ");
    string_of(&join_chars(&labels, &sep))
}

/// The missing candidate paths, one `- path` line each.
pub fn format_missing_paths(paths: &Vec<String>) -> (r: String)
    ensures
        r@ == join(paths@.map_values(|p: String| "- "@ + p@), "\n"@),
{
    let mut lines: Vec<Vec<char>> = Vec::new();
    let mut i: usize = 0;
    while i < paths.len()
        invariant
            i <= paths.len(),
            views(lines@) == paths@.take(i as int).map_values(|p: String| "- "@ + p@),
        decreases paths.len() - i,
    {
        let l = chars_of(cat("- ", paths[i].as_str()).as_str());
        let ghost old = views(lines@);
        lines.push(l);
        assert(views(lines@) =~= old.push(l@));
        assert(paths@.take(i + 1).map_values(|p: String| "- "@ + p@) =~= paths@.take(i as int).map_values(|p: String| "- "@ + p@).push("- "@ + paths@[i as int]@));
        i = i + 1;
    }
    assert(paths@.take(paths.len() as int) =~= paths@);
    let sep = chars_of("\n");
    string_of(&join_chars(&lines, &sep))
}

/// The unknown fields, one `- field` line each.
pub fn format_unknown_fields(fields: &Vec<UnknownField>) -> (r: String)
    ensures
        r@ == join(fields@.map_values(|f: UnknownField| "- "@ + unknown_field_text(f.path@, match f.source {
            Some(t) => Some(trace_text(t.kind, t.name@, opt_view(t.location))),
            None => None,
        }, opt_view(f.suggestion))), "\n"@),
{
    let ghost spec_lines = fields@.map_values(|f: UnknownField| "- "@ + unknown_field_text(f.path@, match f.source {
        Some(t) => Some(trace_text(t.kind, t.name@, opt_view(t.location))),
        None => None,
    }, opt_view(f.suggestion)));
    let mut lines: Vec<Vec<char>> = Vec::new();
    let mut i: usize = 0;
    while i < fields.len()
        invariant
            i <= fields.len(),
            spec_lines == fields@.map_values(|f: UnknownField| "- "@ + unknown_field_text(f.path@, match f.source {
                Some(t) => Some(trace_text(t.kind, t.name@, opt_view(t.location))),
                None => None,
            }, opt_view(f.suggestion))),
            views(lines@) == spec_lines.take(i as int),
        decreases fields.len() - i,
    {
        let l = chars_of(cat("- ", fields[i].render().as_str()).as_str());
        let ghost old = views(lines@);
        lines.push(l);
        assert(views(lines@) =~= old.push(l@));
        assert(spec_lines.take(i + 1) =~= spec_lines.take(i as int).push(spec_lines[i as int]));
        i = i + 1;
    }
    assert(spec_lines.take(fields.len() as int) =~= spec_lines);
    let sep = chars_of("\n");
    string_of(&join_chars(&lines, &sep))
}

/// The number of `\n` bytes in `b`.
pub open spec fn newlines(b: Seq<u8>) -> nat
    decreases b.len(),
{
    if b.len() == 0 {
        0
    } else {
        newlines(b.drop_last()) + if b.last() == 10u8 { 1nat } else { 0nat }
    }
}

/// The number of bytes after the last `\n` in `b` (all of them without one).
pub open spec fn bytes_after_newline(b: Seq<u8>) -> nat
    decreases b.len(),
{
    if b.len() == 0 {
        0
    } else if b.last() == 10u8 {
        0
    } else {
        bytes_after_newline(b.drop_last()) + 1
    }
}

/// The one-based line and column of byte `offset` of `b` (of its end when
/// `offset` lies beyond it).
pub open spec fn line_column_at(b: Seq<u8>, offset: nat) -> (nat, nat) {
    let p = if offset < b.len() { b.take(offset as int) } else { b };
    (newlines(p) + 1, bytes_after_newline(p) + 1)
}

proof fn lemma_counts_bounded(b: Seq<u8>)
    ensures
        newlines(b) <= b.len(),
        bytes_after_newline(b) <= b.len(),
    decreases b.len(),
{
    if b.len() > 0 {
        lemma_counts_bounded(b.drop_last());
    }
}

/// The line and column of a byte offset into `input`.
pub fn offset_to_line_column(input: &str, offset: usize) -> (r: LineColumn)
    requires
        input.spec_bytes().len() < usize::MAX,
    ensures
        (r.line as nat, r.column as nat) == line_column_at(input.spec_bytes(), offset as nat),
{
    let bytes = input.as_bytes();
    let mut line: usize = 1;
    let mut column: usize = 1;
    let mut i: usize = 0;
    while i < bytes.len() && i != offset
        invariant
            i <= bytes@.len(),
            bytes@ == input.spec_bytes(),
            bytes@.len() < usize::MAX,
            i <= offset,
            line as nat == newlines(bytes@.take(i as int)) + 1,
            column as nat == bytes_after_newline(bytes@.take(i as int)) + 1,
        decreases bytes@.len() - i,
    {
        assert(bytes@.take(i + 1).drop_last() =~= bytes@.take(i as int));
        proof {
            lemma_counts_bounded(bytes@.take(i as int));
        }
        if bytes[i] == 10u8 {
            line = line + 1;
            column = 1;
        } else {
            column = column + 1;
        }
        i = i + 1;
    }
    assert(bytes@.take(bytes@.len() as int) =~= bytes@);
    LineColumn { line, column }
}

} // verus!
