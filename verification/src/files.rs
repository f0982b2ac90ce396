//! File paths of configuration sources: profile templates and formats.
use vstd::prelude::*;
use crate::text::{join, views, chars_of, string_of, join_chars, lower_all, lower_chars, str_eq};
use crate::env::{find_from, split_at_sep, split_at_sep_exec};
use crate::sources::{FileFormat, cat, opt_view};
use crate::error::ConfigError;

verus! {

pub open spec fn profile_marker() -> Seq<char> {
    "{profile}"@
}

/// A path template with every `{profile}` replaced by the profile; a
/// template without a profile is refused with its text.
pub open spec fn resolved_path(path: Seq<char>, profile: Option<Seq<char>>) -> Result<Seq<char>, Seq<char>> {
    if find_from(path, profile_marker(), 0) >= 0 {
        match profile {
            Some(p) => Ok(join(split_at_sep(path, profile_marker()), p)),
            None => Err(path),
        }
    } else {
        Ok(path)
    }
}

#[verifier::loop_isolation(false)]
fn find_exec_from(s: &[char], pat: &[char]) -> (r: bool)
    ensures
        r == (find_from(s@, pat@, 0) >= 0),
{
    let mut i: usize = 0;
    while i < s.len()
        invariant
            i <= s@.len(),
            find_from(s@, pat@, 0) == find_from(s@, pat@, i as int),
        decreases s@.len() - i,
    {
        if pat.len() <= s.len() - i {
            let mut k: usize = 0;
            let mut same = true;
            while k < pat.len()
                invariant
                    k <= pat@.len(),
                    i + pat@.len() <= s@.len(),
                    same == (forall|j: int| 0 <= j < k ==> #[trigger] s@[i + j] == pat@[j]),
                decreases pat@.len() - k,
            {
                if s[i + k] != pat[k] {
                    same = false;
                }
                k = k + 1;
            }
            if same {
                assert(k == pat@.len());
                assert forall|j: int| 0 <= j < pat@.len() implies s@.subrange(i as int, i + pat@.len())[j] == pat@[j] by {
                    assert(s@[i + j] == pat@[j]);
                }
                assert(s@.subrange(i as int, i + pat@.len()) =~= pat@);
                return true;
            } else {
                assert(s@.subrange(i as int, i + pat@.len()) != pat@) by {
                    let j = choose|j: int| 0 <= j < pat@.len() && s@[i + j] != pat@[j];
                    assert(s@.subrange(i as int, i + pat@.len())[j] == s@[i + j]);
                }
            }
        } else {
            assert(find_from(s@, pat@, i as int) == -1);
            return false;
        }
        i = i + 1;
    }
    if pat.len() == 0 {
        assert(s@.subrange(i as int, i as int) =~= pat@);
        true
    } else {
        assert(find_from(s@, pat@, i as int) == -1);
        false
    }
}

/// Resolves the `{profile}` placeholders of a file path.
pub fn resolve_profile_path(path: &str, profile: Option<&str>) -> (r: Result<String, ConfigError>)
    ensures
        match resolved_path(path@, match profile { Some(p) => Some(p@), None => None }) {
            Ok(p) => r matches Ok(s) && s@ == p,
            Err(p) => r matches Err(ConfigError::MissingProfile { path: q }) && q@ == p,
        },
{
    let s = chars_of(path);
    proof {
        reveal_strlit("{profile}");
    }
    let marker = chars_of("{profile}");
    if !find_exec_from(&s, &marker) {
        return Ok(path.to_string());
    }
    match profile {
        None => Err(ConfigError::MissingProfile { path: path.to_string() }),
        Some(p) => {
            let parts = split_at_sep_exec(&s, &marker);
            let pc = chars_of(p);
            let joined = join_chars(&parts, &pc);
            assert(parts@.map_values(|v: Vec<char>| v@) =~= views(parts@));
            Ok(string_of(&joined))
        },
    }
}

/// What `std::path::Path::extension` gives for a path, as text.
pub uninterp spec fn file_extension(path: Seq<char>) -> Option<Seq<char>>;

/// Calls `std::path::Path::extension` on the path. Claimed: the result is
/// the named `file_extension` of the path text; nothing more is stated.
#[verifier::external_body]
fn path_extension(path: &str) -> (r: Option<String>)
    ensures
        opt_view(r) == file_extension(path@),
{
    match std::path::Path::new(path).extension() {
        Some(e) => Some(e.to_string_lossy().into_owned()),
        None => None,
    }
}

/// The format an extension names (compared without ASCII case).
pub open spec fn format_of(ext: Option<Seq<char>>, path: Seq<char>) -> Result<FileFormat, (Seq<char>, Seq<char>)> {
    match ext {
        None => Err((path, "cannot infer file format without an extension"@)),
        Some(e) => {
            let l = lower_all(e);
            if l == "json"@ {
                Ok(FileFormat::Json)
            } else if l == "toml"@ {
                Ok(FileFormat::Toml)
            } else if l == "yaml"@ || l == "yml"@ {
                Ok(FileFormat::Yaml)
            } else {
                Err((path, "unsupported file format extension: "@ + l))
            }
        },
    }
}

/// The file format for an extension of the file `path`.
pub fn format_for_extension(extension: Option<&str>, path: &str) -> (r: Result<FileFormat, ConfigError>)
    ensures
        match format_of(match extension { Some(e) => Some(e@), None => None }, path@) {
            Ok(f) => r == Ok::<FileFormat, ConfigError>(f),
            Err((a, m)) => r matches Err(ConfigError::InvalidArg { arg: x, message: y }) && x@ == a && y@ == m,
        },
{
    let e = match extension {
        None => {
            return Err(ConfigError::InvalidArg { arg: path.to_string(), message: "cannot infer file format without an extension".to_string() });
        },
        Some(e) => e,
    };
    let l = string_of(&lower_chars(&chars_of(e)));
    if str_eq(l.as_str(), "json") {
        Ok(FileFormat::Json)
    } else if str_eq(l.as_str(), "toml") {
        Ok(FileFormat::Toml)
    } else if str_eq(l.as_str(), "yaml") || str_eq(l.as_str(), "yml") {
        Ok(FileFormat::Yaml)
    } else {
        Err(ConfigError::InvalidArg { arg: path.to_string(), message: cat("unsupported file format extension: ", l.as_str()) })
    }
}

/// Infers a file's format from its extension.
pub fn infer_format(path: &str) -> (r: Result<FileFormat, ConfigError>)
    ensures
        match format_of(file_extension(path@), path@) {
            Ok(f) => r == Ok::<FileFormat, ConfigError>(f),
            Err((a, m)) => r matches Err(ConfigError::InvalidArg { arg: x, message: y }) && x@ == a && y@ == m,
        },
{
    let ext = path_extension(path);
    match &ext {
        Some(e) => format_for_extension(Some(e.as_str()), path),
        None => format_for_extension(None, path),
    }
}

} // verus!
