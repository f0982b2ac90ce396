//! Declarative validation: the rules a single field can carry, the checks
//! that relate several fields, and the errors they report.
use vstd::prelude::*;
use crate::text::{chars_of, string_of, copy_string, str_eq, string_views, views, decimal, decimal_chars, join, join_chars};
use crate::json::{JsonValue, Json, json_of, items_view, entries_view, lemma_array_view, lemma_object_view};
use crate::sources::cat;
use crate::strmap::StrMap;
use crate::validate::{IpKind, ip_view, hostname_ok, url_ok, email_ok, regex_outcome, regex_test, is_valid_hostname,
    is_valid_url, is_valid_email};
use crate::path::{starts_with_pattern, is_secret_path, normalized, normalize_path, joined, join_path};
use crate::checks::{reached, pairs_view, collect_matching_values, bindings_of, bound_path, bind_required_paths};

verus! {

/// The characters that stand for the hexadecimal digit `d` (lowercase).
pub open spec fn hex_digit(d: int) -> char {
    if d < 10 { (('0' as int) + d) as char } else { (('a' as int) + d - 10) as char }
}

/// How one character is written inside a JSON string.
pub open spec fn escape_char(c: char) -> Seq<char> {
    if c == '"' {
        seq!['\\', '"']
    } else if c == '\\' {
        seq!['\\', '\\']
    } else if c == '\u{8}' {
        seq!['\\', 'b']
    } else if c == '\t' {
        seq!['\\', 't']
    } else if c == '\n' {
        seq!['\\', 'n']
    } else if c == '\u{c}' {
        seq!['\\', 'f']
    } else if c == '\r' {
        seq!['\\', 'r']
    } else if '\u{20}' > c {
        seq!['\\', 'u', '0', '0', hex_digit((c as int) / 16), hex_digit((c as int) % 16)]
    } else {
        seq![c]
    }
}

/// A text with every character escaped for a JSON string.
pub open spec fn escaped(s: Seq<char>) -> Seq<char>
    decreases s.len(),
{
    if s.len() == 0 {
        Seq::empty()
    } else {
        escaped(s.drop_last()) + escape_char(s.last())
    }
}

/// The compact JSON text of a value, as `serde_json` displays it: no white
/// space, object keys in the value's order, numbers as their own text.
pub open spec fn compact_text(j: Json) -> Seq<char>
    decreases j, 0nat,
{
    match j {
        Json::Null => "null"@,
        Json::Bool(b) => if b { "true"@ } else { "false"@ },
        Json::Number(n) => n,
        Json::Str(s) => seq!['"'] + escaped(s) + seq!['"'],
        Json::Array(items) => seq!['['] + items_text(items, items.len()) + seq![']'],
        Json::Object(es) => seq!['{'] + entries_text(es, es.len()) + seq!['}'],
    }
}

/// The first `n` items, written and separated by commas.
pub open spec fn items_text(items: Seq<Json>, n: nat) -> Seq<char>
    decreases items, n,
{
    if n == 0 || n > items.len() {
        Seq::empty()
    } else if n == 1 {
        compact_text(items[0])
    } else {
        items_text(items, (n - 1) as nat) + seq![','] + compact_text(items[n - 1])
    }
}

/// The first `n` entries, written as `"key":value` and separated by commas.
pub open spec fn entries_text(es: Seq<(Seq<char>, Json)>, n: nat) -> Seq<char>
    decreases es, n,
{
    if n == 0 || n > es.len() {
        Seq::empty()
    } else if n == 1 {
        seq!['"'] + escaped(es[0].0) + seq!['"', ':'] + compact_text(es[0].1)
    } else {
        entries_text(es, (n - 1) as nat) + seq![','] + seq!['"'] + escaped(es[n - 1].0) + seq!['"', ':'] + compact_text(es[n - 1].1)
    }
}

fn hex_char(d: u32) -> (r: char)
    requires
        d < 16,
    ensures
        r == hex_digit(d as int),
{
    let digits = ['0', '1', '2', '3', '4', '5', '6', '7', '8', '9', 'a', 'b', 'c', 'd', 'e', 'f'];
    let c = digits[d as usize];
    proof {
        if d < 10 {
            assert(((('0' as int) + d) as char) as int == ('0' as int) + d);
        } else {
            assert(((('a' as int) + d - 10) as char) as int == ('a' as int) + d - 10);
        }
    }
    c
}

fn control_code(c: char) -> (k: u32)
    requires
        '\u{20}' > c,
    ensures
        k as int == c as int,
        k < 32,
{
    c as u32
}

fn push_escaped(out: &mut Vec<char>, s: &str)
    ensures
        final(out)@ == old(out)@ + escaped(s@),
{
    let cs = chars_of(s);
    let ghost start = out@;
    let mut i: usize = 0;
    while i < cs.len()
        invariant
            i <= cs@.len(),
            out@ == start + escaped(cs@.take(i as int)),
            cs@ == s@,
        decreases cs@.len() - i,
    {
        let c = cs[i];
        let ghost before = out@;
        assert(cs@.take(i + 1).drop_last() =~= cs@.take(i as int));
        if c == '"' {
            out.push('\\');
            out.push('"');
        } else if c == '\\' {
            out.push('\\');
            out.push('\\');
        } else if c == '\u{8}' {
            out.push('\\');
            out.push('b');
        } else if c == '\t' {
            out.push('\\');
            out.push('t');
        } else if c == '\n' {
            out.push('\\');
            out.push('n');
        } else if c == '\u{c}' {
            out.push('\\');
            out.push('f');
        } else if c == '\r' {
            out.push('\\');
            out.push('r');
        } else if '\u{20}' > c {
            let code = control_code(c);
            out.push('\\');
            out.push('u');
            out.push('0');
            out.push('0');
            out.push(hex_char(code / 16));
            out.push(hex_char(code % 16));
            assert(out@ =~= before + seq!['\\', 'u', '0', '0', hex_digit((c as int) / 16), hex_digit((c as int) % 16)]);
        } else {
            assert(!('\u{20}' > c));
            out.push(c);
        }
        assert(out@ =~= before + escape_char(c));
        assert(start + escaped(cs@.take(i + 1)) =~= start + escaped(cs@.take(i as int)) + escape_char(c));
        i = i + 1;
    }
    assert(cs@.take(cs@.len() as int) =~= cs@);
}

fn push_str(out: &mut Vec<char>, s: &str)
    ensures
        final(out)@ == old(out)@ + s@,
{
    let cs = chars_of(s);
    let ghost start = out@;
    let mut i: usize = 0;
    while i < cs.len()
        invariant
            i <= cs@.len(),
            out@ == start + cs@.take(i as int),
            cs@ == s@,
        decreases cs@.len() - i,
    {
        out.push(cs[i]);
        assert(cs@.take(i + 1) =~= cs@.take(i as int).push(cs@[i as int]));
        i = i + 1;
    }
    assert(cs@.take(cs@.len() as int) =~= cs@);
}

fn push_json(out: &mut Vec<char>, v: &JsonValue)
    ensures
        final(out)@ == old(out)@ + compact_text(v@),
    decreases v, 1nat,
{
    match v {
        JsonValue::Null => {
            push_str(out, "null");
            proof {
                reveal_strlit("null");
            }
        },
        JsonValue::Bool(b) => {
            if *b {
                push_str(out, "true");
                proof {
                    reveal_strlit("true");
                }
            } else {
                push_str(out, "false");
                proof {
                    reveal_strlit("false");
                }
            }
        },
        JsonValue::Number(n) => {
            push_str(out, n.as_str());
        },
        JsonValue::String(s) => {
            let ghost start = out@;
            out.push('"');
            push_escaped(out, s.as_str());
            out.push('"');
            assert(out@ =~= start + (seq!['"'] + escaped(s@) + seq!['"']));
        },
        JsonValue::Array(items) => {
            proof {
                lemma_array_view(*items);
                assert(decreases_to!(*v => *items));
            }
            push_items(out, items);
        },
        JsonValue::Object(es) => {
            proof {
                lemma_object_view(*es);
                assert(decreases_to!(*v => *es));
            }
            push_entries(out, es);
        },
    }
}

fn push_items(out: &mut Vec<char>, items: &Vec<JsonValue>)
    ensures
        final(out)@ == old(out)@ + (seq!['['] + items_text(items_view(items@), items@.len()) + seq![']']),
    decreases items, 0nat,
{
    let ghost iv = items_view(items@);
    let ghost start = out@;
    out.push('[');
    let mut i: usize = 0;
    while i < items.len()
        invariant
            i <= items@.len(),
            iv == items_view(items@),
            out@ == start + seq!['['] + items_text(iv, i as nat),
        decreases items@.len() - i,
    {
        proof {
            assert(decreases_to!(*items => items@));
            assert(decreases_to!(items@ => items@[i as int]));
        }
        if i > 0 {
            out.push(',');
        }
        push_json(out, &items[i]);
        assert(iv[i as int] == items@[i as int]@);
        if i == 0 {
            assert(out@ =~= start + seq!['['] + items_text(iv, 1));
        } else {
            assert(out@ =~= start + seq!['['] + items_text(iv, (i + 1) as nat));
        }
        i = i + 1;
    }
    out.push(']');
    assert(out@ =~= start + (seq!['['] + items_text(iv, iv.len()) + seq![']']));
}

fn push_entries(out: &mut Vec<char>, es: &Vec<(String, JsonValue)>)
    ensures
        final(out)@ == old(out)@ + (seq!['{'] + entries_text(entries_view(es@), es@.len()) + seq!['}']),
    decreases es, 0nat,
{
    let ghost ev = entries_view(es@);
    let ghost start = out@;
    out.push('{');
    let mut i: usize = 0;
    while i < es.len()
        invariant
            i <= es@.len(),
            ev == entries_view(es@),
            out@ == start + seq!['{'] + entries_text(ev, i as nat),
        decreases es@.len() - i,
    {
        proof {
            assert(decreases_to!(*es => es@));
            assert(decreases_to!(es@ => es@[i as int]));
            assert(decreases_to!(es@[i as int] => es@[i as int].1));
        }
        let ghost before = out@;
        if i > 0 {
            out.push(',');
        }
        out.push('"');
        push_escaped(out, es[i].0.as_str());
        out.push('"');
        out.push(':');
        push_json(out, &es[i].1);
        assert(ev[i as int] == (es@[i as int].0@, es@[i as int].1@));
        if i == 0 {
            assert(out@ =~= start + seq!['{'] + entries_text(ev, 1));
        } else {
            assert(out@ =~= start + seq!['{'] + entries_text(ev, (i + 1) as nat));
        }
        i = i + 1;
    }
    out.push('}');
    assert(out@ =~= start + (seq!['{'] + entries_text(ev, ev.len()) + seq!['}']));
}

/// The compact JSON text of a value.
pub fn json_to_string(v: &JsonValue) -> (r: String)
    ensures
        r@ == compact_text(v@),
{
    let mut out: Vec<char> = Vec::new();
    push_json(&mut out, v);
    assert(out@ =~= compact_text(v@));
    string_of(&out)
}

/// Whether two values are equal.
#[verifier::loop_isolation(false)]
pub fn values_equal(a: &JsonValue, b: &JsonValue) -> (r: bool)
    ensures
        r == (a@ == b@),
    decreases a,
{
    match (a, b) {
        (JsonValue::Null, JsonValue::Null) => true,
        (JsonValue::Bool(x), JsonValue::Bool(y)) => *x == *y,
        (JsonValue::Number(x), JsonValue::Number(y)) => str_eq(x.as_str(), y.as_str()),
        (JsonValue::String(x), JsonValue::String(y)) => str_eq(x.as_str(), y.as_str()),
        (JsonValue::Array(xs), JsonValue::Array(ys)) => {
            proof {
                lemma_array_view(*xs);
                lemma_array_view(*ys);
            }
            if xs.len() != ys.len() {
                assert(items_view(xs@).len() != items_view(ys@).len());
                return false;
            }
            let mut i: usize = 0;
            while i < xs.len()
                invariant
                    i <= xs@.len(),
                    xs@.len() == ys@.len(),
                    forall|j: int| 0 <= j < i ==> #[trigger] json_of(xs@[j]) == json_of(ys@[j]),
                decreases xs@.len() - i,
            {
                proof {
                    assert(decreases_to!(*a => *xs));
                    assert(decreases_to!(*xs => xs@));
                    assert(decreases_to!(xs@ => xs@[i as int]));
                }
                if !values_equal(&xs[i], &ys[i]) {
                    assert(items_view(xs@)[i as int] != items_view(ys@)[i as int]);
                    return false;
                }
                i = i + 1;
            }
            assert(items_view(xs@) =~= items_view(ys@));
            true
        },
        (JsonValue::Object(xs), JsonValue::Object(ys)) => {
            proof {
                lemma_object_view(*xs);
                lemma_object_view(*ys);
            }
            if xs.len() != ys.len() {
                assert(entries_view(xs@).len() != entries_view(ys@).len());
                return false;
            }
            let mut i: usize = 0;
            while i < xs.len()
                invariant
                    i <= xs@.len(),
                    xs@.len() == ys@.len(),
                    forall|j: int| 0 <= j < i ==> (#[trigger] xs@[j]).0@ == ys@[j].0@ && json_of(xs@[j].1) == json_of(ys@[j].1),
                decreases xs@.len() - i,
            {
                proof {
                    assert(decreases_to!(*a => *xs));
                    assert(decreases_to!(*xs => xs@));
                    assert(decreases_to!(xs@ => xs@[i as int]));
                    assert(decreases_to!(xs@[i as int] => xs@[i as int].1));
                }
                if !str_eq(xs[i].0.as_str(), ys[i].0.as_str()) || !values_equal(&xs[i].1, &ys[i].1) {
                    assert(entries_view(xs@)[i as int] != entries_view(ys@)[i as int]);
                    return false;
                }
                i = i + 1;
            }
            assert(entries_view(xs@) =~= entries_view(ys@));
            true
        },
        _ => false,
    }
}

/// What `format!("{:?}", s)` gives for a string: the quoted, escaped debug
/// form that the standard library writes.
pub uninterp spec fn debug_text(s: Seq<char>) -> Seq<char>;

/// Renders `s` with the standard library's `Debug` formatting (`{:?}`).
/// Claimed: the result is the named `debug_text` of `s`.
#[verifier::external_body]
fn debug_quote(s: &str) -> (r: String)
    ensures
        r@ == debug_text(s@),
{
    format!("{s:?}")
}

/// A numeric bound of a rule: a finite number (its JSON text) or the text
/// of a bound that is not finite.
pub enum ValidationNumber {
    Finite(String),
    Invalid(String),
}

/// A scalar value that rules and checks compare against.
pub struct ValidationValue(pub JsonValue);

/// How a bound is shown in messages.
pub open spec fn number_text(n: ValidationNumber) -> Seq<char> {
    match n {
        ValidationNumber::Finite(t) => t@,
        ValidationNumber::Invalid(t) => t@,
    }
}

/// A bound as a JSON value: a number, or the text of one that is not finite.
pub open spec fn number_json(n: ValidationNumber) -> Json {
    match n {
        ValidationNumber::Finite(t) => Json::Number(t@),
        ValidationNumber::Invalid(t) => Json::Str(t@),
    }
}

impl ValidationNumber {
    /// Whether the bound is a finite number.
    pub fn is_finite(&self) -> (r: bool)
        ensures
            r == (*self is Finite),
    {
        match self {
            ValidationNumber::Finite(_) => true,
            ValidationNumber::Invalid(_) => false,
        }
    }

    /// The bound as a JSON value.
    pub fn as_json_value(&self) -> (r: JsonValue)
        ensures
            r@ == number_json(*self),
    {
        match self {
            ValidationNumber::Finite(t) => JsonValue::Number(copy_string(t)),
            ValidationNumber::Invalid(t) => JsonValue::String(copy_string(t)),
        }
    }

    /// The bound as messages show it.
    pub fn render(&self) -> (r: String)
        ensures
            r@ == number_text(*self),
    {
        match self {
            ValidationNumber::Finite(t) => copy_string(t),
            ValidationNumber::Invalid(t) => copy_string(t),
        }
    }
}

/// How a value is shown in messages: a string in quotes as `Debug` writes
/// it, anything else as compact JSON.
pub open spec fn value_text(j: Json) -> Seq<char> {
    match j {
        Json::Str(s) => debug_text(s),
        _ => compact_text(j),
    }
}

impl ValidationValue {
    /// The value as messages show it.
    pub fn render(&self) -> (r: String)
        ensures
            r@ == value_text(self.0@),
    {
        match &self.0 {
            JsonValue::String(s) => debug_quote(s.as_str()),
            other => json_to_string(other),
        }
    }
}

/// A declarative rule on one field.
pub enum ValidationRule {
    NonEmpty,
    Min(ValidationNumber),
    Max(ValidationNumber),
    MinLength(usize),
    MaxLength(usize),
    MinItems(usize),
    MaxItems(usize),
    MinProperties(usize),
    MaxProperties(usize),
    MultipleOf(ValidationNumber),
    Pattern(String),
    UniqueItems,
    OneOf(Vec<ValidationValue>),
    Hostname,
    Url,
    Email,
    IpAddr,
    SocketAddr,
    AbsolutePath,
}

/// A declarative check across several fields.
pub enum ValidationCheck {
    AtLeastOneOf { paths: Vec<String> },
    ExactlyOneOf { paths: Vec<String> },
    MutuallyExclusive { paths: Vec<String> },
    RequiredWith { path: String, requires: Vec<String> },
    RequiredIf { path: String, equals: ValidationValue, requires: Vec<String> },
}

/// The machine-readable identifier of a rule.
pub open spec fn rule_code(r: ValidationRule) -> Seq<char> {
    match r {
        ValidationRule::NonEmpty => "non_empty"@,
        ValidationRule::Min(_) => "min"@,
        ValidationRule::Max(_) => "max"@,
        ValidationRule::MinLength(_) => "min_length"@,
        ValidationRule::MaxLength(_) => "max_length"@,
        ValidationRule::MinItems(_) => "min_items"@,
        ValidationRule::MaxItems(_) => "max_items"@,
        ValidationRule::MinProperties(_) => "min_properties"@,
        ValidationRule::MaxProperties(_) => "max_properties"@,
        ValidationRule::MultipleOf(_) => "multiple_of"@,
        ValidationRule::Pattern(_) => "pattern"@,
        ValidationRule::UniqueItems => "unique_items"@,
        ValidationRule::OneOf(_) => "one_of"@,
        ValidationRule::Hostname => "hostname"@,
        ValidationRule::Url => "url"@,
        ValidationRule::Email => "email"@,
        ValidationRule::IpAddr => "ip_addr"@,
        ValidationRule::SocketAddr => "socket_addr"@,
        ValidationRule::AbsolutePath => "absolute_path"@,
    }
}

/// The machine-readable identifier of a check.
pub open spec fn check_code(c: ValidationCheck) -> Seq<char> {
    match c {
        ValidationCheck::AtLeastOneOf { .. } => "at_least_one_of"@,
        ValidationCheck::ExactlyOneOf { .. } => "exactly_one_of"@,
        ValidationCheck::MutuallyExclusive { .. } => "mutually_exclusive"@,
        ValidationCheck::RequiredWith { .. } => "required_with"@,
        ValidationCheck::RequiredIf { .. } => "required_if"@,
    }
}

impl ValidationRule {
    /// A stable machine-readable identifier.
    pub fn code(&self) -> (r: &'static str)
        ensures
            r@ == rule_code(*self),
    {
        match self {
            ValidationRule::NonEmpty => "non_empty",
            ValidationRule::Min(_) => "min",
            ValidationRule::Max(_) => "max",
            ValidationRule::MinLength(_) => "min_length",
            ValidationRule::MaxLength(_) => "max_length",
            ValidationRule::MinItems(_) => "min_items",
            ValidationRule::MaxItems(_) => "max_items",
            ValidationRule::MinProperties(_) => "min_properties",
            ValidationRule::MaxProperties(_) => "max_properties",
            ValidationRule::MultipleOf(_) => "multiple_of",
            ValidationRule::Pattern(_) => "pattern",
            ValidationRule::UniqueItems => "unique_items",
            ValidationRule::OneOf(_) => "one_of",
            ValidationRule::Hostname => "hostname",
            ValidationRule::Url => "url",
            ValidationRule::Email => "email",
            ValidationRule::IpAddr => "ip_addr",
            ValidationRule::SocketAddr => "socket_addr",
            ValidationRule::AbsolutePath => "absolute_path",
        }
    }
}

impl ValidationCheck {
    /// A stable machine-readable identifier.
    pub fn code(&self) -> (r: &'static str)
        ensures
            r@ == check_code(*self),
    {
        match self {
            ValidationCheck::AtLeastOneOf { .. } => "at_least_one_of",
            ValidationCheck::ExactlyOneOf { .. } => "exactly_one_of",
            ValidationCheck::MutuallyExclusive { .. } => "mutually_exclusive",
            ValidationCheck::RequiredWith { .. } => "required_with",
            ValidationCheck::RequiredIf { .. } => "required_if",
        }
    }
}

/// A single validation failure.
#[derive(Debug)]
pub struct ValidationError {
    /// The path the failure is about (empty for a cross-field check).
    pub path: String,
    /// The paths a cross-field failure involves.
    pub related_paths: Vec<String>,
    /// What is wrong.
    pub message: String,
    /// The identifier of the failed rule or check.
    pub rule: Option<String>,
    /// What the rule expected.
    pub expected: Option<JsonValue>,
    /// What was found (redacted for a secret).
    pub actual: Option<JsonValue>,
}

/// A validation failure as plain values.
pub struct ErrorView {
    pub path: Seq<char>,
    pub related: Seq<Seq<char>>,
    pub message: Seq<char>,
    pub rule: Option<Seq<char>>,
    pub expected: Option<Json>,
    pub actual: Option<Json>,
}

pub open spec fn opt_json_of(v: Option<JsonValue>) -> Option<Json> {
    match v {
        Some(x) => Some(x@),
        None => None,
    }
}

impl View for ValidationError {
    type V = ErrorView;

    open spec fn view(&self) -> ErrorView {
        ErrorView {
            path: self.path@,
            related: string_views(self.related_paths@),
            message: self.message@,
            rule: crate::sources::opt_view(self.rule),
            expected: opt_json_of(self.expected),
            actual: opt_json_of(self.actual),
        }
    }
}

impl ValidationError {
    /// A failure at `path` with `message` and nothing else attached.
    pub fn new(path: &str, message: &str) -> (r: Self)
        ensures
            r@ == (ErrorView { path: path@, related: Seq::empty(), message: message@, rule: None, expected: None, actual: None }),
    {
        let r = ValidationError {
            path: path.to_string(),
            related_paths: Vec::new(),
            message: message.to_string(),
            rule: None,
            expected: None,
            actual: None,
        };
        assert(string_views(r.related_paths@) =~= Seq::<Seq<char>>::empty());
        r
    }

    /// Attaches a rule identifier.
    pub fn with_rule(self, rule: &str) -> (r: Self)
        ensures
            r@ == (ErrorView { rule: Some(rule@), ..self@ }),
    {
        ValidationError { rule: Some(rule.to_string()), ..self }
    }

    /// Attaches the paths a cross-field failure involves.
    pub fn with_related_paths(self, related_paths: Vec<String>) -> (r: Self)
        ensures
            r@ == (ErrorView { related: string_views(related_paths@), ..self@ }),
    {
        ValidationError { related_paths, ..self }
    }

    /// Attaches the expected value.
    pub fn with_expected(self, expected: JsonValue) -> (r: Self)
        ensures
            r@ == (ErrorView { expected: Some(expected@), ..self@ }),
    {
        ValidationError { expected: Some(expected), ..self }
    }

    /// Attaches the value that was found.
    pub fn with_actual(self, actual: JsonValue) -> (r: Self)
        ensures
            r@ == (ErrorView { actual: Some(actual@), ..self@ }),
    {
        ValidationError { actual: Some(actual), ..self }
    }

    /// How the failure is shown: `path: message`, or the message alone.
    pub fn render(&self) -> (r: String)
        ensures
            r@ == (if self.path@.len() == 0 { self.message@ } else { self.path@ + ": "@ + self.message@ }),
    {
        if self.path.as_str().is_empty() {
            copy_string(&self.message)
        } else {
            cat(&cat(self.path.as_str(), ": "), self.message.as_str())
        }
    }
}

/// A collection of validation failures, in the order they were found.
#[derive(Debug)]
pub struct ValidationErrors {
    errors: Vec<ValidationError>,
}

pub open spec fn errors_view(v: Seq<ValidationError>) -> Seq<ErrorView> {
    v.map_values(|e: ValidationError| e@)
}

impl View for ValidationErrors {
    type V = Seq<ErrorView>;

    closed spec fn view(&self) -> Seq<ErrorView> {
        errors_view(self.errors@)
    }
}

impl ValidationErrors {
    /// No failures.
    pub fn new() -> (r: Self)
        ensures
            r@ == Seq::<ErrorView>::empty(),
    {
        let r = ValidationErrors { errors: Vec::new() };
        assert(errors_view(r.errors@) =~= Seq::<ErrorView>::empty());
        r
    }

    /// One failure.
    pub fn from_error(error: ValidationError) -> (r: Self)
        ensures
            r@ == seq![error@],
    {
        let mut r = Self::new();
        r.push(error);
        r
    }

    /// One failure with a path and message.
    pub fn from_message(path: &str, message: &str) -> (r: Self)
        ensures
            r@.len() == 1,
            r@[0] == (ErrorView { path: path@, related: Seq::empty(), message: message@, rule: None, expected: None, actual: None }),
    {
        Self::from_error(ValidationError::new(path, message))
    }

    /// Appends a failure.
    pub fn push(&mut self, error: ValidationError)
        ensures
            final(self)@ == old(self)@.push(error@),
    {
        let ghost e = error@;
        self.errors.push(error);
        assert(errors_view(self.errors@) =~= old(self)@.push(e));
    }

    /// Appends failures, in order.
    pub fn extend(&mut self, errors: Vec<ValidationError>)
        ensures
            final(self)@ == old(self)@ + errors_view(errors@),
    {
        let mut errors = errors;
        let ghost all = errors@;
        let ghost start = self@;
        let mut i: usize = 0;
        let n = errors.len();
        assert(all.skip(0) =~= all);
        while i < n
            invariant
                i <= n,
                n == all.len(),
                errors@ == all.skip(i as int),
                self@ == start + errors_view(all.take(i as int)),
            decreases n - i,
        {
            let e = errors.remove(0);
            assert(e == all[i as int]);
            assert(errors@ =~= all.skip(i + 1));
            self.push(e);
            assert(errors_view(all.take(i + 1)) =~= errors_view(all.take(i as int)).push(all[i as int]@));
            i = i + 1;
        }
        assert(all.take(n as int) =~= all);
    }

    /// Whether there is no failure.
    pub fn is_empty(&self) -> (r: bool)
        ensures
            r == (self@.len() == 0),
    {
        self.errors.len() == 0
    }

    /// The number of failures.
    pub fn len(&self) -> (r: usize)
        ensures
            r == self@.len(),
    {
        self.errors.len()
    }

    /// The failures, in order.
    pub fn into_vec(self) -> (r: Vec<ValidationError>)
        ensures
            errors_view(r@) == self@,
    {
        self.errors
    }

    /// Walks the failures in order.
    pub fn iter(&self) -> (r: std::slice::Iter<'_, ValidationError>)
        ensures
            errors_view(vstd::std_specs::slice::into_iter_elts(r)) == self@,
    {
        let r = self.errors.as_slice().iter();
        proof {
            broadcast use vstd::std_specs::slice::axiom_spec_slice_iter;
            assert(vstd::std_specs::slice::into_iter_elts(r) =~= self.errors@);
        }
        r
    }

    /// The failures, in order.
    pub fn errors(&self) -> (r: &Vec<ValidationError>)
        ensures
            errors_view(r@) == self@,
    {
        &self.errors
    }
}

/// What `multiple_of` learns from reading its factor as a float.
pub enum DivisorProbe {
    /// The factor has no float value.
    NotFinite,
    /// The factor is zero or negative as a float.
    NotPositive,
    /// The factor is usable; the value read as a float is a multiple of
    /// it, or is not (`None`: the value is not numeric).
    Usable(Option<bool>),
}

/// What only floating point or the address parser can tell about a value,
/// for the rules that ask it.
pub enum RuleProbe {
    /// The rule asks nothing.
    Unused,
    /// `min` and `max`: whether the value, read as a float, is within the
    /// bound (`None`: the value is not numeric).
    Compared(Option<bool>),
    /// `multiple_of`: what reading the factor and the value gave.
    Divided(DivisorProbe),
    /// `ip_addr` and `socket_addr`: whether the string is accepted.
    Accepted(bool),
}

/// What `std::path::Path::is_absolute` says of a path text on the target
/// platform.
pub uninterp spec fn absolute_path(path: Seq<char>) -> bool;

/// Calls `std::path::Path::is_absolute` on the text. Claimed: the result is
/// the named `absolute_path` of the text; nothing more is stated.
#[verifier::external_body]
fn path_is_absolute(path: &str) -> (r: bool)
    ensures
        r == absolute_path(path@),
{
    std::path::Path::new(path).is_absolute()
}

/// The probe a rule asks for is the one given.
pub open spec fn probe_fits(rule: ValidationRule, actual: Json, probe: RuleProbe) -> bool {
    match rule {
        ValidationRule::Min(ValidationNumber::Finite(_)) => probe is Compared,
        ValidationRule::Max(ValidationNumber::Finite(_)) => probe is Compared,
        ValidationRule::MultipleOf(ValidationNumber::Finite(_)) => probe is Divided,
        ValidationRule::IpAddr => actual is Str ==> probe is Accepted,
        ValidationRule::SocketAddr => actual is Str ==> probe is Accepted,
        ValidationRule::AbsolutePath => true,
        _ => true,
    }
}

/// The length a length rule measures: characters of a string, items of an
/// array, entries of an object.
pub open spec fn json_len(j: Json) -> Option<nat> {
    match j {
        Json::Str(s) => Some(s.len()),
        Json::Array(items) => Some(items.len()),
        Json::Object(es) => Some(es.len()),
        _ => None,
    }
}

/// Whether two items are equal.
pub open spec fn has_duplicate(items: Seq<Json>) -> bool {
    exists|i: int, j: int| 0 <= i < j < items.len() && items[i] == items[j]
}

pub open spec fn count_json(n: usize) -> Json {
    Json::Number(decimal(n as nat))
}

pub open spec fn value_jsons(values: Seq<ValidationValue>) -> Seq<Json> {
    values.map_values(|v: ValidationValue| v.0@)
}

pub open spec fn value_texts(values: Seq<ValidationValue>) -> Seq<Seq<char>> {
    values.map_values(|v: ValidationValue| value_text(v.0@))
}

/// For a string that a rule inspects: `bad` when the check fails, `kind`
/// when the value is not a string.
pub open spec fn string_rule(actual: Json, accepted: spec_fn(Seq<char>) -> bool, kind: Seq<char>, bad: Seq<char>) -> Option<(Seq<char>, Option<Json>)> {
    match actual {
        Json::Str(s) => if accepted(s) { None } else { Some((bad, None)) },
        _ => Some((kind, None)),
    }
}

pub open spec fn probe_accepts(probe: RuleProbe) -> bool {
    probe matches RuleProbe::Accepted(true)
}

/// Why a value fails a rule (the message, and the expected value to
/// report), or `None` when it passes.
pub open spec fn rule_failure(actual: Json, rule: ValidationRule, probe: RuleProbe, ips: Map<Seq<char>, IpKind>) -> Option<(Seq<char>, Option<Json>)> {
    match rule {
        ValidationRule::NonEmpty => {
            let empty = match actual {
                Json::Str(s) => s.len() == 0,
                Json::Array(items) => items.len() == 0,
                Json::Object(es) => es.len() == 0,
                _ => false,
            };
            if empty { Some(("must not be empty"@, None)) } else { None }
        },
        ValidationRule::Min(b) => match b {
            ValidationNumber::Invalid(t) => Some(("declared minimum must be finite, got "@ + t@, Some(number_json(b)))),
            ValidationNumber::Finite(t) => match probe {
                RuleProbe::Compared(Some(true)) => None,
                RuleProbe::Compared(Some(false)) => Some(("must be >= "@ + t@, Some(number_json(b)))),
                _ => Some(("must be a numeric value"@, Some(number_json(b)))),
            },
        },
        ValidationRule::Max(b) => match b {
            ValidationNumber::Invalid(t) => Some(("declared maximum must be finite, got "@ + t@, Some(number_json(b)))),
            ValidationNumber::Finite(t) => match probe {
                RuleProbe::Compared(Some(true)) => None,
                RuleProbe::Compared(Some(false)) => Some(("must be <= "@ + t@, Some(number_json(b)))),
                _ => Some(("must be a numeric value"@, Some(number_json(b)))),
            },
        },
        ValidationRule::MinLength(min) => match json_len(actual) {
            Some(l) => if l >= min { None } else { Some(("length must be >= "@ + decimal(min as nat), Some(count_json(min)))) },
            None => Some(("must be a string, array, or object to apply length validation"@, Some(count_json(min)))),
        },
        ValidationRule::MaxLength(max) => match json_len(actual) {
            Some(l) => if l <= max { None } else { Some(("length must be <= "@ + decimal(max as nat), Some(count_json(max)))) },
            None => Some(("must be a string, array, or object to apply length validation"@, Some(count_json(max)))),
        },
        ValidationRule::MinItems(min) => match actual {
            Json::Array(items) => if items.len() >= min { None } else { Some(("item count must be >= "@ + decimal(min as nat), Some(count_json(min)))) },
            _ => Some(("must be an array to apply item-count validation"@, Some(count_json(min)))),
        },
        ValidationRule::MaxItems(max) => match actual {
            Json::Array(items) => if items.len() <= max { None } else { Some(("item count must be <= "@ + decimal(max as nat), Some(count_json(max)))) },
            _ => Some(("must be an array to apply item-count validation"@, Some(count_json(max)))),
        },
        ValidationRule::MinProperties(min) => match actual {
            Json::Object(es) => if es.len() >= min { None } else { Some(("property count must be >= "@ + decimal(min as nat), Some(count_json(min)))) },
            _ => Some(("must be an object to apply property-count validation"@, Some(count_json(min)))),
        },
        ValidationRule::MaxProperties(max) => match actual {
            Json::Object(es) => if es.len() <= max { None } else { Some(("property count must be <= "@ + decimal(max as nat), Some(count_json(max)))) },
            _ => Some(("must be an object to apply property-count validation"@, Some(count_json(max)))),
        },
        ValidationRule::MultipleOf(b) => match b {
            ValidationNumber::Invalid(t) => Some(("declared multiple_of factor must be finite, got "@ + t@, Some(number_json(b)))),
            ValidationNumber::Finite(t) => match probe {
                RuleProbe::Divided(DivisorProbe::NotFinite) => Some(("declared multiple_of factor must be finite, got "@ + t@, Some(number_json(b)))),
                RuleProbe::Divided(DivisorProbe::NotPositive) => Some(("declared multiple_of factor must be > 0"@, Some(number_json(b)))),
                RuleProbe::Divided(DivisorProbe::Usable(Some(true))) => None,
                RuleProbe::Divided(DivisorProbe::Usable(Some(false))) => Some(("must be a multiple of "@ + t@, Some(number_json(b)))),
                _ => Some(("must be a numeric value"@, Some(number_json(b)))),
            },
        },
        ValidationRule::Pattern(p) => match actual {
            Json::Str(s) => match regex_outcome(p@, s) {
                Err(e) => Some(("declared pattern must be a valid regex: "@ + e, Some(Json::Str(p@)))),
                Ok(true) => None,
                Ok(false) => Some(("must match pattern "@ + debug_text(p@), Some(Json::Str(p@)))),
            },
            _ => Some(("must be a string to apply pattern validation"@, Some(Json::Str(p@)))),
        },
        ValidationRule::UniqueItems => match actual {
            Json::Array(items) => if has_duplicate(items) { Some(("items must be unique"@, Some(Json::Bool(true)))) } else { None },
            _ => Some(("must be an array to apply unique-items validation"@, Some(Json::Bool(true)))),
        },
        ValidationRule::OneOf(values) => if value_jsons(values@).contains(actual) {
            None
        } else {
            Some(("must be one of "@ + join(value_texts(values@), ", "@), Some(Json::Array(value_jsons(values@)))))
        },
        ValidationRule::Hostname => string_rule(actual, |s: Seq<char>| hostname_ok(s), "must be a hostname string"@, "must be a valid hostname"@),
        ValidationRule::Url => string_rule(actual, |s: Seq<char>| url_ok(s, ips), "must be a URL string"@, "must be a valid URL"@),
        ValidationRule::Email => string_rule(actual, |s: Seq<char>| email_ok(s, ips), "must be an email address string"@, "must be a valid email address"@),
        ValidationRule::IpAddr => string_rule(actual, |s: Seq<char>| probe_accepts(probe), "must be an IP address string"@, "must be a valid IP address"@),
        ValidationRule::SocketAddr => string_rule(actual, |s: Seq<char>| probe_accepts(probe), "must be a socket address string"@, "must be a valid socket address"@),
        ValidationRule::AbsolutePath => string_rule(actual, |s: Seq<char>| absolute_path(s), "must be a filesystem path string"@, "must be an absolute filesystem path"@),
    }
}

/// A path that lies at or below one of the secret patterns.
pub open spec fn secret_at(path: Seq<char>, secrets: Seq<Seq<char>>) -> bool {
    exists|i: int| 0 <= i < secrets.len() && starts_with_pattern(path, #[trigger] secrets[i])
}

pub open spec fn redacted() -> Json {
    Json::Str("***redacted***"@)
}

/// The error a failed rule reports: the value found is redacted at a
/// secret path.
pub open spec fn rule_error(path: Seq<char>, actual: Json, rule: ValidationRule, secrets: Seq<Seq<char>>, message: Seq<char>, expected: Option<Json>) -> ErrorView {
    ErrorView {
        path,
        related: Seq::empty(),
        message,
        rule: Some(rule_code(rule)),
        expected,
        actual: Some(if secret_at(path, secrets) { redacted() } else { actual }),
    }
}

/// Builds the error of a failed rule at `path`.
pub fn validation_error(path: &str, actual: &JsonValue, rule: &ValidationRule, secret_paths: &Vec<String>, message: &str, expected: Option<JsonValue>) -> (r: ValidationError)
    ensures
        r@ == rule_error(path@, actual@, *rule, string_views(secret_paths@), message@, opt_json_of(expected)),
{
    let shown = if is_secret_path(secret_paths, path) {
        proof {
            reveal_strlit("***redacted***");
            let i = choose|i: int| 0 <= i < secret_paths@.len() && starts_with_pattern(path@, #[trigger] secret_paths@[i]@);
            assert(string_views(secret_paths@)[i] == secret_paths@[i]@);
        }
        JsonValue::String("***redacted***".to_string())
    } else {
        proof {
            if secret_at(path@, string_views(secret_paths@)) {
                let i = choose|i: int| 0 <= i < string_views(secret_paths@).len() && starts_with_pattern(path@, #[trigger] string_views(secret_paths@)[i]);
                assert(string_views(secret_paths@)[i] == secret_paths@[i]@);
            }
        }
        crate::json::clone_value(actual)
    };
    let mut e = ValidationError::new(path, message).with_rule(rule.code());
    match expected {
        Some(x) => {
            e = e.with_expected(x);
        },
        None => {},
    }
    e.with_actual(shown)
}

/// The length a length rule measures, if the value has one.
pub fn validation_length(value: &JsonValue) -> (r: Option<usize>)
    ensures
        match r {
            Some(n) => json_len(value@) == Some(n as nat),
            None => json_len(value@) is None,
        },
{
    match value {
        JsonValue::String(s) => Some(chars_of(s.as_str()).len()),
        JsonValue::Array(items) => {
            proof {
                lemma_array_view(*items);
            }
            Some(items.len())
        },
        JsonValue::Object(es) => {
            proof {
                lemma_object_view(*es);
            }
            Some(es.len())
        },
        _ => None,
    }
}

fn count_value(n: usize) -> (r: JsonValue)
    ensures
        r@ == count_json(n),
{
    JsonValue::Number(string_of(&decimal_chars(n)))
}

fn with_count(prefix: &str, n: usize) -> (r: String)
    ensures
        r@ == prefix@ + decimal(n as nat),
{
    cat(prefix, string_of(&decimal_chars(n)).as_str())
}

fn duplicate_items(items: &Vec<JsonValue>) -> (r: bool)
    ensures
        r == has_duplicate(items_view(items@)),
{
    let ghost iv = items_view(items@);
    let mut j: usize = 0;
    while j < items.len()
        invariant
            j <= items@.len(),
            iv == items_view(items@),
            forall|a: int, b: int| 0 <= a < b < j ==> iv[a] != iv[b],
        decreases items@.len() - j,
    {
        let mut i: usize = 0;
        while i < j
            invariant
                i <= j < items@.len(),
                iv == items_view(items@),
                forall|a: int| 0 <= a < i ==> iv[a] != iv[j as int],
            decreases j - i,
        {
            if values_equal(&items[i], &items[j]) {
                assert(iv[i as int] == iv[j as int]);
                return true;
            }
            i = i + 1;
        }
        j = j + 1;
    }
    false
}

fn one_of_message(values: &Vec<ValidationValue>) -> (r: String)
    ensures
        r@ == "must be one of "@ + join(value_texts(values@), ", "@),
{
    let mut parts: Vec<Vec<char>> = Vec::new();
    let mut i: usize = 0;
    while i < values.len()
        invariant
            i <= values@.len(),
            views(parts@) == value_texts(values@).take(i as int),
        decreases values@.len() - i,
    {
        let t = values[i].render();
        let ghost before = views(parts@);
        parts.push(chars_of(t.as_str()));
        assert(views(parts@) =~= before.push(value_text(values@[i as int].0@)));
        assert(value_texts(values@).take(i + 1) =~= value_texts(values@).take(i as int).push(value_text(values@[i as int].0@)));
        i = i + 1;
    }
    assert(value_texts(values@).take(values@.len() as int) =~= value_texts(values@));
    let sep = chars_of(", ");
    assert(parts@.map_values(|p: Vec<char>| p@) =~= views(parts@));
    let body = string_of(&join_chars(&parts, &sep));
    cat("must be one of ", body.as_str())
}

fn one_of_values(values: &Vec<ValidationValue>) -> (r: JsonValue)
    ensures
        r@ == Json::Array(value_jsons(values@)),
{
    let mut out: Vec<JsonValue> = Vec::new();
    let mut i: usize = 0;
    while i < values.len()
        invariant
            i <= values@.len(),
            items_view(out@) == value_jsons(values@).take(i as int),
        decreases values@.len() - i,
    {
        let ghost before = items_view(out@);
        out.push(crate::json::clone_value(&values[i].0));
        assert(items_view(out@) =~= before.push(values@[i as int].0@));
        assert(value_jsons(values@).take(i + 1) =~= value_jsons(values@).take(i as int).push(values@[i as int].0@));
        i = i + 1;
    }
    assert(value_jsons(values@).take(values@.len() as int) =~= value_jsons(values@));
    proof {
        lemma_array_view(out);
    }
    JsonValue::Array(out)
}

fn matches_one(values: &Vec<ValidationValue>, actual: &JsonValue) -> (r: bool)
    ensures
        r == value_jsons(values@).contains(actual@),
{
    let mut i: usize = 0;
    while i < values.len()
        invariant
            i <= values@.len(),
            forall|k: int| 0 <= k < i ==> value_jsons(values@)[k] != actual@,
        decreases values@.len() - i,
    {
        if values_equal(&values[i].0, actual) {
            assert(value_jsons(values@)[i as int] == actual@);
            return true;
        }
        i = i + 1;
    }
    false
}

pub open spec fn rule_result(path: Seq<char>, actual: Json, rule: ValidationRule, secrets: Seq<Seq<char>>, probe: RuleProbe,
    ips: Map<Seq<char>, IpKind>) -> Option<ErrorView>
{
    match rule_failure(actual, rule, probe, ips) {
        None => None,
        Some((m, e)) => Some(rule_error(path, actual, rule, secrets, m, e)),
    }
}

pub open spec fn opt_error_view(r: Option<ValidationError>) -> Option<ErrorView> {
    match r {
        Some(e) => Some(e@),
        None => None,
    }
}

/// Checks `actual`, found at `path`, against one declared rule. The float
/// comparisons, the address parsing and the platform's idea of an absolute
/// path come in `probe`; `ips` holds the texts the address parser accepts
/// (URL and email hosts).
#[verifier::rlimit(40)]
pub fn validate_declared_rule(
    path: &str,
    actual: &JsonValue,
    rule: &ValidationRule,
    secret_paths: &Vec<String>,
    probe: &RuleProbe,
    ips: &StrMap<IpKind>,
) -> (r: Option<ValidationError>)
    requires
        ips.wf(),
        probe_fits(*rule, actual@, *probe),
    ensures
        opt_error_view(r) == rule_result(path@, actual@, *rule, string_views(secret_paths@), *probe, ip_view(*ips)),
{
    match rule {
        ValidationRule::NonEmpty => {
            let empty = match actual {
                JsonValue::String(s) => s.as_str().is_empty(),
                JsonValue::Array(items) => {
                    proof {
                        lemma_array_view(*items);
                    }
                    items.len() == 0
                },
                JsonValue::Object(es) => {
                    proof {
                        lemma_object_view(*es);
                    }
                    es.len() == 0
                },
                _ => false,
            };
            if empty {
                proof {
                    reveal_strlit("must not be empty");
                }
                Some(validation_error(path, actual, rule, secret_paths, "must not be empty", None))
            } else {
                None
            }
        },
        ValidationRule::Min(b) | ValidationRule::Max(b) => {
            let is_min = match rule {
                ValidationRule::Min(_) => true,
                _ => false,
            };
            match b {
                ValidationNumber::Invalid(t) => {
                    let m = if is_min {
                        cat("declared minimum must be finite, got ", t.as_str())
                    } else {
                        cat("declared maximum must be finite, got ", t.as_str())
                    };
                    Some(validation_error(path, actual, rule, secret_paths, m.as_str(), Some(b.as_json_value())))
                },
                ValidationNumber::Finite(t) => match probe {
                    RuleProbe::Compared(Some(true)) => None,
                    RuleProbe::Compared(Some(false)) => {
                        let m = if is_min {
                            cat("must be >= ", t.as_str())
                        } else {
                            cat("must be <= ", t.as_str())
                        };
                        Some(validation_error(path, actual, rule, secret_paths, m.as_str(), Some(b.as_json_value())))
                    },
                    _ => Some(validation_error(path, actual, rule, secret_paths, "must be a numeric value", Some(b.as_json_value()))),
                },
            }
        },
        ValidationRule::MinLength(n) | ValidationRule::MaxLength(n) => {
            let is_min = match rule {
                ValidationRule::MinLength(_) => true,
                _ => false,
            };
            match validation_length(actual) {
                Some(l) => {
                    let ok = if is_min { l >= *n } else { l <= *n };
                    if ok {
                        None
                    } else {
                        let m = if is_min { with_count("length must be >= ", *n) } else { with_count("length must be <= ", *n) };
                        Some(validation_error(path, actual, rule, secret_paths, m.as_str(), Some(count_value(*n))))
                    }
                },
                None => Some(validation_error(path, actual, rule, secret_paths,
                    "must be a string, array, or object to apply length validation", Some(count_value(*n)))),
            }
        },
        ValidationRule::MinItems(n) | ValidationRule::MaxItems(n) => {
            let is_min = match rule {
                ValidationRule::MinItems(_) => true,
                _ => false,
            };
            match actual {
                JsonValue::Array(items) => {
                    proof {
                        lemma_array_view(*items);
                    }
                    let ok = if is_min { items.len() >= *n } else { items.len() <= *n };
                    if ok {
                        None
                    } else {
                        let m = if is_min { with_count("item count must be >= ", *n) } else { with_count("item count must be <= ", *n) };
                        Some(validation_error(path, actual, rule, secret_paths, m.as_str(), Some(count_value(*n))))
                    }
                },
                _ => Some(validation_error(path, actual, rule, secret_paths,
                    "must be an array to apply item-count validation", Some(count_value(*n)))),
            }
        },
        ValidationRule::MinProperties(n) | ValidationRule::MaxProperties(n) => {
            let is_min = match rule {
                ValidationRule::MinProperties(_) => true,
                _ => false,
            };
            match actual {
                JsonValue::Object(es) => {
                    proof {
                        lemma_object_view(*es);
                    }
                    let ok = if is_min { es.len() >= *n } else { es.len() <= *n };
                    if ok {
                        None
                    } else {
                        let m = if is_min {
                            with_count("property count must be >= ", *n)
                        } else {
                            with_count("property count must be <= ", *n)
                        };
                        Some(validation_error(path, actual, rule, secret_paths, m.as_str(), Some(count_value(*n))))
                    }
                },
                _ => Some(validation_error(path, actual, rule, secret_paths,
                    "must be an object to apply property-count validation", Some(count_value(*n)))),
            }
        },
        ValidationRule::MultipleOf(b) => match b {
            ValidationNumber::Invalid(t) => {
                let m = cat("declared multiple_of factor must be finite, got ", t.as_str());
                Some(validation_error(path, actual, rule, secret_paths, m.as_str(), Some(b.as_json_value())))
            },
            ValidationNumber::Finite(t) => match probe {
                RuleProbe::Divided(DivisorProbe::NotFinite) => {
                    let m = cat("declared multiple_of factor must be finite, got ", t.as_str());
                    Some(validation_error(path, actual, rule, secret_paths, m.as_str(), Some(b.as_json_value())))
                },
                RuleProbe::Divided(DivisorProbe::NotPositive) => Some(validation_error(path, actual, rule, secret_paths,
                    "declared multiple_of factor must be > 0", Some(b.as_json_value()))),
                RuleProbe::Divided(DivisorProbe::Usable(Some(true))) => None,
                RuleProbe::Divided(DivisorProbe::Usable(Some(false))) => {
                    let m = cat("must be a multiple of ", t.as_str());
                    Some(validation_error(path, actual, rule, secret_paths, m.as_str(), Some(b.as_json_value())))
                },
                _ => Some(validation_error(path, actual, rule, secret_paths, "must be a numeric value", Some(b.as_json_value()))),
            },
        },
        ValidationRule::Pattern(p) => match actual {
            JsonValue::String(s) => match regex_test(p.as_str(), s.as_str()) {
                Err(e) => {
                    let m = cat("declared pattern must be a valid regex: ", e.as_str());
                    Some(validation_error(path, actual, rule, secret_paths, m.as_str(), Some(JsonValue::String(copy_string(p)))))
                },
                Ok(true) => None,
                Ok(false) => {
                    let q = debug_quote(p.as_str());
                    let m = cat("must match pattern ", q.as_str());
                    Some(validation_error(path, actual, rule, secret_paths, m.as_str(), Some(JsonValue::String(copy_string(p)))))
                },
            },
            _ => Some(validation_error(path, actual, rule, secret_paths, "must be a string to apply pattern validation",
                Some(JsonValue::String(copy_string(p))))),
        },
        ValidationRule::UniqueItems => match actual {
            JsonValue::Array(items) => {
                proof {
                    lemma_array_view(*items);
                }
                if duplicate_items(items) {
                    Some(validation_error(path, actual, rule, secret_paths, "items must be unique", Some(JsonValue::Bool(true))))
                } else {
                    None
                }
            },
            _ => Some(validation_error(path, actual, rule, secret_paths, "must be an array to apply unique-items validation",
                Some(JsonValue::Bool(true)))),
        },
        ValidationRule::OneOf(values) => {
            if matches_one(values, actual) {
                None
            } else {
                let m = one_of_message(values);
                Some(validation_error(path, actual, rule, secret_paths, m.as_str(), Some(one_of_values(values))))
            }
        },
        ValidationRule::Hostname => match actual {
            JsonValue::String(s) => if is_valid_hostname(s.as_str()) {
                None
            } else {
                Some(validation_error(path, actual, rule, secret_paths, "must be a valid hostname", None))
            },
            _ => Some(validation_error(path, actual, rule, secret_paths, "must be a hostname string", None)),
        },
        ValidationRule::Url => match actual {
            JsonValue::String(s) => if is_valid_url(s.as_str(), ips) {
                None
            } else {
                Some(validation_error(path, actual, rule, secret_paths, "must be a valid URL", None))
            },
            _ => Some(validation_error(path, actual, rule, secret_paths, "must be a URL string", None)),
        },
        ValidationRule::Email => match actual {
            JsonValue::String(s) => if is_valid_email(s.as_str(), ips) {
                None
            } else {
                Some(validation_error(path, actual, rule, secret_paths, "must be a valid email address", None))
            },
            _ => Some(validation_error(path, actual, rule, secret_paths, "must be an email address string", None)),
        },
        ValidationRule::IpAddr => match actual {
            JsonValue::String(_) => match probe {
                RuleProbe::Accepted(true) => None,
                _ => Some(validation_error(path, actual, rule, secret_paths, "must be a valid IP address", None)),
            },
            _ => Some(validation_error(path, actual, rule, secret_paths, "must be an IP address string", None)),
        },
        ValidationRule::SocketAddr => match actual {
            JsonValue::String(_) => match probe {
                RuleProbe::Accepted(true) => None,
                _ => Some(validation_error(path, actual, rule, secret_paths, "must be a valid socket address", None)),
            },
            _ => Some(validation_error(path, actual, rule, secret_paths, "must be a socket address string", None)),
        },
        ValidationRule::AbsolutePath => match actual {
            JsonValue::String(s) => if path_is_absolute(s.as_str()) {
                None
            } else {
                Some(validation_error(path, actual, rule, secret_paths, "must be an absolute filesystem path", None))
            },
            _ => Some(validation_error(path, actual, rule, secret_paths, "must be a filesystem path string", None)),
        },
    }
}

/// The values (with their paths) that a wildcard path reaches.
pub open spec fn matching(j: Json, p: Seq<char>) -> Seq<(Seq<char>, Json)> {
    if normalized(p).len() == 0 {
        Seq::empty()
    } else {
        reached(j, Seq::empty(), crate::text::split(normalized(p), '.'))
    }
}

/// A path is configured when it reaches a value other than null.
pub open spec fn present(j: Json, p: Seq<char>) -> bool {
    exists|i: int| 0 <= i < matching(j, p).len() && #[trigger] matching(j, p)[i].1 != Json::Null
}

/// The paths among `ps` that are configured, in order.
pub open spec fn present_of(j: Json, ps: Seq<Seq<char>>) -> Seq<Seq<char>>
    decreases ps.len(),
{
    if ps.len() == 0 {
        Seq::empty()
    } else if present(j, ps.last()) {
        present_of(j, ps.drop_last()).push(ps.last())
    } else {
        present_of(j, ps.drop_last())
    }
}

/// The paths among `ps` that are not configured, in order.
pub open spec fn missing_of(j: Json, ps: Seq<Seq<char>>) -> Seq<Seq<char>>
    decreases ps.len(),
{
    if ps.len() == 0 {
        Seq::empty()
    } else if !present(j, ps.last()) {
        missing_of(j, ps.drop_last()).push(ps.last())
    } else {
        missing_of(j, ps.drop_last())
    }
}

/// Whether `path` reaches a value other than null.
pub fn path_is_present(value: &JsonValue, path: &str) -> (r: bool)
    ensures
        r == present(value@, path@),
{
    let ms = collect_matching_values(value, path);
    let ghost mv = pairs_view(ms@);
    assert(mv == matching(value@, path@));
    let mut i: usize = 0;
    while i < ms.len()
        invariant
            i <= ms@.len(),
            mv == pairs_view(ms@),
            mv == matching(value@, path@),
            forall|k: int| 0 <= k < i ==> mv[k].1 == Json::Null,
        decreases ms@.len() - i,
    {
        let not_null = match &ms[i].1 {
            JsonValue::Null => false,
            _ => true,
        };
        assert(mv[i as int].1 == ms@[i as int].1@);
        if not_null {
            assert(mv[i as int].1 != Json::Null);
            return true;
        }
        i = i + 1;
    }
    false
}

/// The configured paths among `paths`, in order.
pub fn present_paths(value: &JsonValue, paths: &Vec<String>) -> (r: Vec<String>)
    ensures
        string_views(r@) == present_of(value@, string_views(paths@)),
{
    let ghost ps = string_views(paths@);
    let mut out: Vec<String> = Vec::new();
    let mut i: usize = 0;
    while i < paths.len()
        invariant
            i <= paths@.len(),
            ps == string_views(paths@),
            string_views(out@) == present_of(value@, ps.take(i as int)),
        decreases paths@.len() - i,
    {
        let ghost t = ps.take(i + 1);
        assert(t.drop_last() =~= ps.take(i as int));
        assert(t.last() == paths@[i as int]@);
        if path_is_present(value, paths[i].as_str()) {
            let ghost before = string_views(out@);
            out.push(copy_string(&paths[i]));
            assert(string_views(out@) =~= before.push(paths@[i as int]@));
        }
        i = i + 1;
    }
    assert(ps.take(paths@.len() as int) =~= ps);
    out
}

/// The paths among `paths` that are not configured, in order.
pub fn missing_paths(value: &JsonValue, paths: &Vec<String>) -> (r: Vec<String>)
    ensures
        string_views(r@) == missing_of(value@, string_views(paths@)),
{
    let ghost ps = string_views(paths@);
    let mut out: Vec<String> = Vec::new();
    let mut i: usize = 0;
    while i < paths.len()
        invariant
            i <= paths@.len(),
            ps == string_views(paths@),
            string_views(out@) == missing_of(value@, ps.take(i as int)),
        decreases paths@.len() - i,
    {
        let ghost t = ps.take(i + 1);
        assert(t.drop_last() =~= ps.take(i as int));
        assert(t.last() == paths@[i as int]@);
        if !path_is_present(value, paths[i].as_str()) {
            let ghost before = string_views(out@);
            out.push(copy_string(&paths[i]));
            assert(string_views(out@) =~= before.push(paths@[i as int]@));
        }
        i = i + 1;
    }
    assert(ps.take(paths@.len() as int) =~= ps);
    out
}

/// `ps` normalized, without the ones that normalize to the root.
pub open spec fn related_of(ps: Seq<Seq<char>>) -> Seq<Seq<char>>
    decreases ps.len(),
{
    if ps.len() == 0 {
        Seq::empty()
    } else if normalized(ps.last()).len() > 0 {
        related_of(ps.drop_last()).push(normalized(ps.last()))
    } else {
        related_of(ps.drop_last())
    }
}

/// `j` (at `cur`) with each value at a related secret path replaced by the
/// redaction marker.
pub open spec fn redact(j: Json, cur: Seq<char>, rel: Seq<Seq<char>>, secrets: Seq<Seq<char>>) -> Json
    decreases j, 0nat,
{
    if rel.contains(cur) && secret_at(cur, secrets) {
        redacted()
    } else {
        match j {
            Json::Object(es) => Json::Object(redact_entries(es, cur, rel, secrets, es.len())),
            Json::Array(items) => Json::Array(redact_items(items, cur, rel, secrets, items.len())),
            _ => j,
        }
    }
}

pub open spec fn redact_items(items: Seq<Json>, cur: Seq<char>, rel: Seq<Seq<char>>, secrets: Seq<Seq<char>>, n: nat) -> Seq<Json>
    decreases items, n,
{
    if n == 0 || n > items.len() {
        Seq::empty()
    } else {
        redact_items(items, cur, rel, secrets, (n - 1) as nat).push(
            redact(items[n - 1], joined(cur, decimal((n - 1) as nat)), rel, secrets))
    }
}

pub open spec fn redact_entries(es: Seq<(Seq<char>, Json)>, cur: Seq<char>, rel: Seq<Seq<char>>, secrets: Seq<Seq<char>>, n: nat)
    -> Seq<(Seq<char>, Json)>
    decreases es, n,
{
    if n == 0 || n > es.len() {
        Seq::empty()
    } else {
        redact_entries(es, cur, rel, secrets, (n - 1) as nat).push(
            (es[n - 1].0, redact(es[n - 1].1, joined(cur, es[n - 1].0), rel, secrets)))
    }
}

fn contains_string(v: &Vec<String>, s: &str) -> (r: bool)
    ensures
        r == string_views(v@).contains(s@),
{
    let mut i: usize = 0;
    while i < v.len()
        invariant
            i <= v@.len(),
            forall|k: int| 0 <= k < i ==> string_views(v@)[k] != s@,
        decreases v@.len() - i,
    {
        if str_eq(v[i].as_str(), s) {
            assert(string_views(v@)[i as int] == s@);
            return true;
        }
        i = i + 1;
    }
    false
}

fn redact_rec(value: JsonValue, current: &str, related: &Vec<String>, secret_paths: &Vec<String>) -> (r: JsonValue)
    ensures
        r@ == redact(value@, current@, string_views(related@), string_views(secret_paths@)),
    decreases value,
{
    let ghost rel = string_views(related@);
    let ghost sec = string_views(secret_paths@);
    if contains_string(related, current) && is_secret_path(secret_paths, current) {
        proof {
            reveal_strlit("***redacted***");
            let i = choose|i: int| 0 <= i < secret_paths@.len() && starts_with_pattern(current@, #[trigger] secret_paths@[i]@);
            assert(sec[i] == secret_paths@[i]@);
        }
        return JsonValue::String("***redacted***".to_string());
    }
    proof {
        if rel.contains(current@) && secret_at(current@, sec) {
            let i = choose|i: int| 0 <= i < sec.len() && starts_with_pattern(current@, #[trigger] sec[i]);
            assert(sec[i] == secret_paths@[i]@);
        }
    }
    match value {
        JsonValue::Object(es) => {
            proof {
                lemma_object_view(es);
            }
            let ghost ev = entries_view(es@);
            let ghost es0 = es;
            let mut es = es;
            let ghost all = es@;
            let n = es.len();
            let mut out: Vec<(String, JsonValue)> = Vec::new();
            let mut i: usize = 0;
            assert(all.skip(0) =~= all);
            proof {
                assert forall|k: int| 0 <= k < all.len() implies decreases_to!(value => (#[trigger] all[k]).1) by {
                    assert(decreases_to!(value => es0));
                    assert(decreases_to!(es0 => es0@));
                    assert(decreases_to!(es0@ => es0@[k]));
                    assert(decreases_to!(es0@[k] => es0@[k].1));
                }
            }
            while i < n
                invariant
                    forall|k: int| 0 <= k < all.len() ==> decreases_to!(value => (#[trigger] all[k]).1),
                    i <= n,
                    n == all.len(),
                    es@ == all.skip(i as int),
                    ev == entries_view(all),
                    rel == string_views(related@),
                    sec == string_views(secret_paths@),
                    entries_view(out@) == redact_entries(ev, current@, rel, sec, i as nat),
                decreases n - i,
            {
                let (k, v) = es.remove(0);
                assert((k, v) == all[i as int]);
                assert(es@ =~= all.skip(i + 1));
                let child = join_path(current, k.as_str());
                let rv = redact_rec(v, child.as_str(), related, secret_paths);
                let ghost before = entries_view(out@);
                out.push((k, rv));
                assert(entries_view(out@) =~= before.push((all[i as int].0@, rv@)));
                i = i + 1;
            }
            proof {
                lemma_object_view(out);
            }
            JsonValue::Object(out)
        },
        JsonValue::Array(items) => {
            proof {
                lemma_array_view(items);
            }
            let ghost iv = items_view(items@);
            let ghost items0 = items;
            let mut items = items;
            let ghost all = items@;
            let n = items.len();
            let mut out: Vec<JsonValue> = Vec::new();
            let mut i: usize = 0;
            assert(all.skip(0) =~= all);
            proof {
                assert forall|k: int| 0 <= k < all.len() implies decreases_to!(value => #[trigger] all[k]) by {
                    assert(decreases_to!(value => items0));
                    assert(decreases_to!(items0 => items0@));
                    assert(decreases_to!(items0@ => items0@[k]));
                }
            }
            while i < n
                invariant
                    forall|k: int| 0 <= k < all.len() ==> decreases_to!(value => #[trigger] all[k]),
                    i <= n,
                    n == all.len(),
                    items@ == all.skip(i as int),
                    iv == items_view(all),
                    rel == string_views(related@),
                    sec == string_views(secret_paths@),
                    items_view(out@) == redact_items(iv, current@, rel, sec, i as nat),
                decreases n - i,
            {
                let v = items.remove(0);
                assert(v == all[i as int]);
                assert(items@ =~= all.skip(i + 1));
                let idx = string_of(&decimal_chars(i));
                let child = join_path(current, idx.as_str());
                let rv = redact_rec(v, child.as_str(), related, secret_paths);
                let ghost before = items_view(out@);
                out.push(rv);
                assert(items_view(out@) =~= before.push(rv@));
                i = i + 1;
            }
            proof {
                lemma_array_view(out);
            }
            JsonValue::Array(out)
        },
        other => other,
    }
}

/// `value` with each value at a related secret path redacted.
pub fn redact_group_value(value: JsonValue, related_paths: &Vec<String>, secret_paths: &Vec<String>) -> (r: JsonValue)
    ensures
        r@ == redact(value@, Seq::empty(), string_views(related_paths@), string_views(secret_paths@)),
{
    let r = redact_rec(value, "", related_paths, secret_paths);
    proof {
        reveal_strlit("");
        assert(""@ =~= Seq::<char>::empty());
    }
    r
}

/// The error a failed check reports.
pub open spec fn group_error(c: ValidationCheck, related: Seq<Seq<char>>, secrets: Seq<Seq<char>>, message: Seq<char>,
    expected: Json, actual: Json) -> ErrorView
{
    ErrorView {
        path: Seq::empty(),
        related: related_of(related),
        message,
        rule: Some(check_code(c)),
        expected: Some(expected),
        actual: Some(redact(actual, Seq::empty(), related_of(related), secrets)),
    }
}

/// Builds the error of a failed check.
pub fn group_validation_error(
    check: &ValidationCheck,
    related_paths: &Vec<String>,
    secret_paths: &Vec<String>,
    message: &str,
    expected: JsonValue,
    actual: JsonValue,
) -> (r: ValidationError)
    ensures
        r@ == group_error(*check, string_views(related_paths@), string_views(secret_paths@), message@, expected@, actual@),
{
    let ghost ps = string_views(related_paths@);
    let mut rel: Vec<String> = Vec::new();
    let mut i: usize = 0;
    while i < related_paths.len()
        invariant
            i <= related_paths@.len(),
            ps == string_views(related_paths@),
            string_views(rel@) == related_of(ps.take(i as int)),
        decreases related_paths@.len() - i,
    {
        let ghost t = ps.take(i + 1);
        assert(t.drop_last() =~= ps.take(i as int));
        assert(t.last() == related_paths@[i as int]@);
        let n = normalize_path(related_paths[i].as_str());
        if !n.as_str().is_empty() {
            let ghost before = string_views(rel@);
            rel.push(n);
            assert(string_views(rel@) =~= before.push(normalized(related_paths@[i as int]@)));
        }
        i = i + 1;
    }
    assert(ps.take(related_paths@.len() as int) =~= ps);
    let shown = redact_group_value(actual, &rel, secret_paths);
    proof {
        reveal_strlit("");
        assert(""@ =~= Seq::<char>::empty());
    }
    ValidationError::new("", message).with_rule(check.code()).with_related_paths(rel).with_expected(expected).with_actual(shown)
}

pub open spec fn strings_json(ps: Seq<Seq<char>>) -> Json {
    Json::Array(ps.map_values(|p: Seq<char>| Json::Str(p)))
}

pub open spec fn one_json() -> Json {
    Json::Number("1"@)
}

/// Whether a value that a check's trigger path reaches sets the check off:
/// any configured value, or (for `required_if`) one equal to `equals`.
pub open spec fn fired(v: Json, equals: Option<Json>) -> bool {
    match equals {
        None => v != Json::Null,
        Some(e) => v == e,
    }
}

/// The required paths once the trigger pattern matched `mp`: with the
/// wildcards bound, or as written when the pattern does not bind `mp`.
pub open spec fn bound_requires(trigger: Seq<char>, mp: Seq<char>, required: Seq<Seq<char>>) -> Seq<Seq<char>> {
    match bindings_of(trigger, mp) {
        Some(b) => required.map_values(|p: Seq<char>| bound_path(p, b)),
        None => required,
    }
}

pub open spec fn required_message(mp: Seq<char>, equals: Option<Json>, missing: Seq<Seq<char>>) -> Seq<char> {
    match equals {
        None => mp + " requires "@ + join(missing, ", "@),
        Some(e) => mp + " == "@ + value_text(e) + " requires "@ + join(missing, ", "@),
    }
}

pub open spec fn required_expected(mp: Seq<char>, equals: Option<Json>, bound: Seq<Seq<char>>) -> Json {
    match equals {
        None => Json::Object(seq![("requires"@, strings_json(bound)), ("trigger"@, Json::Str(mp))]),
        Some(e) => Json::Object(seq![("equals"@, e), ("requires"@, strings_json(bound)), ("trigger"@, Json::Str(mp))]),
    }
}

/// The errors of a `required_with` or `required_if` check over the first
/// `n` values its trigger path reached.
pub open spec fn required_errors(
    j: Json,
    c: ValidationCheck,
    trigger: Seq<char>,
    required: Seq<Seq<char>>,
    equals: Option<Json>,
    ms: Seq<(Seq<char>, Json)>,
    n: nat,
    secrets: Seq<Seq<char>>,
) -> Seq<ErrorView>
    decreases n,
{
    if n == 0 || n > ms.len() {
        Seq::empty()
    } else {
        let prev = required_errors(j, c, trigger, required, equals, ms, (n - 1) as nat, secrets);
        let mp = ms[n - 1].0;
        if !fired(ms[n - 1].1, equals) {
            prev
        } else {
            let bound = bound_requires(trigger, mp, required);
            let missing = missing_of(j, bound);
            if missing.len() == 0 {
                prev
            } else {
                prev.push(group_error(c, seq![mp] + missing, secrets, required_message(mp, equals, missing),
                    required_expected(mp, equals, bound), Json::Object(seq![("missing"@, strings_json(missing))])))
            }
        }
    }
}

/// The errors one check reports against `j`.
pub open spec fn check_errors(j: Json, c: ValidationCheck, secrets: Seq<Seq<char>>) -> Seq<ErrorView> {
    match c {
        ValidationCheck::AtLeastOneOf { paths } => {
            let ps = string_views(paths@);
            let pr = present_of(j, ps);
            if pr.len() == 0 {
                seq![group_error(c, ps, secrets, "at least one of "@ + join(ps, ", "@) + " must be configured"@,
                    Json::Object(seq![("min_present"@, one_json()), ("paths"@, strings_json(ps))]),
                    Json::Object(seq![("present"@, strings_json(pr))]))]
            } else {
                Seq::empty()
            }
        },
        ValidationCheck::ExactlyOneOf { paths } => {
            let ps = string_views(paths@);
            let pr = present_of(j, ps);
            if pr.len() != 1 {
                seq![group_error(c, ps, secrets, "exactly one of "@ + join(ps, ", "@) + " must be configured"@,
                    Json::Object(seq![("exactly_one_of"@, strings_json(ps))]),
                    Json::Object(seq![("present"@, strings_json(pr))]))]
            } else {
                Seq::empty()
            }
        },
        ValidationCheck::MutuallyExclusive { paths } => {
            let ps = string_views(paths@);
            let pr = present_of(j, ps);
            if pr.len() > 1 {
                seq![group_error(c, ps, secrets, join(ps, ", "@) + " are mutually exclusive"@,
                    Json::Object(seq![("max_present"@, one_json()), ("paths"@, strings_json(ps))]),
                    Json::Object(seq![("present"@, strings_json(pr))]))]
            } else {
                Seq::empty()
            }
        },
        ValidationCheck::RequiredWith { path, requires: required } => required_errors(j, c, path@, string_views(required@), None,
            matching(j, path@), matching(j, path@).len(), secrets),
        ValidationCheck::RequiredIf { path, equals, requires: required } => required_errors(j, c, path@, string_views(required@),
            Some(equals.0@), matching(j, path@), matching(j, path@).len(), secrets),
    }
}

/// The errors of the first `n` checks, in order.
pub open spec fn checks_errors(j: Json, cs: Seq<ValidationCheck>, secrets: Seq<Seq<char>>, n: nat) -> Seq<ErrorView>
    decreases n,
{
    if n == 0 || n > cs.len() {
        Seq::empty()
    } else {
        checks_errors(j, cs, secrets, (n - 1) as nat) + check_errors(j, cs[n - 1], secrets)
    }
}

fn strings_value(ps: &Vec<String>) -> (r: JsonValue)
    ensures
        r@ == strings_json(string_views(ps@)),
{
    let mut out: Vec<JsonValue> = Vec::new();
    let mut i: usize = 0;
    while i < ps.len()
        invariant
            i <= ps@.len(),
            items_view(out@) == string_views(ps@).take(i as int).map_values(|p: Seq<char>| Json::Str(p)),
        decreases ps@.len() - i,
    {
        let ghost before = items_view(out@);
        out.push(JsonValue::String(copy_string(&ps[i])));
        assert(items_view(out@) =~= before.push(Json::Str(ps@[i as int]@)));
        assert(string_views(ps@).take(i + 1).map_values(|p: Seq<char>| Json::Str(p))
            =~= string_views(ps@).take(i as int).map_values(|p: Seq<char>| Json::Str(p)).push(Json::Str(ps@[i as int]@)));
        i = i + 1;
    }
    assert(string_views(ps@).take(ps@.len() as int) =~= string_views(ps@));
    proof {
        lemma_array_view(out);
    }
    JsonValue::Array(out)
}

fn join_strings(ps: &Vec<String>, sep: &str) -> (r: String)
    ensures
        r@ == join(string_views(ps@), sep@),
{
    let mut parts: Vec<Vec<char>> = Vec::new();
    let mut i: usize = 0;
    while i < ps.len()
        invariant
            i <= ps@.len(),
            views(parts@) == string_views(ps@).take(i as int),
        decreases ps@.len() - i,
    {
        let ghost before = views(parts@);
        parts.push(chars_of(ps[i].as_str()));
        assert(views(parts@) =~= before.push(ps@[i as int]@));
        assert(string_views(ps@).take(i + 1) =~= string_views(ps@).take(i as int).push(ps@[i as int]@));
        i = i + 1;
    }
    assert(string_views(ps@).take(ps@.len() as int) =~= string_views(ps@));
    assert(parts@.map_values(|p: Vec<char>| p@) =~= views(parts@));
    string_of(&join_chars(&parts, &chars_of(sep)))
}

fn object1(k: &str, v: JsonValue) -> (r: JsonValue)
    ensures
        r@ == Json::Object(seq![(k@, v@)]),
{
    let out = vec![(k.to_string(), v)];
    proof {
        lemma_object_view(out);
    }
    assert(entries_view(out@) =~= seq![(k@, v@)]);
    JsonValue::Object(out)
}

fn object2(k1: &str, v1: JsonValue, k2: &str, v2: JsonValue) -> (r: JsonValue)
    ensures
        r@ == Json::Object(seq![(k1@, v1@), (k2@, v2@)]),
{
    let out = vec![(k1.to_string(), v1), (k2.to_string(), v2)];
    proof {
        lemma_object_view(out);
    }
    assert(entries_view(out@) =~= seq![(k1@, v1@), (k2@, v2@)]);
    JsonValue::Object(out)
}

fn object3(k1: &str, v1: JsonValue, k2: &str, v2: JsonValue, k3: &str, v3: JsonValue) -> (r: JsonValue)
    ensures
        r@ == Json::Object(seq![(k1@, v1@), (k2@, v2@), (k3@, v3@)]),
{
    let out = vec![(k1.to_string(), v1), (k2.to_string(), v2), (k3.to_string(), v3)];
    proof {
        lemma_object_view(out);
    }
    assert(entries_view(out@) =~= seq![(k1@, v1@), (k2@, v2@), (k3@, v3@)]);
    JsonValue::Object(out)
}

fn one_value() -> (r: JsonValue)
    ensures
        r@ == one_json(),
{
    JsonValue::Number("1".to_string())
}

fn copy_strings(v: &Vec<String>) -> (r: Vec<String>)
    ensures
        string_views(r@) == string_views(v@),
{
    let mut out: Vec<String> = Vec::new();
    let mut i: usize = 0;
    while i < v.len()
        invariant
            i <= v@.len(),
            string_views(out@) == string_views(v@).take(i as int),
        decreases v@.len() - i,
    {
        let ghost before = string_views(out@);
        out.push(copy_string(&v[i]));
        assert(string_views(out@) =~= before.push(v@[i as int]@));
        assert(string_views(v@).take(i + 1) =~= string_views(v@).take(i as int).push(v@[i as int]@));
        i = i + 1;
    }
    assert(string_views(v@).take(v@.len() as int) =~= string_views(v@));
    out
}

pub open spec fn opt_value_json(v: Option<&JsonValue>) -> Option<Json> {
    match v {
        Some(x) => Some(x@),
        None => None,
    }
}

#[verifier::rlimit(40)]
fn push_required_errors(
    value: &JsonValue,
    check: &ValidationCheck,
    trigger: &String,
    required: &Vec<String>,
    equals: Option<&ValidationValue>,
    secret_paths: &Vec<String>,
    errors: &mut ValidationErrors,
)
    ensures
        final(errors)@ == old(errors)@ + required_errors(value@, *check, trigger@, string_views(required@),
            match equals { Some(e) => Some(e.0@), None => None }, matching(value@, trigger@), matching(value@, trigger@).len(),
            string_views(secret_paths@)),
{
    let ghost eq: Option<Json> = match equals { Some(e) => Some(e.0@), None => None };
    let ghost sec = string_views(secret_paths@);
    let ghost req = string_views(required@);
    let ms = collect_matching_values(value, trigger.as_str());
    let ghost mv = pairs_view(ms@);
    assert(mv == matching(value@, trigger@));
    let ghost start = errors@;
    let mut i: usize = 0;
    while i < ms.len()
        invariant
            i <= ms@.len(),
            mv == pairs_view(ms@),
            errors@ == start + required_errors(value@, *check, trigger@, req, eq, mv, i as nat, sec),
            eq == (match equals { Some(e) => Some(e.0@), None => None::<Json> }),
            sec == string_views(secret_paths@),
            req == string_views(required@),
        decreases ms@.len() - i,
    {
        let (mp, mval) = (&ms[i].0, &ms[i].1);
        assert(mv[i as int] == (mp@, mval@));
        let fire = match equals {
            None => match mval {
                JsonValue::Null => false,
                _ => true,
            },
            Some(e) => values_equal(mval, &e.0),
        };
        if fire {
            let bound = match bind_required_paths(trigger.as_str(), mp.as_str(), required) {
                Some(b) => b,
                None => copy_strings(required),
            };
            let ghost bv = string_views(bound@);
            assert(bv == bound_requires(trigger@, mp@, req));
            let missing = missing_paths(value, &bound);
            let ghost miss = string_views(missing@);
            if missing.len() > 0 {
                let joined_missing = join_strings(&missing, ", ");
                let message = match equals {
                    None => cat(&cat(mp.as_str(), " requires "), joined_missing.as_str()),
                    Some(e) => {
                        let et = e.render();
                        cat(&cat(&cat(&cat(mp.as_str(), " == "), et.as_str()), " requires "), joined_missing.as_str())
                    },
                };
                let expected = match equals {
                    None => object2("requires", strings_value(&bound), "trigger", JsonValue::String(copy_string(mp))),
                    Some(e) => object3("equals", crate::json::clone_value(&e.0), "requires", strings_value(&bound), "trigger",
                        JsonValue::String(copy_string(mp))),
                };
                let actual = object1("missing", strings_value(&missing));
                let mut related: Vec<String> = Vec::new();
                related.push(copy_string(mp));
                let ghost r0 = related@;
                let mut k: usize = 0;
                while k < missing.len()
                    invariant
                        k <= missing@.len(),
                        string_views(related@) == seq![mp@] + miss.take(k as int),
                        miss == string_views(missing@),
                    decreases missing@.len() - k,
                {
                    let ghost before = string_views(related@);
                    related.push(copy_string(&missing[k]));
                    assert(string_views(related@) =~= before.push(missing@[k as int]@));
                    assert(seq![mp@] + miss.take(k + 1) =~= (seq![mp@] + miss.take(k as int)).push(miss[k as int]));
                    k = k + 1;
                }
                assert(miss.take(missing@.len() as int) =~= miss);
                let err = group_validation_error(check, &related, secret_paths, message.as_str(), expected, actual);
                errors.push(err);
            }
        }
        i = i + 1;
    }
}

/// Checks the cross-field validations against the final value, in order.
pub fn validate_declared_checks(value: &JsonValue, checks: &Vec<ValidationCheck>, secret_paths: &Vec<String>) -> (r: ValidationErrors)
    ensures
        r@ == checks_errors(value@, checks@, string_views(secret_paths@), checks@.len()),
{
    let ghost sec = string_views(secret_paths@);
    let mut errors = ValidationErrors::new();
    let mut i: usize = 0;
    while i < checks.len()
        invariant
            i <= checks@.len(),
            sec == string_views(secret_paths@),
            errors@ == checks_errors(value@, checks@, sec, i as nat),
        decreases checks@.len() - i,
    {
        let check = &checks[i];
        let ghost before = errors@;
        match check {
            ValidationCheck::AtLeastOneOf { paths } => {
                let present = present_paths(value, paths);
                if present.len() == 0 {
                    let m = cat(&cat("at least one of ", join_strings(paths, ", ").as_str()), " must be configured");
                    let expected = object2("min_present", one_value(), "paths", strings_value(paths));
                    let actual = object1("present", strings_value(&present));
                    errors.push(group_validation_error(check, paths, secret_paths, m.as_str(), expected, actual));
                } else {
                    assert(errors@ =~= before + Seq::<ErrorView>::empty());
                }
            },
            ValidationCheck::ExactlyOneOf { paths } => {
                let present = present_paths(value, paths);
                if present.len() != 1 {
                    let m = cat(&cat("exactly one of ", join_strings(paths, ", ").as_str()), " must be configured");
                    let expected = object1("exactly_one_of", strings_value(paths));
                    let actual = object1("present", strings_value(&present));
                    errors.push(group_validation_error(check, paths, secret_paths, m.as_str(), expected, actual));
                } else {
                    assert(errors@ =~= before + Seq::<ErrorView>::empty());
                }
            },
            ValidationCheck::MutuallyExclusive { paths } => {
                let present = present_paths(value, paths);
                if present.len() > 1 {
                    let m = cat(join_strings(paths, ", ").as_str(), " are mutually exclusive");
                    let expected = object2("max_present", one_value(), "paths", strings_value(paths));
                    let actual = object1("present", strings_value(&present));
                    errors.push(group_validation_error(check, paths, secret_paths, m.as_str(), expected, actual));
                } else {
                    assert(errors@ =~= before + Seq::<ErrorView>::empty());
                }
            },
            ValidationCheck::RequiredWith { path, requires: required } => {
                push_required_errors(value, check, path, required, None, secret_paths, &mut errors);
            },
            ValidationCheck::RequiredIf { path, equals, requires: required } => {
                push_required_errors(value, check, path, required, Some(equals), secret_paths, &mut errors);
            },
        }
        assert(errors@ =~= checks_errors(value@, checks@, sec, (i + 1) as nat));
        i = i + 1;
    }
    errors
}

/// `exactly_one_of` fails on a set of paths exactly when `at_least_one_of`
/// or `mutually_exclusive` fails on the same paths.
pub proof fn law_exactly_one_of_splits(j: Json, paths: Vec<String>, secrets: Seq<Seq<char>>)
    ensures
        (check_errors(j, ValidationCheck::ExactlyOneOf { paths }, secrets).len() > 0) == (
            check_errors(j, ValidationCheck::AtLeastOneOf { paths }, secrets).len() > 0
            || check_errors(j, ValidationCheck::MutuallyExclusive { paths }, secrets).len() > 0),
{
}

/// A rule that a value fails reports the redaction marker, not the value,
/// at a secret path.
pub proof fn law_rule_errors_redact_secrets(path: Seq<char>, actual: Json, rule: ValidationRule, secrets: Seq<Seq<char>>,
    probe: RuleProbe, ips: Map<Seq<char>, IpKind>)
    requires
        secret_at(path, secrets),
        rule_failure(actual, rule, probe, ips) is Some,
    ensures
        rule_result(path, actual, rule, secrets, probe, ips) matches Some(e) && e.actual == Some(redacted()),
{
}

} // verus!
