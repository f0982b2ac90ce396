//! Format checks used by declarative validation: host names, URLs and
//! email addresses.
use vstd::prelude::*;
use crate::text::{split, chars_of, string_of, chars_eq, slice_chars, split_chars, is_alnum, is_alpha, is_digit,
    is_hex_digit, is_space, is_control, is_alnum_char, is_alpha_char, is_digit_char, is_hex_digit_char,
    is_space_char, is_control_char, starts_with, ends_with, digits_value, all_chars, parse_digits};
use crate::strmap::StrMap;
use crate::args::{char_index, find_char};
use crate::suggest::{last_dot};

verus! {

/// What the standard library's address parser reads a text as.
#[derive(Clone, Copy, PartialEq, Eq, Structural, Debug)]
pub enum IpKind {
    V4,
    V6,
}

/// A label of a host name: 1 to 63 ASCII letters, digits or `-`, not
/// starting or ending with `-`.
pub open spec fn label_ok(l: Seq<char>) -> bool {
    &&& 0 < l.len() <= 63
    &&& l[0] != '-'
    &&& l.last() != '-'
    &&& forall|i: int| 0 <= i < l.len() ==> is_alnum(#[trigger] l[i]) || l[i] == '-'
}

/// A host name: at most 253 characters of `.`-separated labels. (Lengths
/// count characters; a valid name is ASCII, where they equal bytes.)
pub open spec fn hostname_ok(v: Seq<char>) -> bool {
    &&& 0 < v.len() <= 253
    &&& forall|i: int| 0 <= i < split(v, '.').len() ==> label_ok(#[trigger] split(v, '.')[i])
}

fn label_ok_exec(l: &Vec<char>) -> (r: bool)
    ensures
        r == label_ok(l@),
{
    if l.len() == 0 || l.len() > 63 || l[0] == '-' || l[l.len() - 1] == '-' {
        return false;
    }
    let mut i: usize = 0;
    while i < l.len()
        invariant
            i <= l@.len(),
            forall|j: int| 0 <= j < i ==> is_alnum(#[trigger] l@[j]) || l@[j] == '-',
        decreases l@.len() - i,
    {
        if !(is_alnum_char(l[i]) || l[i] == '-') {
            return false;
        }
        i = i + 1;
    }
    true
}

/// Whether `value` is a valid host name.
pub fn is_valid_hostname(value: &str) -> (r: bool)
    ensures
        r == hostname_ok(value@),
{
    let v = chars_of(value);
    if v.len() == 0 || v.len() > 253 {
        return false;
    }
    let labels = split_chars(&v, '.');
    let mut i: usize = 0;
    while i < labels.len()
        invariant
            i <= labels@.len(),
            labels@.len() == split(v@, '.').len(),
            v@ == value@,
            forall|k: int| 0 <= k < labels@.len() ==> (#[trigger] labels@[k])@ == split(v@, '.')[k],
            forall|k: int| 0 <= k < i ==> label_ok(#[trigger] split(v@, '.')[k]),
        decreases labels@.len() - i,
    {
        if !label_ok_exec(&labels[i]) {
            assert(!label_ok(split(v@, '.')[i as int]));
            return false;
        }
        i = i + 1;
    }
    true
}

/// Every `%` starts an escape of two hexadecimal digits.
pub open spec fn percent_ok(v: Seq<char>) -> bool {
    forall|i: int| 0 <= i < v.len() && #[trigger] v[i] == '%' ==> i + 2 < v.len() && is_hex_digit(v[i + 1]) && is_hex_digit(v[i + 2])
}

/// Whether every `%` in `value` starts a valid percent escape.
pub fn has_valid_percent_escapes(value: &str) -> (r: bool)
    ensures
        r == percent_ok(value@),
{
    let v = chars_of(value);
    let mut i: usize = 0;
    while i < v.len()
        invariant
            i <= v@.len(),
            forall|j: int| 0 <= j < i && #[trigger] v@[j] == '%' ==> j + 2 < v@.len() && is_hex_digit(v@[j + 1]) && is_hex_digit(v@[j + 2]),
            v@ == value@,
        decreases v@.len() - i,
    {
        if v[i] == '%' {
            if v.len() - i <= 2 || !is_hex_digit_char(v[i + 1]) || !is_hex_digit_char(v[i + 2]) {
                assert(v@[i as int] == '%');
                return false;
            }
        }
        i = i + 1;
    }
    true
}

/// A port: one or more ASCII digits with a value that fits in `u16`.
pub open spec fn port_value(p: Option<Seq<char>>) -> Option<nat> {
    match p {
        Some(s) => if s.len() > 0 && (forall|i: int| 0 <= i < s.len() ==> is_digit(#[trigger] s[i])) && digits_value(s) <= 65535 {
            Some(digits_value(s))
        } else {
            None
        },
        None => None,
    }
}

/// Reads a URL port.
pub fn parse_url_port(port: Option<&str>) -> (r: Option<u16>)
    ensures
        match r {
            Some(n) => port_value(match port { Some(p) => Some(p@), None => None }) == Some(n as nat),
            None => port_value(match port { Some(p) => Some(p@), None => None }) is None,
        },
{
    let p = match port {
        Some(p) => p,
        None => {
            return None;
        },
    };
    let s = chars_of(p);
    if s.len() == 0 {
        return None;
    }
    let mut i: usize = 0;
    while i < s.len()
        invariant
            i <= s@.len(),
            forall|j: int| 0 <= j < i ==> is_digit(#[trigger] s@[j]),
            s@ == p@,
            port == Some(p),
        decreases s@.len() - i,
    {
        if !is_digit_char(s[i]) {
            assert(!is_digit(s@[i as int]));
            return None;
        }
        i = i + 1;
    }
    assert(all_chars(s@, |c: char| is_digit(c)));
    match parse_digits(&s) {
        Some(v) => {
            if v <= 65535 {
                Some(v as u16)
            } else {
                None
            }
        },
        None => None,
    }
}

/// Characters allowed in the user information of a URL authority.
pub open spec fn userinfo_char(c: char) -> bool {
    is_alnum(c) || c == '-' || c == '.' || c == '_' || c == '~' || c == '!' || c == '$' || c == '&' || c == '\''
        || c == '(' || c == ')' || c == '*' || c == '+' || c == ',' || c == ';' || c == '=' || c == ':' || c == '%'
}

/// Whether every character of `value` may appear in URL user information.
pub fn is_valid_url_userinfo(value: &str) -> (r: bool)
    ensures
        r == (forall|i: int| 0 <= i < value@.len() ==> userinfo_char(#[trigger] value@[i])),
{
    let v = chars_of(value);
    let mut i: usize = 0;
    while i < v.len()
        invariant
            i <= v@.len(),
            forall|j: int| 0 <= j < i ==> userinfo_char(#[trigger] v@[j]),
            v@ == value@,
        decreases v@.len() - i,
    {
        let c = v[i];
        assert(c == v@[i as int]);
        if !(is_alnum_char(c) || c == '-' || c == '.' || c == '_' || c == '~' || c == '!' || c == '$' || c == '&' || c == '\''
            || c == '(' || c == ')' || c == '*' || c == '+' || c == ',' || c == ';' || c == '=' || c == ':' || c == '%') {
            assert(!userinfo_char(v@[i as int]));
            return false;
        }
        i = i + 1;
    }
    true
}

/// A URL scheme: an ASCII letter, then letters, digits, `+`, `-` or `.`.
pub open spec fn scheme_ok(s: Seq<char>) -> bool {
    &&& s.len() > 0
    &&& is_alpha(s[0])
    &&& forall|i: int| 1 <= i < s.len() ==> is_alnum(#[trigger] s[i]) || s[i] == '+' || s[i] == '-' || s[i] == '.'
}

/// Whether `scheme` is a valid URL scheme.
pub fn is_valid_url_scheme(scheme: &str) -> (r: bool)
    ensures
        r == scheme_ok(scheme@),
{
    let s = chars_of(scheme);
    if s.len() == 0 || !is_alpha_char(s[0]) {
        return false;
    }
    let mut i: usize = 1;
    while i < s.len()
        invariant
            1 <= i <= s@.len(),
            forall|j: int| 1 <= j < i ==> is_alnum(#[trigger] s@[j]) || s@[j] == '+' || s@[j] == '-' || s@[j] == '.',
            s@ == scheme@,
        decreases s@.len() - i,
    {
        let c = s[i];
        if !(is_alnum_char(c) || c == '+' || c == '-' || c == '.') {
            assert(!(is_alnum(s@[i as int]) || s@[i as int] == '+' || s@[i as int] == '-' || s@[i as int] == '.'));
            return false;
        }
        i = i + 1;
    }
    true
}

/// No white space or control character.
pub open spec fn plain(v: Seq<char>) -> bool {
    forall|i: int| 0 <= i < v.len() ==> !is_space(#[trigger] v[i]) && !is_control(v[i])
}

fn plain_exec(v: &[char]) -> (r: bool)
    ensures
        r == plain(v@),
{
    let mut i: usize = 0;
    while i < v.len()
        invariant
            i <= v@.len(),
            forall|j: int| 0 <= j < i ==> !is_space(#[trigger] v@[j]) && !is_control(v@[j]),
        decreases v@.len() - i,
    {
        if is_space_char(v[i]) || is_control_char(v[i]) {
            return false;
        }
        i = i + 1;
    }
    true
}

/// The position of the last `c` in `s`.
pub open spec fn last_char(s: Seq<char>, c: char) -> Option<int>
    decreases s.len(),
{
    if s.len() == 0 {
        None
    } else if s.last() == c {
        Some(s.len() - 1)
    } else {
        last_char(s.drop_last(), c)
    }
}

proof fn lemma_last_char_range(s: Seq<char>, c: char)
    ensures
        last_char(s, c) matches Some(i) ==> 0 <= i < s.len() && s[i] == c,
    decreases s.len(),
{
    if s.len() > 0 {
        lemma_last_char_range(s.drop_last(), c);
    }
}

proof fn lemma_char_index_range(s: Seq<char>, c: char)
    ensures
        char_index(s, c) matches Some(i) ==> 0 <= i < s.len() && s[i] == c,
    decreases s.len(),
{
    if s.len() > 0 {
        lemma_char_index_range(s.drop_first(), c);
    }
}

fn find_last_char(s: &[char], c: char) -> (r: Option<usize>)
    ensures
        match r {
            Some(i) => last_char(s@, c) == Some(i as int) && i < s@.len(),
            None => last_char(s@, c) is None,
        },
{
    let mut i: usize = s.len();
    assert(s@.take(s@.len() as int) =~= s@);
    while i > 0
        invariant
            i <= s@.len(),
            last_char(s@, c) == last_char(s@.take(i as int), c),
        decreases i,
    {
        assert(s@.take(i as int).drop_last() =~= s@.take(i - 1));
        assert(s@.take(i as int).last() == s@[i - 1]);
        if s[i - 1] == c {
            return Some(i - 1);
        }
        i = i - 1;
    }
    assert(s@.take(0) =~= Seq::<char>::empty());
    None
}

/// The texts the address parser accepts, and as what.
pub open spec fn ip_view(ips: StrMap<IpKind>) -> Map<Seq<char>, IpKind> {
    Map::new(|k: Seq<char>| ips.get_spec(k) is Some, |k: Seq<char>| ips.get_spec(k)->Some_0)
}

fn ip_kind(ips: &StrMap<IpKind>, text: &[char]) -> (r: Option<IpKind>)
    requires
        ips.wf(),
    ensures
        match r {
            Some(k) => ip_view(*ips).contains_key(text@) && ip_view(*ips)[text@] == k,
            None => !ip_view(*ips).contains_key(text@),
        },
{
    let t = string_of(text);
    match ips.get(t.as_str()) {
        Some(k) => Some(*k),
        None => None,
    }
}

/// A URL host with an optional port: a bracketed IPv6 address, or an
/// address or host name, then `:` and a port.
pub open spec fn host_port_ok(hp: Seq<char>, ips: Map<Seq<char>, IpKind>) -> bool {
    if hp.len() == 0 {
        false
    } else if hp[0] == '[' {
        let rest = hp.skip(1);
        match char_index(rest, ']') {
            None => false,
            Some(j) => {
                &&& ips.contains_key(rest.take(j)) && ips[rest.take(j)] == IpKind::V6
                &&& (rest.skip(j + 1).len() == 0 || (rest.skip(j + 1)[0] == ':' && port_value(Some(rest.skip(j + 2))) is Some))
            },
        }
    } else {
        match last_char(hp, ':') {
            Some(i) => {
                let host = hp.take(i);
                &&& char_index(host, ':') is None
                &&& host.len() > 0 && (ips.contains_key(host) || hostname_ok(host))
                &&& port_value(Some(hp.skip(i + 1))) is Some
            },
            None => ips.contains_key(hp) || hostname_ok(hp),
        }
    }
}

/// Whether `host_port` is a valid URL host with an optional port; `ips`
/// holds the texts the address parser accepts.
pub fn is_valid_url_host_port(host_port: &str, ips: &StrMap<IpKind>) -> (r: bool)
    requires
        ips.wf(),
    ensures
        r == host_port_ok(host_port@, ip_view(*ips)),
{
    let hp = chars_of(host_port);
    if hp.len() == 0 {
        return false;
    }
    if hp[0] == '[' {
        let rest = slice_chars(&hp, 1, hp.len());
        assert(rest@ =~= hp@.skip(1));
        let j = match find_char(&rest, ']') {
            None => {
                return false;
            },
            Some(j) => j,
        };
        let host = slice_chars(&rest, 0, j);
        assert(host@ =~= rest@.take(j as int));
        match ip_kind(ips, &host) {
            Some(IpKind::V6) => {},
            _ => {
                return false;
            },
        }
        let suffix = slice_chars(&rest, j + 1, rest.len());
        assert(suffix@ =~= rest@.skip(j + 1));
        if suffix.len() == 0 {
            return true;
        }
        if suffix[0] != ':' {
            return false;
        }
        let port = string_of(&slice_chars(&suffix, 1, suffix.len()));
        assert(suffix@.subrange(1, suffix@.len() as int) =~= rest@.skip(j + 2));
        return parse_url_port(Some(port.as_str())).is_some();
    }
    match find_last_char(&hp, ':') {
        Some(i) => {
            let host = slice_chars(&hp, 0, i);
            assert(host@ =~= hp@.take(i as int));
            if find_char(&host, ':').is_some() {
                return false;
            }
            if host.len() == 0 {
                return false;
            }
            let known = ip_kind(ips, &host).is_some() || is_valid_hostname(string_of(&host).as_str());
            if !known {
                return false;
            }
            let port = string_of(&slice_chars(&hp, i + 1, hp.len()));
            assert(hp@.subrange(i + 1, hp@.len() as int) =~= hp@.skip(i + 1));
            parse_url_port(Some(port.as_str())).is_some()
        },
        None => ip_kind(ips, &hp).is_some() || is_valid_hostname(host_port),
    }
}

/// The position of the first `/`, `?` or `#`, or the length.
pub open spec fn authority_end(s: Seq<char>) -> int
    decreases s.len(),
{
    if s.len() == 0 {
        0
    } else if s[0] == '/' || s[0] == '?' || s[0] == '#' {
        0
    } else {
        authority_end(s.drop_first()) + 1
    }
}

proof fn lemma_authority_end(s: Seq<char>, i: int)
    requires
        0 <= i <= s.len(),
        forall|j: int| 0 <= j < i ==> !(s[j] == '/' || s[j] == '?' || s[j] == '#'),
        i < s.len() ==> (s[i] == '/' || s[i] == '?' || s[i] == '#'),
    ensures
        authority_end(s) == i,
    decreases i,
{
    if i > 0 {
        lemma_authority_end(s.drop_first(), i - 1);
    }
}

/// The host part that the authority names, after any user information
/// (which must be valid, or nothing is left).
pub open spec fn authority_host(authority: Seq<char>) -> Seq<char> {
    match last_char(authority, '@') {
        Some(i) => {
            let ui = authority.take(i);
            if ui.len() == 0 || char_index(ui, '@') is Some || !(forall|k: int| 0 <= k < ui.len() ==> userinfo_char(#[trigger] ui[k])) {
                Seq::empty()
            } else {
                authority.skip(i + 1)
            }
        },
        None => authority,
    }
}

/// The part of a URL after `scheme://`.
pub open spec fn hierarchical_ok(scheme: Seq<char>, at: Seq<char>, ips: Map<Seq<char>, IpKind>) -> bool {
    let k = authority_end(at);
    let authority = at.take(k);
    let tail = at.skip(k);
    if authority.len() == 0 {
        (scheme == "file"@ || scheme == "unix"@) && tail.len() > 0 && percent_ok(tail) && plain(tail)
    } else {
        percent_ok(authority) && percent_ok(tail) && host_port_ok(authority_host(authority), ips) && plain(tail)
    }
}

/// Whether the rest of a URL after `scheme://` is valid.
pub fn is_valid_hierarchical_url(scheme: &str, authority_and_tail: &str, ips: &StrMap<IpKind>) -> (r: bool)
    requires
        ips.wf(),
    ensures
        r == hierarchical_ok(scheme@, authority_and_tail@, ip_view(*ips)),
{
    let at = chars_of(authority_and_tail);
    let mut k: usize = 0;
    while k < at.len() && !(at[k] == '/' || at[k] == '?' || at[k] == '#')
        invariant
            k <= at@.len(),
            forall|j: int| 0 <= j < k ==> !(at@[j] == '/' || at@[j] == '?' || at@[j] == '#'),
        decreases at@.len() - k,
    {
        k = k + 1;
    }
    proof {
        lemma_authority_end(at@, k as int);
    }
    let authority = slice_chars(&at, 0, k);
    let tail = slice_chars(&at, k, at.len());
    assert(authority@ =~= at@.take(k as int));
    assert(tail@ =~= at@.skip(k as int));
    let tail_s = string_of(&tail);
    proof {
        reveal_strlit("file");
        reveal_strlit("unix");
    }
    if authority.len() == 0 {
        return (str_is(scheme, "file") || str_is(scheme, "unix")) && tail.len() > 0
            && has_valid_percent_escapes(tail_s.as_str()) && plain_exec(&tail);
    }
    let authority_s = string_of(&authority);
    if !has_valid_percent_escapes(authority_s.as_str()) || !has_valid_percent_escapes(tail_s.as_str()) {
        return false;
    }
    let host_port = match find_last_char(&authority, '@') {
        Some(i) => {
            let ui = slice_chars(&authority, 0, i);
            assert(ui@ =~= authority@.take(i as int));
            if ui.len() == 0 || find_char(&ui, '@').is_some() || !is_valid_url_userinfo(string_of(&ui).as_str()) {
                Vec::new()
            } else {
                let hp = slice_chars(&authority, i + 1, authority.len());
                assert(hp@ =~= authority@.skip(i + 1));
                hp
            }
        },
        None => authority,
    };
    assert(host_port@ =~= authority_host(at@.take(k as int)));
    is_valid_url_host_port(string_of(&host_port).as_str(), ips) && plain_exec(&tail)
}

fn str_is(s: &str, lit: &str) -> (r: bool)
    ensures
        r == (s@ == lit@),
{
    crate::text::str_eq(s, lit)
}

/// A URL: no white space or control characters, a valid scheme, then a
/// `mailto:` address, a `//` authority, or (for `file` and `unix`) an
/// absolute path.
pub open spec fn url_ok(v: Seq<char>, ips: Map<Seq<char>, IpKind>) -> bool {
    &&& v.len() > 0
    &&& plain(v)
    &&& match char_index(v, ':') {
        None => false,
        Some(i) => {
            let scheme = v.take(i);
            let rest = v.skip(i + 1);
            &&& scheme_ok(scheme)
            &&& rest.len() > 0
            &&& if scheme == "mailto"@ {
                rest[0] != '/' && percent_ok(rest) && plain(rest)
            } else if starts_with(rest, "//"@) {
                hierarchical_ok(scheme, rest.skip(2), ips)
            } else if rest[0] == '/' {
                (scheme == "file"@ || scheme == "unix"@) && percent_ok(rest) && plain(rest)
            } else {
                false
            }
        },
    }
}

/// Whether `value` is a valid URL; `ips` holds the texts the address parser
/// accepts.
pub fn is_valid_url(value: &str, ips: &StrMap<IpKind>) -> (r: bool)
    requires
        ips.wf(),
    ensures
        r == url_ok(value@, ip_view(*ips)),
{
    let v = chars_of(value);
    if v.len() == 0 || !plain_exec(&v) {
        return false;
    }
    let i = match find_char(&v, ':') {
        None => {
            return false;
        },
        Some(i) => i,
    };
    let scheme = string_of(&slice_chars(&v, 0, i));
    let rest = slice_chars(&v, i + 1, v.len());
    assert(scheme@ =~= v@.take(i as int));
    assert(rest@ =~= v@.skip(i + 1));
    if !is_valid_url_scheme(scheme.as_str()) || rest.len() == 0 {
        return false;
    }
    let rest_s = string_of(&rest);
    proof {
        reveal_strlit("mailto");
        reveal_strlit("file");
        reveal_strlit("unix");
        reveal_strlit("//");
    }
    assert("//"@ =~= seq!['/', '/']);
    if str_is(scheme.as_str(), "mailto") {
        return rest[0] != '/' && has_valid_percent_escapes(rest_s.as_str()) && plain_exec(&rest);
    }
    if rest.len() >= 2 && rest[0] == '/' && rest[1] == '/' {
        assert(rest@.take(2) =~= seq!['/', '/']);
        assert(starts_with(rest@, "//"@));
        let at = string_of(&slice_chars(&rest, 2, rest.len()));
        assert(rest@.subrange(2, rest@.len() as int) =~= rest@.skip(2));
        return is_valid_hierarchical_url(scheme.as_str(), at.as_str(), ips);
    }
    assert(rest@.len() >= 2 ==> rest@.take(2)[1] == rest@[1]);
    assert(!starts_with(rest@, "//"@));
    if rest[0] == '/' {
        return (str_is(scheme.as_str(), "file") || str_is(scheme.as_str(), "unix"))
            && has_valid_percent_escapes(rest_s.as_str()) && plain_exec(&rest);
    }
    false
}

/// What `regex::Regex::new(pattern)` followed by `Regex::is_match(text)`
/// gives: whether `text` matches, or the text of the compile error.
pub uninterp spec fn regex_outcome(pattern: Seq<char>, text: Seq<char>) -> Result<bool, Seq<char>>;

/// Compiles `pattern` with `regex::Regex::new` and tests `text` with
/// `Regex::is_match`, or renders the compile error with `to_string`.
/// Claimed: the result is the named `regex_outcome` of the two texts, so
/// equal inputs give equal results; nothing more is stated.
#[verifier::external_body]
pub(crate) fn regex_test(pattern: &str, text: &str) -> (r: Result<bool, String>)
    ensures
        match r {
            Ok(b) => regex_outcome(pattern@, text@) == Ok::<bool, Seq<char>>(b),
            Err(m) => regex_outcome(pattern@, text@) == Err::<bool, Seq<char>>(m@),
        },
{
    match regex::Regex::new(pattern) {
        Ok(re) => Ok(re.is_match(text)),
        Err(e) => Err(e.to_string()),
    }
}

/// The pattern the local part of an email address must match.
pub open spec fn email_local_pattern() -> Seq<char> {
    r"^[A-Za-z0-9!#$%&'*+/=?^_`{|}~-]+(?:\.[A-Za-z0-9!#$%&'*+/=?^_`{|}~-]+)*$"@
}

/// The number of occurrences of `c` in `s`.
pub open spec fn count_char(s: Seq<char>, c: char) -> nat
    decreases s.len(),
{
    if s.len() == 0 {
        0
    } else {
        count_char(s.drop_last(), c) + if s.last() == c { 1nat } else { 0nat }
    }
}

/// `s` holds two consecutive dots.
pub open spec fn has_double_dot(s: Seq<char>) -> bool {
    exists|i: int| 0 <= i < s.len() - 1 && #[trigger] s[i] == '.' && s[i + 1] == '.'
}

/// An email address: no white space, one `@`, a dot-atom local part (as the
/// pattern checks it), and a domain that is a bracketed address or a host
/// name that is not an IPv4 address.
pub open spec fn email_ok(v: Seq<char>, ips: Map<Seq<char>, IpKind>) -> bool {
    &&& v.len() > 0
    &&& forall|i: int| 0 <= i < v.len() ==> !is_space(#[trigger] v[i])
    &&& count_char(v, '@') == 1
    &&& match char_index(v, '@') {
        None => false,
        Some(i) => {
            let local = v.take(i);
            let domain = v.skip(i + 1);
            &&& local.len() > 0
            &&& domain.len() > 0
            &&& local[0] != '.'
            &&& local.last() != '.'
            &&& !has_double_dot(local)
            &&& regex_outcome(email_local_pattern(), local) == Ok::<bool, Seq<char>>(true)
            &&& if domain.len() >= 2 && domain[0] == '[' && domain.last() == ']' {
                ips.contains_key(domain.subrange(1, domain.len() - 1))
            } else {
                !(ips.contains_key(domain) && ips[domain] == IpKind::V4) && hostname_ok(domain)
            }
        },
    }
}

/// Whether `value` is a valid email address; `ips` holds the texts the
/// address parser accepts.
#[verifier::loop_isolation(false)]
pub fn is_valid_email(value: &str, ips: &StrMap<IpKind>) -> (r: bool)
    requires
        ips.wf(),
    ensures
        r == email_ok(value@, ip_view(*ips)),
{
    let v = chars_of(value);
    if v.len() == 0 {
        return false;
    }
    let mut ats: usize = 0;
    let mut i: usize = 0;
    while i < v.len()
        invariant
            i <= v@.len(),
            v@ == value@,
            ats as nat == count_char(v@.take(i as int), '@'),
            ats <= i,
            forall|j: int| 0 <= j < i ==> !is_space(#[trigger] v@[j]),
        decreases v@.len() - i,
    {
        assert(v@.take(i + 1).drop_last() =~= v@.take(i as int));
        if is_space_char(v[i]) {
            assert(is_space(v@[i as int]));
            return false;
        }
        if v[i] == '@' {
            ats = ats + 1;
        }
        i = i + 1;
    }
    assert(v@.take(v@.len() as int) =~= v@);
    if ats != 1 {
        return false;
    }
    let at = match find_char(&v, '@') {
        None => {
            return false;
        },
        Some(at) => at,
    };
    let local = slice_chars(&v, 0, at);
    let domain = slice_chars(&v, at + 1, v.len());
    assert(local@ =~= v@.take(at as int));
    assert(domain@ =~= v@.skip(at + 1));
    if local.len() == 0 || domain.len() == 0 || local[0] == '.' || local[local.len() - 1] == '.' {
        return false;
    }
    let mut k: usize = 0;
    while k < local.len() - 1
        invariant
            k + 1 <= local@.len(),
            forall|j: int| 0 <= j < k ==> !(#[trigger] local@[j] == '.' && local@[j + 1] == '.'),
        decreases local@.len() - k,
    {
        if local[k] == '.' && local[k + 1] == '.' {
            assert(local@[k as int] == '.' && local@[k + 1] == '.');
            return false;
        }
        k = k + 1;
    }
    assert(!has_double_dot(local@));
    let local_s = string_of(&local);
    let pattern = r"^[A-Za-z0-9!#$%&'*+/=?^_`{|}~-]+(?:\.[A-Za-z0-9!#$%&'*+/=?^_`{|}~-]+)*$";
    match regex_test(pattern, local_s.as_str()) {
        Ok(true) => {},
        _ => {
            return false;
        },
    }
    let n = domain.len();
    if n >= 2 && domain[0] == '[' && domain[n - 1] == ']' {
        let inner = slice_chars(&domain, 1, n - 1);
        return ip_kind(ips, &inner).is_some();
    }
    let is_v4 = match ip_kind(ips, &domain) {
        Some(IpKind::V4) => true,
        _ => false,
    };
    !is_v4 && is_valid_hostname(string_of(&domain).as_str())
}

} // verus!
