//! The calls this library makes into `regex`, `mime`, `url`, `percent-encoding`,
//! `encoding_rs` and a few std functions that vstd leaves unspecified. Each is a
//! small trusted function: Verus believes its contract and does not read its body.
//! Results that would take pages to state are given a name (an uninterpreted spec
//! function of the arguments); what the documentation states in a few lines is
//! stated.
use vstd::prelude::*;
use vstd::utf8::*;

verus! {

/// A JSON document, carried through without inspection.
#[verifier::external_type_specification]
#[verifier::external_body]
pub struct ExJsonValue(serde_json::Value);

// ---------------------------------------------------------------------------
// Regular expressions
// ---------------------------------------------------------------------------

/// Pattern for header names: one or more token characters.
pub const HEADER_NAME_PATTERN: &'static str = r"^[a-zA-Z0-9!#\$%&'*+-.^_`|~]+$";

/// Pattern for header values: tab, printable ASCII and U+0080..=U+00FF only.
pub const HEADER_VALUE_PATTERN: &'static str = "^[\\t\\u0020-\\u007E\\u0080-\\u00FF]*$";

/// Pattern for `authorization` values: a scheme word, a space and credentials.
pub const AUTHORIZATION_PATTERN: &'static str = r"^\w+ .+$";

/// Pattern for the request line: method, target and version.
pub const REQUEST_LINE_PATTERN: &'static str = r"^([A-Z]+?) ([^ ]+?) (HTTP/[0-9.]+?)\s*$";

/// A character of the class `[a-zA-Z0-9!#\$%&'*+-.^_`|~]` (`+-.` is a range).
pub open spec fn is_token_char(c: char) -> bool {
    ||| ('a' <= c && c <= 'z')
    ||| ('A' <= c && c <= 'Z')
    ||| ('0' <= c && c <= '9')
    ||| c == '!' || c == '#' || c == '$' || c == '%' || c == '&' || c == '\'' || c == '*'
    ||| ('+' <= c && c <= '.')
    ||| c == '^' || c == '_' || c == '`' || c == '|' || c == '~'
}

/// The text matched by [`HEADER_NAME_PATTERN`].
pub open spec fn is_token(s: Seq<char>) -> bool {
    s.len() > 0 && forall|i: int| 0 <= i < s.len() ==> is_token_char(#[trigger] s[i])
}

/// A character of the class `[\t\u0020-\u007E\u0080-\u00FF]`.
pub open spec fn is_field_char(c: char) -> bool {
    c == '\t' || (' ' <= c && c <= '~') || ('\u{80}' <= c && c <= '\u{ff}')
}

/// The text matched by [`HEADER_VALUE_PATTERN`].
pub open spec fn is_field_text(s: Seq<char>) -> bool {
    forall|i: int| 0 <= i < s.len() ==> is_field_char(#[trigger] s[i])
}

/// The three groups of [`REQUEST_LINE_PATTERN`] in `line`, when it matches:
/// the line is `M P HTTP/D W` with `M` in `[A-Z]+`, `P` free of spaces and
/// non-empty, `D` in `[0-9.]+` and `W` white space; that split is unique.
pub open spec fn request_line_groups(line: Seq<char>) -> Option<(Seq<char>, Seq<char>, Seq<char>)> {
    match crate::text::split_once(line, ' ') {
        None => None,
        Some((m, rest)) => match crate::text::split_once(rest, ' ') {
            None => None,
            Some((p, tail)) => {
                let prefix = seq!['H', 'T', 'T', 'P', '/'];
                let digits = tail.skip(5);
                let w = crate::text::strip_start(digits, |c: char| ('0' <= c && c <= '9') || c == '.');
                let d = digits.take(digits.len() - w.len());
                if m.len() > 0 && (forall|i: int| 0 <= i < m.len() ==> 'A' <= #[trigger] m[i] && m[i] <= 'Z')
                    && p.len() > 0 && tail.len() >= 5 && tail.take(5) == prefix && d.len() > 0
                    && (forall|i: int| 0 <= i < w.len() ==> crate::text::is_white_space(#[trigger] w[i])) {
                    Some((m, p, prefix + d))
                } else {
                    None
                }
            },
        },
    }
}

/// Whether `regex::Regex::new(pattern)` compiles (`None` if not) and whether the
/// regex then matches `text`.
pub uninterp spec fn regex_match_result(pattern: Seq<char>, text: Seq<char>) -> Option<bool>;

/// `regex::Regex::new(pattern)` followed by `is_match(text)`; `None` when the
/// pattern does not compile. For the three header patterns of this library the
/// contract states the language each pattern denotes (by the `regex` syntax:
/// `^`/`$` anchor at the ends of the text, classes and ranges as written).
#[verifier::external_body]
pub(crate) fn regex_is_match(pattern: &str, text: &str) -> (r: Option<bool>)
    ensures
        r == regex_match_result(pattern@, text@),
        pattern@ == HEADER_NAME_PATTERN@ ==> r == Some(is_token(text@)),
        pattern@ == HEADER_VALUE_PATTERN@ ==> r == Some(is_field_text(text@)),
        pattern@ == AUTHORIZATION_PATTERN@ ==> r is Some,
{
    match regex::Regex::new(pattern) {
        Ok(re) => Some(re.is_match(text)),
        Err(_) => None,
    }
}

/// The capture groups (group 0 first) that `regex::Regex::new(pattern)` then
/// `captures(text)` yields; outer `None` when the pattern does not compile,
/// inner `None` when it does not match.
pub uninterp spec fn regex_captures_result(pattern: Seq<char>, text: Seq<char>) -> Option<
    Option<Seq<Option<Seq<char>>>>,
>;

/// The views of a list of optional strings.
pub open spec fn optional_texts(v: Seq<Option<String>>) -> Seq<Option<Seq<char>>> {
    v.map_values(|o: Option<String>| match o {
        Some(s) => Some(s@),
        None => None,
    })
}

/// `regex::Regex::new(pattern)` followed by `captures(text)`, each group
/// converted to an owned string. For [`REQUEST_LINE_PATTERN`] the contract
/// states the groups.
#[verifier::external_body]
pub(crate) fn regex_captures(pattern: &str, text: &str) -> (r: Option<Option<Vec<Option<String>>>>)
    ensures
        match r {
            None => regex_captures_result(pattern@, text@) is None,
            Some(None) => regex_captures_result(pattern@, text@) == Some(
                None::<Seq<Option<Seq<char>>>>,
            ),
            Some(Some(groups)) => regex_captures_result(pattern@, text@) == Some(
                Some(optional_texts(groups@)),
            ),
        },
        pattern@ == REQUEST_LINE_PATTERN@ ==> match r {
            Some(Some(groups)) => match request_line_groups(text@) {
                Some((m, p, v)) => optional_texts(groups@) == seq![
                    Some(text@),
                    Some(m),
                    Some(p),
                    Some(v),
                ],
                None => false,
            },
            Some(None) => request_line_groups(text@) is None,
            None => false,
        },
{
    match regex::Regex::new(pattern) {
        Ok(re) => match re.captures(text) {
            Some(caps) => Some(
                Some(caps.iter().map(|g| g.map(|m| m.as_str().to_string())).collect()),
            ),
            None => Some(None),
        },
        Err(_) => None,
    }
}

// ---------------------------------------------------------------------------
// Media types, hosts and URLs
// ---------------------------------------------------------------------------

/// `mime::Mime::from_str(s)`: on success the parsed type's text (`to_string`)
/// and its essence (`essence_str`), on failure the error's message.
pub uninterp spec fn mime_parse_result(s: Seq<char>) -> Result<(Seq<char>, Seq<char>), Seq<char>>;

/// Parses a media type with `mime::Mime::from_str`.
#[verifier::external_body]
pub(crate) fn mime_parse(s: &str) -> (r: Result<(String, String), String>)
    ensures
        match r {
            Ok((t, e)) => mime_parse_result(s@) == Ok::<(Seq<char>, Seq<char>), Seq<char>>(
                (t@, e@),
            ),
            Err(m) => mime_parse_result(s@) == Err::<(Seq<char>, Seq<char>), Seq<char>>(m@),
        },
{
    match s.parse::<mime::Mime>() {
        Ok(m) => Ok((m.to_string(), m.essence_str().to_string())),
        Err(e) => Err(e.to_string()),
    }
}

/// `url::Host::parse(s)`: on success the host's serialization, on failure the
/// error's message.
pub uninterp spec fn host_parse_result(s: Seq<char>) -> Result<Seq<char>, Seq<char>>;

/// Parses a host with `url::Host::parse`.
#[verifier::external_body]
pub(crate) fn host_parse(s: &str) -> (r: Result<String, String>)
    ensures
        match r {
            Ok(h) => host_parse_result(s@) == Ok::<Seq<char>, Seq<char>>(h@),
            Err(m) => host_parse_result(s@) == Err::<Seq<char>, Seq<char>>(m@),
        },
{
    match url::Host::parse(s) {
        Ok(h) => Ok(h.to_string()),
        Err(e) => Err(e.to_string()),
    }
}

/// `url::Url::parse(s)`: on success the URL's `path()` and `query()`, on
/// failure the error's message.
pub uninterp spec fn url_parse_result(s: Seq<char>) -> Result<(Seq<char>, Option<Seq<char>>), Seq<char>>;

/// Parses an absolute URL with `url::Url::parse`.
#[verifier::external_body]
pub(crate) fn url_parse(s: &str) -> (r: Result<(String, Option<String>), String>)
    ensures
        match r {
            Ok((p, q)) => url_parse_result(s@) == Ok::<(Seq<char>, Option<Seq<char>>), Seq<char>>(
                (
                    p@,
                    match q {
                        Some(q) => Some(q@),
                        None => None,
                    },
                ),
            ),
            Err(m) => url_parse_result(s@) == Err::<(Seq<char>, Option<Seq<char>>), Seq<char>>(m@),
        },
{
    match url::Url::parse(s) {
        Ok(u) => Ok((
            u.path().to_string(),
            match u.query() {
                Some(q) => Some(q.to_string()),
                None => None,
            },
        )),
        Err(e) => Err(e.to_string()),
    }
}

// ---------------------------------------------------------------------------
// Decoding
// ---------------------------------------------------------------------------

/// `percent_encoding::percent_decode_str(s).decode_utf8_lossy()`.
pub uninterp spec fn percent_decoded(s: Seq<char>) -> Seq<char>;

/// Percent-decodes `s` and decodes the bytes as UTF-8, replacing malformed
/// sequences.
#[verifier::external_body]
pub(crate) fn percent_decode_lossy(s: &str) -> (r: String)
    ensures
        r@ == percent_decoded(s@),
{
    percent_encoding::percent_decode_str(s).decode_utf8_lossy().into_owned()
}

/// `encoding_rs::UTF_8.decode(bytes)`: decoding with BOM sniffing and removal,
/// malformed sequences replaced.
pub uninterp spec fn utf8_decoded_lossy(bytes: Seq<u8>) -> Seq<char>;

/// Decodes a complete byte buffer as text with `encoding_rs`.
#[verifier::external_body]
pub(crate) fn decode_text_lossy(bytes: &[u8]) -> (r: String)
    ensures
        r@ == utf8_decoded_lossy(bytes@),
{
    let (text, _, _) = encoding_rs::UTF_8.decode(bytes);
    text.into_owned()
}

/// The message of `std::str::from_utf8(bytes)`'s error.
pub uninterp spec fn utf8_error_message(bytes: Seq<u8>) -> Seq<char>;

/// `std::str::from_utf8(bytes)`, owned: it succeeds exactly on well-formed
/// UTF-8 and then holds the decoded characters.
#[verifier::external_body]
pub(crate) fn utf8_to_string(bytes: &[u8]) -> (r: Result<String, String>)
    ensures
        r is Ok <==> valid_utf8(bytes@),
        r matches Ok(s) ==> s@ == decode_utf8(bytes@),
        r matches Err(m) ==> m@ == utf8_error_message(bytes@),
{
    match std::str::from_utf8(bytes) {
        Ok(s) => Ok(s.to_string()),
        Err(e) => Err(e.to_string()),
    }
}

// ---------------------------------------------------------------------------
// Case mapping and formatting
// ---------------------------------------------------------------------------

/// `str::to_lowercase`: the Unicode lowercase mapping of each character.
pub uninterp spec fn lowercase(s: Seq<char>) -> Seq<char>;

/// Every character is ASCII.
pub open spec fn is_ascii_text(s: Seq<char>) -> bool {
    forall|i: int| 0 <= i < s.len() ==> (#[trigger] s[i] as u32) < 128
}

/// The ASCII lowercase of a character: `A`..=`Z` become `a`..=`z`, others stay.
pub open spec fn ascii_lower(c: char) -> char {
    if 'A' <= c && c <= 'Z' {
        ((c as u32) + 32) as char
    } else {
        c
    }
}

/// What `str::to_lowercase` gives: on ASCII text each character's ASCII
/// lowercase, otherwise the named Unicode mapping.
pub open spec fn lowercased(s: Seq<char>) -> Seq<char> {
    if is_ascii_text(s) {
        s.map_values(|c: char| ascii_lower(c))
    } else {
        lowercase(s)
    }
}

/// Lowercases `s` with `str::to_lowercase`; on ASCII text (whose Unicode
/// lowercase mapping is the ASCII one) each character is lowercased in place.
#[verifier::external_body]
pub(crate) fn to_lowercase(s: &str) -> (r: String)
    ensures
        r@ == lowercase(s@),
        is_ascii_text(s@) ==> r@ == s@.map_values(|c: char| ascii_lower(c)),
{
    s.to_lowercase()
}

/// The `{:?}` rendering of a string.
pub uninterp spec fn debug_text(s: Seq<char>) -> Seq<char>;

/// Renders a string with `format!("{:?}", s)`.
#[verifier::external_body]
pub(crate) fn debug_string(s: &str) -> (r: String)
    ensures
        r@ == debug_text(s@),
{
    format!("{:?}", s)
}

/// The `{:?}` rendering of a list of strings.
pub uninterp spec fn debug_list(v: Seq<Seq<char>>) -> Seq<char>;

/// Renders a list of strings with `format!("{:?}", v)`.
#[verifier::external_body]
pub(crate) fn debug_strings(v: &Vec<String>) -> (r: String)
    ensures
        r@ == debug_list(v@.map_values(|s: String| s@)),
{
    format!("{:?}", v)
}

} // verus!
