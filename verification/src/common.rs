//! Header names, header values, header maps, status codes and methods.
use vstd::prelude::*;
use crate::bindings::{
    is_field_char, is_field_text, is_token, lowercased, mime_parse, mime_parse_result, regex_is_match,
    regex_match_result, to_lowercase, AUTHORIZATION_PATTERN, HEADER_NAME_PATTERN,
    HEADER_VALUE_PATTERN,
};
use crate::error::{GimbapError, GimbapParseError, ParseSource};
use crate::map::StrMap;
use crate::text::{
    comma_parts, comma_parts_str, keep_nonempty, lemma_keep_nonempty, lemma_trim_idempotent,
    lemma_trim_piece, parse_u64, parse_u64_str, split, text_eq, texts, trim, trim_str,
};

verus! {

// ---------------------------------------------------------------------------
// Header names
// ---------------------------------------------------------------------------

/// A header name as stored: trimmed, then lowercased.
pub open spec fn normalize_name(s: Seq<char>) -> Seq<char> {
    lowercased(trim(s))
}

/// A header name, held trimmed and lowercased.
#[derive(Debug, Default, Eq, Hash)]
pub struct HeaderName(String);

impl View for HeaderName {
    type V = Seq<char>;

    closed spec fn view(&self) -> Seq<char> {
        self.0@
    }
}

impl PartialEq for HeaderName {
    fn eq(&self, other: &Self) -> (r: bool) {
        self.0 == other.0
    }
}

impl vstd::std_specs::cmp::PartialEqSpecImpl for HeaderName {
    open spec fn obeys_eq_spec() -> bool {
        true
    }

    open spec fn eq_spec(&self, other: &Self) -> bool {
        self@ == other@
    }
}

impl core::ops::Deref for HeaderName {
    type Target = str;

    fn deref(&self) -> (r: &str)
        ensures
            r@ == self@,
    {
        self.0.as_str()
    }
}

impl HeaderName {
    /// Trims and lowercases `key_str`, without checking its characters.
    pub fn new(key_str: &str) -> (r: Self)
        ensures
            r@ == normalize_name(key_str@),
    {
        let trimmed = trim_str(key_str);
        HeaderName(to_lowercase(trimmed.as_str()))
    }

    /// Trims and lowercases `key_str`; `None` unless the result is one or more
    /// token characters.
    pub fn parse(key_str: &str) -> (r: Option<Self>)
        ensures
            r is Some <==> is_token(normalize_name(key_str@)),
            r matches Some(n) ==> n@ == normalize_name(key_str@),
    {
        let name = HeaderName::new(key_str);
        match regex_is_match(HEADER_NAME_PATTERN, name.0.as_str()) {
            Some(true) => Some(name),
            _ => None,
        }
    }

    /// [`HeaderName::parse`], with the refused input kept in the error.
    pub fn from_str(key_str: &str) -> (r: Result<Self, GimbapError>)
        ensures
            r is Ok <==> is_token(normalize_name(key_str@)),
            r matches Ok(n) ==> n@ == normalize_name(key_str@),
            r matches Err(GimbapError::ParseError(GimbapParseError::HeaderName(ParseSource::Text(t)))) ==> t@ == key_str@,
            r matches Err(e) ==> e matches GimbapError::ParseError(GimbapParseError::HeaderName(ParseSource::Text(_))),
    {
        match HeaderName::parse(key_str) {
            Some(n) => Ok(n),
            None => Err(GimbapError::ParseError(GimbapParseError::HeaderName(ParseSource::Text(key_str.to_owned())))),
        }
    }

    /// The stored name.
    pub fn as_str(&self) -> (r: &str)
        ensures
            r@ == self@,
    {
        self.0.as_str()
    }
}

impl core::str::FromStr for HeaderName {
    type Err = GimbapError;

    fn from_str(key_str: &str) -> (r: Result<Self, GimbapError>)
        ensures
            r is Ok <==> is_token(normalize_name(key_str@)),
            r matches Ok(n) ==> n@ == normalize_name(key_str@),
    {
        HeaderName::from_str(key_str)
    }
}

// ---------------------------------------------------------------------------
// Header values
// ---------------------------------------------------------------------------

/// Every text is accepted by [`HEADER_VALUE_PATTERN`].
pub open spec fn all_field_texts(v: Seq<Seq<char>>) -> bool {
    forall|i: int| 0 <= i < v.len() ==> is_field_text(#[trigger] v[i])
}

/// The values that [`HeaderValue::parse`] reads from `s`: the comma-separated
/// parts, trimmed, the empty ones dropped.
pub open spec fn header_values_of(s: Seq<char>) -> Seq<Seq<char>> {
    keep_nonempty(comma_parts(s))
}

/// The texts of a header, each trimmed.
#[derive(Debug, Default)]
pub struct HeaderValue(Vec<String>);

impl View for HeaderValue {
    type V = Seq<Seq<char>>;

    closed spec fn view(&self) -> Seq<Seq<char>> {
        texts(self.0@)
    }
}

impl DeepView for HeaderValue {
    type V = Seq<Seq<char>>;

    open spec fn deep_view(&self) -> Seq<Seq<char>> {
        self@
    }
}

impl PartialEq for HeaderValue {
    fn eq(&self, other: &Self) -> (r: bool) {
        strings_equal(&self.0, &other.0)
    }
}

impl vstd::std_specs::cmp::PartialEqSpecImpl for HeaderValue {
    open spec fn obeys_eq_spec() -> bool {
        true
    }

    open spec fn eq_spec(&self, other: &Self) -> bool {
        self@ == other@
    }
}

/// Whether two lists of strings hold the same texts.
pub fn strings_equal(a: &Vec<String>, b: &Vec<String>) -> (r: bool)
    ensures
        r == (texts(a@) == texts(b@)),
{
    if a.len() != b.len() {
        assert(texts(a@).len() != texts(b@).len());
        return false;
    }
    let mut i: usize = 0;
    while i < a.len()
        invariant
            i <= a@.len(),
            a@.len() == b@.len(),
            forall|j: int| 0 <= j < i ==> a@[j]@ == b@[j]@,
        decreases a@.len() - i,
    {
        if a[i] != b[i] {
            assert(texts(a@)[i as int] != texts(b@)[i as int]);
            return false;
        }
        i = i + 1;
    }
    assert(texts(a@) =~= texts(b@));
    true
}

impl core::ops::Deref for HeaderValue {
    type Target = Vec<String>;

    fn deref(&self) -> (r: &Vec<String>)
        ensures
            texts(r@) == self@,
    {
        &self.0
    }
}

impl IntoIterator for HeaderValue {
    type Item = String;
    type IntoIter = std::vec::IntoIter<String>;

    fn into_iter(self) -> (r: std::vec::IntoIter<String>)
        ensures
            texts(vstd::std_specs::iter::IteratorSpec::remaining(&r)) == self@,
    {
        proof {
            broadcast use vstd::std_specs::vec::axiom_spec_into_iter;
        }
        self.0.into_iter()
    }
}

impl HeaderValue {
    /// Each given text, trimmed, without checking its characters.
    pub fn new(values: &[&str]) -> (r: Self)
        ensures
            r@ == values@.map_values(|v: &str| trim(v@)),
    {
        let mut out: Vec<String> = Vec::new();
        let mut i: usize = 0;
        while i < values.len()
            invariant
                i <= values@.len(),
                texts(out@) == values@.take(i as int).map_values(|v: &str| trim(v@)),
            decreases values@.len() - i,
        {
            let t = HeaderValue::normalize_one(values[i]);
            let ghost before = texts(out@);
            out.push(t);
            assert(texts(out@) =~= before.push(t@));
            assert(values@.take(i + 1).map_values(|v: &str| trim(v@)) =~= values@.take(i as int).map_values(
                |v: &str| trim(v@),
            ).push(trim(values@[i as int]@)));
            i = i + 1;
        }
        assert(values@.take(i as int) =~= values@);
        HeaderValue(out)
    }

    /// The comma-separated parts of `values_str`, trimmed, empty parts dropped;
    /// `None` if a part holds a character outside [`HEADER_VALUE_PATTERN`].
    pub fn parse(values_str: &str) -> (r: Option<Self>)
        ensures
            r is Some <==> all_field_texts(header_values_of(values_str@)),
            r matches Some(v) ==> v@ == header_values_of(values_str@),
    {
        let parts = comma_parts_str(values_str);
        let ghost all = comma_parts(values_str@);
        let mut kept: Vec<String> = Vec::new();
        let mut i: usize = 0;
        while i < parts.len()
            invariant
                i <= parts@.len(),
                texts(parts@) == all,
                all == comma_parts(values_str@),
                texts(kept@) == keep_nonempty(all.take(i as int)),
            decreases parts@.len() - i,
        {
            assert(texts(parts@)[i as int] == parts@[i as int]@);
            assert(all.take(i + 1).drop_last() =~= all.take(i as int));
            if !parts[i].as_str().is_empty() {
                let ghost before = texts(kept@);
                kept.push(parts[i].clone());
                assert(texts(kept@) =~= before.push(parts@[i as int]@));
            }
            i = i + 1;
        }
        assert(all.take(i as int) =~= all);
        match HeaderValue::parse_vec(kept) {
            Ok(v) => Some(v),
            Err(_) => None,
        }
    }

    /// The given values unchanged, if each is accepted by
    /// [`HEADER_VALUE_PATTERN`]; otherwise they are handed back.
    pub fn parse_vec(values: Vec<String>) -> (r: Result<Self, Vec<String>>)
        ensures
            r is Ok <==> all_field_texts(texts(values@)),
            r matches Ok(v) ==> v@ == texts(values@),
            r matches Err(v) ==> texts(v@) == texts(values@),
    {
        let mut i: usize = 0;
        while i < values.len()
            invariant
                i <= values@.len(),
                forall|j: int| 0 <= j < i ==> is_field_text(#[trigger] texts(values@)[j]),
            decreases values@.len() - i,
        {
            if !HeaderValue::validate_one(values[i].as_str()) {
                assert(!is_field_text(texts(values@)[i as int]));
                return Err(values);
            }
            i = i + 1;
        }
        Ok(HeaderValue(values))
    }

    /// [`HeaderValue::parse`], with the refused input kept in the error.
    pub fn from_str(values_str: &str) -> (r: Result<Self, GimbapError>)
        ensures
            r is Ok <==> all_field_texts(header_values_of(values_str@)),
            r matches Ok(v) ==> v@ == header_values_of(values_str@),
            r matches Err(e) ==> e matches GimbapError::ParseError(
                GimbapParseError::HeaderValue(ParseSource::Text(t)),
            ) && t@ == values_str@,
    {
        match HeaderValue::parse(values_str) {
            Some(v) => Ok(v),
            None => Err(
                GimbapError::ParseError(
                    GimbapParseError::HeaderValue(ParseSource::Text(values_str.to_owned())),
                ),
            ),
        }
    }

    /// [`HeaderValue::parse_vec`], with the refused values kept in the error.
    pub fn try_from_vec(values: Vec<String>) -> (r: Result<Self, GimbapError>)
        ensures
            r is Ok <==> all_field_texts(texts(values@)),
            r matches Ok(v) ==> v@ == texts(values@),
            r matches Err(e) ==> e matches GimbapError::ParseError(
                GimbapParseError::HeaderValue(ParseSource::Values(v)),
            ) && texts(v@) == texts(values@),
    {
        match HeaderValue::parse_vec(values) {
            Ok(v) => Ok(v),
            Err(v) => Err(GimbapError::ParseError(GimbapParseError::HeaderValue(ParseSource::Values(v)))),
        }
    }

    /// Appends each given text, trimmed.
    pub fn extend(&mut self, values: HeaderValue)
        ensures
            final(self)@ == old(self)@ + values@.map_values(|v: Seq<char>| trim(v)),
    {
        let mut i: usize = 0;
        let ghost start = self@;
        while i < values.0.len()
            invariant
                i <= values.0@.len(),
                self@ == start + texts(values.0@).take(i as int).map_values(|v: Seq<char>| trim(v)),
            decreases values.0@.len() - i,
        {
            let t = HeaderValue::normalize_one(values.0[i].as_str());
            let ghost before = self@;
            self.0.push(t);
            assert(self@ =~= before.push(t@));
            assert(texts(values.0@).take(i + 1).map_values(|v: Seq<char>| trim(v)) =~= texts(
                values.0@,
            ).take(i as int).map_values(|v: Seq<char>| trim(v)).push(trim(values.0@[i as int]@)));
            i = i + 1;
        }
        assert(texts(values.0@).take(i as int) =~= texts(values.0@));
    }

    /// The stored texts.
    pub fn values(&self) -> (r: &Vec<String>)
        ensures
            texts(r@) == self@,
    {
        &self.0
    }

    fn normalize_one(value: &str) -> (r: String)
        ensures
            r@ == trim(value@),
    {
        trim_str(value)
    }

    fn validate_one(value: &str) -> (r: bool)
        ensures
            r == is_field_text(value@),
    {
        match regex_is_match(HEADER_VALUE_PATTERN, value) {
            Some(b) => b,
            None => false,
        }
    }
}

impl core::str::FromStr for HeaderValue {
    type Err = GimbapError;

    fn from_str(values_str: &str) -> (r: Result<Self, GimbapError>)
        ensures
            r is Ok <==> all_field_texts(header_values_of(values_str@)),
            r matches Ok(v) ==> v@ == header_values_of(values_str@),
    {
        HeaderValue::from_str(values_str)
    }
}

impl TryFrom<Vec<String>> for HeaderValue {
    type Error = GimbapError;

    fn try_from(values: Vec<String>) -> (r: Result<Self, GimbapError>)
        ensures
            r is Ok <==> all_field_texts(texts(values@)),
            r matches Ok(v) ==> v@ == texts(values@),
    {
        HeaderValue::try_from_vec(values)
    }
}

impl vstd::std_specs::convert::TryFromSpecImpl<Vec<String>> for HeaderValue {
    open spec fn obeys_try_from_spec() -> bool {
        false
    }

    open spec fn try_from_spec(v: Vec<String>) -> Result<Self, GimbapError> {
        arbitrary()
    }
}

impl<'a> vstd::std_specs::convert::TryFromSpecImpl<&'a str> for HeaderValue {
    open spec fn obeys_try_from_spec() -> bool {
        false
    }

    open spec fn try_from_spec(v: &'a str) -> Result<Self, GimbapError> {
        arbitrary()
    }
}

impl<'a> TryFrom<&'a str> for HeaderValue {
    type Error = GimbapError;

    fn try_from(values: &'a str) -> (r: Result<Self, GimbapError>)
        ensures
            r is Ok <==> all_field_texts(header_values_of(values@)),
            r matches Ok(v) ==> v@ == header_values_of(values@),
    {
        HeaderValue::from_str(values)
    }
}

// ---------------------------------------------------------------------------
// Header maps
// ---------------------------------------------------------------------------

/// The values held under `key`, or none.
pub open spec fn values_under(m: Map<Seq<char>, Seq<Seq<char>>>, key: Seq<char>) -> Seq<Seq<char>> {
    if m.contains_key(key) {
        m[key]
    } else {
        Seq::<Seq<char>>::empty()
    }
}

/// An `accept` value: non-empty, and each comma-separated part, trimmed, is a
/// media type `mime` parses.
pub open spec fn accept_ok(value: Seq<char>) -> bool {
    &&& value.len() > 0
    &&& forall|i: int|
        0 <= i < comma_parts(value).len() ==> #[trigger] mime_parse_result(comma_parts(value)[i]) is Ok
}

/// An `authorization` value: accepted by [`AUTHORIZATION_PATTERN`].
pub open spec fn authorization_ok(value: Seq<char>) -> bool {
    regex_match_result(AUTHORIZATION_PATTERN@, value) == Some(true)
}

/// What [`Headers::is_special_valid`] accepts.
pub open spec fn special_value_ok(key: Seq<char>, value: Seq<char>) -> bool {
    if key == "authorization"@ {
        authorization_ok(value)
    } else if key == "accept"@ {
        accept_ok(value)
    } else if key == "content-length"@ {
        parse_u64(value) is Ok
    } else {
        true
    }
}

/// Decides [`authorization_ok`].
pub fn authorization_valid(value: &str) -> (r: bool)
    ensures
        r == authorization_ok(value@),
{
    match regex_is_match(AUTHORIZATION_PATTERN, value) {
        Some(b) => b,
        None => false,
    }
}

/// Decides [`accept_ok`].
pub fn accept_valid(value: &str) -> (r: bool)
    ensures
        r == accept_ok(value@),
{
    if value.is_empty() {
        return false;
    }
    let parts = comma_parts_str(value);
    let mut i: usize = 0;
    while i < parts.len()
        invariant
            i <= parts@.len(),
            texts(parts@) == comma_parts(value@),
            forall|j: int| 0 <= j < i ==> #[trigger] mime_parse_result(comma_parts(value@)[j]) is Ok,
        decreases parts@.len() - i,
    {
        assert(texts(parts@)[i as int] == parts@[i as int]@);
        if mime_parse(parts[i].as_str()).is_err() {
            assert(mime_parse_result(comma_parts(value@)[i as int]) is Err);
            return false;
        }
        i = i + 1;
    }
    true
}

impl crate::map::SameValue for HeaderValue {
    fn same_value(&self, other: &Self) -> (r: bool) {
        strings_equal(&self.0, &other.0)
    }
}

/// Header names mapped to their values.
#[derive(Debug)]
pub struct Headers(StrMap<HeaderValue>);

impl View for Headers {
    type V = Map<Seq<char>, Seq<Seq<char>>>;

    closed spec fn view(&self) -> Map<Seq<char>, Seq<Seq<char>>> {
        self.0@
    }
}

impl Default for Headers {
    fn default() -> (r: Self)
        ensures
            r@ == Map::<Seq<char>, Seq<Seq<char>>>::empty(),
    {
        Headers(StrMap::new())
    }
}

impl PartialEq for Headers {
    fn eq(&self, other: &Self) -> (r: bool) {
        self.0.equals(&other.0)
    }
}

impl vstd::std_specs::cmp::PartialEqSpecImpl for Headers {
    open spec fn obeys_eq_spec() -> bool {
        true
    }

    open spec fn eq_spec(&self, other: &Self) -> bool {
        self@ == other@
    }
}

impl Headers {
    /// The values under the name `key` (trimmed and lowercased first).
    pub fn get_str(&self, key: &str) -> (r: Option<&HeaderValue>)
        ensures
            r is Some <==> self@.contains_key(normalize_name(key@)),
            r matches Some(v) ==> v@ == self@[normalize_name(key@)],
    {
        let name = HeaderName::new(key);
        self.0.get(name.0.as_str())
    }

    /// The values under the name `key`, as stored.
    pub fn get(&self, key: &HeaderName) -> (r: Option<&HeaderValue>)
        ensures
            r is Some <==> self@.contains_key(key@),
            r matches Some(v) ==> v@ == self@[key@],
    {
        self.0.get(key.as_str())
    }

    /// Whether values are held under the name `key`.
    pub fn contains_key(&self, key: &HeaderName) -> (r: bool)
        ensures
            r == self@.contains_key(key@),
    {
        self.0.contains_key(key.as_str())
    }

    /// The number of header names held.
    pub fn len(&self) -> (r: usize)
        ensures
            r == self@.dom().len(),
    {
        self.0.len()
    }

    /// Whether no header is held.
    pub fn is_empty(&self) -> (r: bool)
        ensures
            r == (self@.dom().len() == 0),
    {
        self.0.len() == 0
    }

    /// The header names held, each once.
    pub fn names(&self) -> (r: Vec<String>)
        ensures
            r@.map_values(|k: String| k@).no_duplicates(),
            r@.map_values(|k: String| k@).to_set() == self@.dom(),
            r@.len() == self@.dom().len(),
    {
        self.0.keys()
    }

    /// Appends `values`, each trimmed, to those held under `key`.
    pub fn append(&mut self, key: HeaderName, values: HeaderValue)
        ensures
            final(self)@ == old(self)@.insert(
                key@,
                values_under(old(self)@, key@) + values@.map_values(|v: Seq<char>| trim(v)),
            ),
    {
        let mut current = match self.0.remove(key.0.as_str()) {
            Some(v) => v,
            None => {
                let empty = HeaderValue(Vec::new());
                assert(empty@ =~= Seq::<Seq<char>>::empty());
                empty
            },
        };
        current.extend(values);
        self.0.insert(key.0, current);
        assert(old(self)@.remove(key@).insert(key@, current@) =~= old(self)@.insert(key@, current@));
    }

    /// Checks the values of a few headers: `authorization` against
    /// [`AUTHORIZATION_PATTERN`], `accept` as media types, `content-length` as a
    /// `u64`; any other header is accepted.
    pub fn is_special_valid(key: &HeaderName, value: &str) -> (r: bool)
        ensures
            r == special_value_ok(key@, value@),
    {
        if text_eq(key.as_str(), "authorization") {
            authorization_valid(value)
        } else if text_eq(key.as_str(), "accept") {
            accept_valid(value)
        } else if text_eq(key.as_str(), "content-length") {
            parse_u64_str(value).is_ok()
        } else {
            true
        }
    }
}

// ---------------------------------------------------------------------------
// Status codes
// ---------------------------------------------------------------------------

/// A status code between 100 and 999.
pub struct StatusCode(u16);

/// A number outside 100..=999 was given as a status code.
#[derive(Debug)]
pub struct InvalidStatusCode;

impl View for StatusCode {
    type V = u16;

    closed spec fn view(&self) -> u16 {
        self.0
    }
}

impl Default for StatusCode {
    fn default() -> (r: Self)
        ensures
            r@ == 200,
    {
        StatusCode(200)
    }
}

impl StatusCode {
    /// Every status code lies in 100..=999.
    #[verifier::type_invariant]
    spec fn in_range(self) -> bool {
        100 <= self.0 <= 999
    }

    /// The status code `code`, if it lies in 100..=999.
    pub fn from_u16(code: u16) -> (r: Result<StatusCode, InvalidStatusCode>)
        ensures
            r is Ok <==> 100 <= code <= 999,
            r matches Ok(s) ==> s@ == code,
    {
        if 100 <= code && code <= 999 {
            Ok(StatusCode(code))
        } else {
            Err(InvalidStatusCode)
        }
    }

    /// The code as a number.
    pub fn as_u16(&self) -> (r: u16)
        ensures
            r == self@,
            100 <= r <= 999,
    {
        proof {
            use_type_invariant(self);
        }
        self.0
    }

    /// 200 OK.
    pub fn ok() -> (r: StatusCode)
        ensures
            r@ == 200,
    {
        StatusCode(200)
    }

    /// 404 Not Found.
    pub fn not_found() -> (r: StatusCode)
        ensures
            r@ == 404,
    {
        StatusCode(404)
    }

    /// 405 Method Not Allowed.
    pub fn method_not_allowed() -> (r: StatusCode)
        ensures
            r@ == 405,
    {
        StatusCode(405)
    }

    /// 500 Internal Server Error.
    pub fn internal_server_error() -> (r: StatusCode)
        ensures
            r@ == 500,
    {
        StatusCode(500)
    }
}

// ---------------------------------------------------------------------------
// Methods
// ---------------------------------------------------------------------------

/// A request method.
#[derive(Debug, Eq)]
pub enum HttpMethod {
    GET,
    HEAD,
    POST,
    PUT,
    DELETE,
    CONNECT,
    TRACE,
    PATCH,
    Other(String),
}

/// Two methods are the same variant, and for `Other` the same text.
pub open spec fn same_method(a: HttpMethod, b: HttpMethod) -> bool {
    match a {
        HttpMethod::Other(x) => match b {
            HttpMethod::Other(y) => x@ == y@,
            _ => false,
        },
        _ => a == b,
    }
}

/// `m` is the method named by `s`: one of the eight standard names, matched
/// exactly, or `Other` holding `s`.
pub open spec fn is_method_of(s: Seq<char>, m: HttpMethod) -> bool {
    match m {
        HttpMethod::GET => s == "GET"@,
        HttpMethod::HEAD => s == "HEAD"@,
        HttpMethod::POST => s == "POST"@,
        HttpMethod::PUT => s == "PUT"@,
        HttpMethod::DELETE => s == "DELETE"@,
        HttpMethod::CONNECT => s == "CONNECT"@,
        HttpMethod::TRACE => s == "TRACE"@,
        HttpMethod::PATCH => s == "PATCH"@,
        HttpMethod::Other(t) => t@ == s && s != "GET"@ && s != "HEAD"@ && s != "POST"@ && s
            != "PUT"@ && s != "DELETE"@ && s != "CONNECT"@ && s != "TRACE"@ && s != "PATCH"@,
    }
}

impl PartialEq for HttpMethod {
    fn eq(&self, other: &Self) -> (r: bool) {
        match (self, other) {
            (HttpMethod::GET, HttpMethod::GET) => true,
            (HttpMethod::HEAD, HttpMethod::HEAD) => true,
            (HttpMethod::POST, HttpMethod::POST) => true,
            (HttpMethod::PUT, HttpMethod::PUT) => true,
            (HttpMethod::DELETE, HttpMethod::DELETE) => true,
            (HttpMethod::CONNECT, HttpMethod::CONNECT) => true,
            (HttpMethod::TRACE, HttpMethod::TRACE) => true,
            (HttpMethod::PATCH, HttpMethod::PATCH) => true,
            (HttpMethod::Other(x), HttpMethod::Other(y)) => *x == *y,
            _ => false,
        }
    }
}

impl vstd::std_specs::cmp::PartialEqSpecImpl for HttpMethod {
    open spec fn obeys_eq_spec() -> bool {
        true
    }

    open spec fn eq_spec(&self, other: &Self) -> bool {
        same_method(*self, *other)
    }
}

impl Clone for HttpMethod {
    fn clone(&self) -> (r: Self)
        ensures
            r == *self,
    {
        match self {
            HttpMethod::GET => HttpMethod::GET,
            HttpMethod::HEAD => HttpMethod::HEAD,
            HttpMethod::POST => HttpMethod::POST,
            HttpMethod::PUT => HttpMethod::PUT,
            HttpMethod::DELETE => HttpMethod::DELETE,
            HttpMethod::CONNECT => HttpMethod::CONNECT,
            HttpMethod::TRACE => HttpMethod::TRACE,
            HttpMethod::PATCH => HttpMethod::PATCH,
            HttpMethod::Other(s) => HttpMethod::Other(s.clone()),
        }
    }
}

impl HttpMethod {
    /// The method named by `method`; names other than the eight standard ones,
    /// compared exactly, become `Other`.
    pub fn from_name(method: &str) -> (r: HttpMethod)
        ensures
            is_method_of(method@, r),
    {
        if text_eq(method, "GET") {
            HttpMethod::GET
        } else if text_eq(method, "HEAD") {
            HttpMethod::HEAD
        } else if text_eq(method, "POST") {
            HttpMethod::POST
        } else if text_eq(method, "PUT") {
            HttpMethod::PUT
        } else if text_eq(method, "DELETE") {
            HttpMethod::DELETE
        } else if text_eq(method, "CONNECT") {
            HttpMethod::CONNECT
        } else if text_eq(method, "TRACE") {
            HttpMethod::TRACE
        } else if text_eq(method, "PATCH") {
            HttpMethod::PATCH
        } else {
            HttpMethod::Other(method.to_owned())
        }
    }
}

impl core::str::FromStr for HttpMethod {
    type Err = core::convert::Infallible;

    fn from_str(method: &str) -> (parsed: Result<Self, Self::Err>)
        ensures
            match parsed {
                Ok(m) => is_method_of(method@, m),
                Err(_) => false,
            },
    {
        Ok(HttpMethod::from_name(method))
    }
}

// ---------------------------------------------------------------------------
// Media types and body data
// ---------------------------------------------------------------------------

/// A media type as `mime` parsed it: its text and its essence (`type/subtype`).
#[derive(Debug)]
pub struct MediaType {
    text: String,
    essence: String,
}

impl View for MediaType {
    type V = (Seq<char>, Seq<char>);

    closed spec fn view(&self) -> (Seq<char>, Seq<char>) {
        (self.text@, self.essence@)
    }
}

impl Clone for MediaType {
    fn clone(&self) -> (r: Self)
        ensures
            r@ == self@,
    {
        MediaType { text: self.text.clone(), essence: self.essence.clone() }
    }
}

impl MediaType {
    /// Parses `s` with `mime`; the error holds `mime`'s message.
    pub fn parse(s: &str) -> (r: Result<MediaType, String>)
        ensures
            match r {
                Ok(m) => mime_parse_result(s@) == Ok::<(Seq<char>, Seq<char>), Seq<char>>(m@),
                Err(e) => mime_parse_result(s@) == Err::<(Seq<char>, Seq<char>), Seq<char>>(e@),
            },
    {
        match mime_parse(s) {
            Ok((text, essence)) => Ok(MediaType { text, essence }),
            Err(e) => Err(e),
        }
    }

    /// The media type's text.
    pub fn as_str(&self) -> (r: &str)
        ensures
            r@ == self@.0,
    {
        self.text.as_str()
    }

    /// The media type's essence, `type/subtype`.
    pub fn essence_str(&self) -> (r: &str)
        ensures
            r@ == self@.1,
    {
        self.essence.as_str()
    }
}

/// A decoded body.
#[derive(Debug)]
pub enum BodyData {
    Json(serde_json::Value),
    FormData(StrMap<FormDataValue>),
    Text(String),
    Other { content_type: Option<MediaType>, data: Vec<u8> },
    Empty,
}

/// A field of a form: text, or an uploaded file.
#[derive(Debug)]
pub enum FormDataValue {
    Text(String),
    File { filename: String, content_type: String, data: Vec<u8> },
}

// ---------------------------------------------------------------------------
// Laws
// ---------------------------------------------------------------------------

/// Each value [`HeaderValue::parse`] reads is non-empty and already trimmed,
/// so trimming it again (as [`Headers::append`] does) leaves it unchanged.
pub proof fn law_parsed_values_are_trimmed(s: Seq<char>)
    ensures
        forall|i: int|
            0 <= i < header_values_of(s).len() ==> (#[trigger] header_values_of(s)[i]).len() > 0
                && trim(header_values_of(s)[i]) == header_values_of(s)[i],
        header_values_of(s).map_values(|v: Seq<char>| trim(v)) == header_values_of(s),
{
    let parts = comma_parts(s);
    let vals = header_values_of(s);
    lemma_keep_nonempty(parts);
    assert forall|i: int| 0 <= i < vals.len() implies (#[trigger] vals[i]).len() > 0 && trim(vals[i])
        == vals[i] by {
        let j = choose|j: int| 0 <= j < parts.len() && parts[j] == vals[i];
        lemma_trim_idempotent(split(s, ',')[j]);
    }
    assert(vals.map_values(|v: Seq<char>| trim(v)) =~= vals);
}

/// Trimming a text the value pattern accepts gives a text it accepts.
pub proof fn lemma_trim_keeps_field_text(v: Seq<char>)
    requires
        is_field_text(v),
    ensures
        is_field_text(trim(v)),
{
    let a = lemma_trim_piece(v);
    let t = trim(v);
    assert forall|i: int| 0 <= i < t.len() implies is_field_char(#[trigger] t[i]) by {
        assert(t[i] == v[a + i]);
    }
}

} // verus!
