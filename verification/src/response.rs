//! Building a response: status, headers and body.
use vstd::prelude::*;
use crate::bindings::{is_field_char, is_token, is_token_char};
use crate::bindings::is_field_text;
use crate::common::{
    all_field_texts, header_values_of, law_parsed_values_are_trimmed, lemma_trim_keeps_field_text,
    normalize_name, values_under, HeaderName, HeaderValue, Headers, InvalidStatusCode, StatusCode,
};
use crate::text::{lemma_remove_absent, remove_char, remove_char_str, trim};

verus! {

/// `input` with every `\r` and `\n` removed.
pub open spec fn sanitized(input: Seq<char>) -> Seq<char> {
    remove_char(remove_char(input, '\r'), '\n')
}

/// The headers after [`Response::header`] with `key` and `value`: when the
/// sanitized key is a valid name and the sanitized value's parts are all valid,
/// those parts are appended under the name; otherwise nothing changes.
pub open spec fn with_header(
    headers: Map<Seq<char>, Seq<Seq<char>>>,
    key: Seq<char>,
    value: Seq<char>,
) -> Map<Seq<char>, Seq<Seq<char>>> {
    let name = normalize_name(sanitized(key));
    let values = header_values_of(sanitized(value));
    if is_token(name) && all_field_texts(values) {
        headers.insert(name, values_under(headers, name) + values.map_values(|v: Seq<char>| trim(v)))
    } else {
        headers
    }
}

/// A response under construction.
pub struct Response {
    pub status_code: StatusCode,
    pub headers: Headers,
    pub body: Option<Vec<u8>>,
}

/// The body's bytes, if there is a body.
pub open spec fn body_bytes(body: Option<Vec<u8>>) -> Option<Seq<u8>> {
    match body {
        Some(b) => Some(b@),
        None => None,
    }
}

impl View for Response {
    /// Status code, headers, body: the views of the three fields.
    type V = (u16, Map<Seq<char>, Seq<Seq<char>>>, Option<Seq<u8>>);

    open spec fn view(&self) -> (u16, Map<Seq<char>, Seq<Seq<char>>>, Option<Seq<u8>>) {
        (self.status_code@, self.headers@, body_bytes(self.body))
    }
}

impl Default for Response {
    fn default() -> (r: Self)
        ensures
            r@ == (200u16, Map::<Seq<char>, Seq<Seq<char>>>::empty(), None::<Seq<u8>>),
    {
        Self::new()
    }
}

impl Response {
    /// Status 200, no headers, no body.
    pub fn new() -> (r: Self)
        ensures
            r@ == (200u16, Map::<Seq<char>, Seq<Seq<char>>>::empty(), None::<Seq<u8>>),
    {
        Response { status_code: StatusCode::ok(), headers: Headers::default(), body: None }
    }

    /// The body, if one was sent.
    pub fn body(&self) -> (r: Option<&[u8]>)
        ensures
            match r {
                Some(b) => self@.2 == Some(b@),
                None => self@.2 is None,
            },
    {
        match &self.body {
            Some(b) => Some(b.as_slice()),
            None => None,
        }
    }

    /// The status code.
    pub fn status_code(&self) -> (r: u16)
        ensures
            r == self@.0,
    {
        self.status_code.as_u16()
    }

    /// Sets the status code, if it lies in 100..=999; otherwise leaves the
    /// response as it was and reports the error.
    pub fn status(&mut self, code: u16) -> (r: Result<&mut Self, InvalidStatusCode>)
        ensures
            r is Ok <==> 100 <= code <= 999,
            match r {
                Ok(s) => s@ == (code, old(self)@.1, old(self)@.2) && *final(self) == *final(s),
                Err(_) => *final(self) == *old(self),
            },
    {
        match StatusCode::from_u16(code) {
            Ok(status) => {
                self.status_code = status;
                Ok(self)
            },
            Err(e) => Err(e),
        }
    }

    /// Sets the body to a copy of `body`.
    pub fn send(&mut self, body: &[u8]) -> (r: &mut Self)
        ensures
            r@ == (old(self)@.0, old(self)@.1, Some(body@)),
            *final(self) == *final(r),
    {
        self.body = Some(vstd::slice::slice_to_vec(body));
        self
    }

    /// Sends `json` (already serialized) as the body, labelled
    /// `content-type: application/json`.
    pub fn send_json(&mut self, json: &[u8]) -> (r: &mut Self)
        ensures
            r@ == (
                old(self)@.0,
                with_header(old(self)@.1, "content-type"@, "application/json"@),
                Some(json@),
            ),
            *final(self) == *final(r),
    {
        self.header("content-type", "application/json");
        self.send(json)
    }

    /// `input` with `\r` and `\n` removed.
    fn sanitize(input: &str) -> (r: String)
        ensures
            r@ == sanitized(input@),
    {
        let without_cr = remove_char_str(input, '\r');
        remove_char_str(without_cr.as_str(), '\n')
    }

    /// Adds a header: key and value have `\r` and `\n` removed, then must parse as
    /// a header name and header value; if either does not, nothing changes.
    pub fn header(&mut self, key: &str, value: &str) -> (r: &mut Self)
        ensures
            r@ == (old(self)@.0, with_header(old(self)@.1, key@, value@), old(self)@.2),
            *final(self) == *final(r),
    {
        let k = Self::sanitize(key);
        let v = Self::sanitize(value);
        match (HeaderName::from_str(k.as_str()), HeaderValue::from_str(v.as_str())) {
            (Ok(name), Ok(values)) => {
                self.headers.append(name, values);
            },
            _ => {},
        }
        self
    }
}

// ---------------------------------------------------------------------------
// Laws
// ---------------------------------------------------------------------------

/// Every header name is a token and every value is accepted by the value
/// pattern (so no value holds `\r` or `\n`).
pub open spec fn headers_valid(h: Map<Seq<char>, Seq<Seq<char>>>) -> bool {
    forall|k: Seq<char>| #[trigger] h.contains_key(k) ==> is_token(k) && all_field_texts(h[k])
}

/// A response's headers start valid, and [`Response::header`] keeps them
/// valid whatever it is given: what cannot be sanitized into a valid name and
/// valid values is refused.
pub proof fn law_header_keeps_headers_valid(h: Map<Seq<char>, Seq<Seq<char>>>, key: Seq<char>, value: Seq<char>)
    requires
        headers_valid(h),
    ensures
        headers_valid(with_header(h, key, value)),
        headers_valid(Map::<Seq<char>, Seq<Seq<char>>>::empty()),
{
    let name = normalize_name(sanitized(key));
    let values = header_values_of(sanitized(value));
    if is_token(name) && all_field_texts(values) {
        let added = values.map_values(|v: Seq<char>| trim(v));
        let stored = values_under(h, name) + added;
        assert forall|i: int| 0 <= i < stored.len() implies is_field_text(#[trigger] stored[i]) by {
            if i >= values_under(h, name).len() {
                lemma_trim_keeps_field_text(values[i - values_under(h, name).len()]);
            }
        }
    }
}

/// Valid headers hold no line break: no name and no value contains `\r` or
/// `\n`, so what [`Response::header`] stores cannot split a header line.
pub proof fn law_valid_headers_hold_no_line_breaks(h: Map<Seq<char>, Seq<Seq<char>>>)
    requires
        headers_valid(h),
    ensures
        forall|k: Seq<char>| #[trigger] h.contains_key(k) ==> !k.contains('\r') && !k.contains('\n'),
        forall|k: Seq<char>, i: int|
            h.contains_key(k) && 0 <= i < h[k].len() ==> !(#[trigger] h[k][i]).contains('\r')
                && !h[k][i].contains('\n'),
{
    assert forall|k: Seq<char>| #[trigger] h.contains_key(k) implies !k.contains('\r') && !k.contains('\n') by {
        if k.contains('\r') || k.contains('\n') {
            let j = choose|j: int| 0 <= j < k.len() && (k[j] == '\r' || k[j] == '\n');
            assert(is_token_char(k[j]));
        }
    }
    assert forall|k: Seq<char>, i: int|
        h.contains_key(k) && 0 <= i < h[k].len() implies !(#[trigger] h[k][i]).contains('\r')
            && !h[k][i].contains('\n') by {
        let v = h[k][i];
        assert(is_field_text(v));
        if v.contains('\r') || v.contains('\n') {
            let j = choose|j: int| 0 <= j < v.len() && (v[j] == '\r' || v[j] == '\n');
            assert(is_field_char(v[j]));
        }
    }
}

/// Read after write: after [`Response::header`] with a name free of `\r` and
/// `\n` that parses, and values that parse, looking the same name up with
/// [`Headers::get_str`] gives the earlier values followed by exactly the
/// parsed values.
pub proof fn law_header_then_get_str(h: Map<Seq<char>, Seq<Seq<char>>>, key: Seq<char>, value: Seq<char>)
    requires
        !key.contains('\r'),
        !key.contains('\n'),
        is_token(normalize_name(key)),
        all_field_texts(header_values_of(sanitized(value))),
    ensures
        with_header(h, key, value).contains_key(normalize_name(key)),
        with_header(h, key, value)[normalize_name(key)] == values_under(h, normalize_name(key))
            + header_values_of(sanitized(value)),
{
    lemma_remove_absent(key, '\r');
    lemma_remove_absent(key, '\n');
    assert(sanitized(key) == key);
    law_parsed_values_are_trimmed(sanitized(value));
}

} // verus!
