//! Parsing a request: the request line, the header lines, and the body once
//! its bytes have been read.
use vstd::prelude::*;
use crate::bindings::{
    host_parse, host_parse_result, is_field_text, is_token, mime_parse_result, optional_texts,
    regex_captures, request_line_groups, url_parse, url_parse_result, REQUEST_LINE_PATTERN,
    HEADER_VALUE_PATTERN,
};
use crate::common::{
    accept_ok, accept_valid, authorization_ok, authorization_valid, is_method_of,
    normalize_name, values_under, MediaType,
};
use crate::map::StrMap;
use vstd::utf8::{decode_utf8, encode_utf8, is_char_boundary, valid_utf8};
use vstd::string::StringSliceAdditionalSpecFns;
use crate::text::{
    comma_parts, comma_parts_str, concat, find_seq, find_subslice, is_first_occurrence, occurs_at,
    lemma_comma_parts_nonempty, lines, lines_str, parse_u64, parse_u64_str, replace_all,
    replace_str, split, split_once, split_once_str, split_str, text_eq, texts, trim,
    trim_char, trim_char_str, trim_str, IntErrorKind,
};

pub use crate::common::HttpMethod;

verus! {

/// The largest body read when the length is not given: 10 MiB.
pub const MAX_BODY_SIZE: u64 = 10485760;

// ---------------------------------------------------------------------------
// Versions, lengths, encodings
// ---------------------------------------------------------------------------

/// The protocol version; only HTTP/1.1 is supported.
#[derive(Debug, PartialEq, Eq, Clone, Copy)]
pub enum HttpVersion {
    V1_1,
}

impl HttpVersion {
    /// The version named `HTTP/1.1`.
    fn from_str(version: &str) -> (r: Self)
        requires
            version@ == "HTTP/1.1"@,
        ensures
            r == HttpVersion::V1_1,
    {
        HttpVersion::V1_1
    }
}

/// How long the body is: a fixed number of bytes, or chunked.
#[derive(Clone, Copy, Debug, PartialEq, Eq)]
pub enum ContentLength {
    Fixed(u64),
    Chunked,
}

/// A content coding named in `content-encoding`.
#[derive(Clone, Debug, Copy, PartialEq, Eq, Hash)]
pub enum ContentEncoding {
    Gzip,
    Compress,
    Deflate,
    Br,
    Zstd,
    /// Dictionary-Compressed Brotli
    Dcb,
    /// Dictionary-Compressed Zstd
    Dcz,
}

/// The coding named exactly by `s`, if any.
pub open spec fn encoding_named(s: Seq<char>) -> Option<ContentEncoding> {
    if s == "gzip"@ {
        Some(ContentEncoding::Gzip)
    } else if s == "compress"@ {
        Some(ContentEncoding::Compress)
    } else if s == "deflate"@ {
        Some(ContentEncoding::Deflate)
    } else if s == "br"@ {
        Some(ContentEncoding::Br)
    } else if s == "zstd"@ {
        Some(ContentEncoding::Zstd)
    } else if s == "dcb"@ {
        Some(ContentEncoding::Dcb)
    } else if s == "dcz"@ {
        Some(ContentEncoding::Dcz)
    } else {
        None
    }
}

impl ContentEncoding {
    /// The coding named exactly by `encoding`; otherwise the message
    /// `Unknown content encoding: <encoding>`.
    pub fn from_str(encoding: &str) -> (r: Result<Self, String>)
        ensures
            match r {
                Ok(e) => encoding_named(encoding@) == Some(e),
                Err(m) => encoding_named(encoding@) is None && m@ == "Unknown content encoding: "@
                    + encoding@,
            },
    {
        if text_eq(encoding, "gzip") {
            Ok(ContentEncoding::Gzip)
        } else if text_eq(encoding, "compress") {
            Ok(ContentEncoding::Compress)
        } else if text_eq(encoding, "deflate") {
            Ok(ContentEncoding::Deflate)
        } else if text_eq(encoding, "br") {
            Ok(ContentEncoding::Br)
        } else if text_eq(encoding, "zstd") {
            Ok(ContentEncoding::Zstd)
        } else if text_eq(encoding, "dcb") {
            Ok(ContentEncoding::Dcb)
        } else if text_eq(encoding, "dcz") {
            Ok(ContentEncoding::Dcz)
        } else {
            Err(concat("Unknown content encoding: ", encoding))
        }
    }
}

/// The variant's name, as `{:?}` shows it.
pub open spec fn encoding_debug_name(e: ContentEncoding) -> Seq<char> {
    match e {
        ContentEncoding::Gzip => "Gzip"@,
        ContentEncoding::Compress => "Compress"@,
        ContentEncoding::Deflate => "Deflate"@,
        ContentEncoding::Br => "Br"@,
        ContentEncoding::Zstd => "Zstd"@,
        ContentEncoding::Dcb => "Dcb"@,
        ContentEncoding::Dcz => "Dcz"@,
    }
}

impl ContentEncoding {
    /// The variant's name, as `{:?}` shows it.
    pub fn debug_name(&self) -> (r: String)
        ensures
            r@ == encoding_debug_name(*self),
    {
        match self {
            ContentEncoding::Gzip => "Gzip".to_owned(),
            ContentEncoding::Compress => "Compress".to_owned(),
            ContentEncoding::Deflate => "Deflate".to_owned(),
            ContentEncoding::Br => "Br".to_owned(),
            ContentEncoding::Zstd => "Zstd".to_owned(),
            ContentEncoding::Dcb => "Dcb".to_owned(),
            ContentEncoding::Dcz => "Dcz".to_owned(),
        }
    }
}

impl core::str::FromStr for ContentEncoding {
    type Err = String;

    fn from_str(encoding: &str) -> (r: Result<Self, String>)
        ensures
            match r {
                Ok(e) => encoding_named(encoding@) == Some(e),
                Err(m) => encoding_named(encoding@) is None && m@ == "Unknown content encoding: "@
                    + encoding@,
            },
    {
        ContentEncoding::from_str(encoding)
    }
}

// ---------------------------------------------------------------------------
// Errors
// ---------------------------------------------------------------------------

/// A builder field that a header never set.
#[derive(Debug, Clone, Copy, PartialEq, Eq)]
pub enum MissingField {
    Host,
    ContentType,
    ContentLength,
}

/// Why a request could not be parsed.
#[derive(Debug)]
pub enum RequestError {
    /// The stream ended before the request line.
    UnexpectedEnd,
    /// The request line does not have the form `METHOD target HTTP/x.y`.
    InvalidRequestLine,
    /// `host` did not parse; `url`'s message.
    InvalidHost(String),
    /// `content-type` did not parse; `mime`'s message.
    InvalidContentType(String),
    /// `content-length` is not a `u64`.
    InvalidContentLength(IntErrorKind),
    /// A `transfer-encoding` other than `chunked`.
    UnsupportedTransferEncoding(String),
    /// A `content-encoding` that is not known; the full message.
    UnknownContentEncoding(String),
    /// A required field was never given.
    MissingField(MissingField),
    /// A content coding that cannot be decoded yet.
    UnsupportedEncoding(ContentEncoding),
    /// A form field without `=`.
    InvalidFormData,
    /// A multipart body without a `boundary` header.
    MissingBoundary,
    /// A multipart body that ends without the closing boundary.
    MissingEndBoundary,
    /// A multipart part without the blank line between headers and body.
    MissingSeparator,
    /// A multipart part whose `Content-Disposition` gives no `name`.
    MissingName,
    /// Bytes that are not UTF-8; std's message.
    InvalidUtf8(String),
    /// A text body that is not UTF-8.
    InvalidUtf8Stream,
}

/// [`RequestError`] with its texts as sequences.
pub enum RequestErrorView {
    UnexpectedEnd,
    InvalidRequestLine,
    InvalidHost(Seq<char>),
    InvalidContentType(Seq<char>),
    InvalidContentLength(IntErrorKind),
    UnsupportedTransferEncoding(Seq<char>),
    UnknownContentEncoding(Seq<char>),
    MissingField(MissingField),
    UnsupportedEncoding(ContentEncoding),
    InvalidFormData,
    MissingBoundary,
    MissingEndBoundary,
    MissingSeparator,
    MissingName,
    InvalidUtf8(Seq<char>),
    InvalidUtf8Stream,
}

impl View for RequestError {
    type V = RequestErrorView;

    open spec fn view(&self) -> RequestErrorView {
        match self {
            RequestError::UnexpectedEnd => RequestErrorView::UnexpectedEnd,
            RequestError::InvalidRequestLine => RequestErrorView::InvalidRequestLine,
            RequestError::InvalidHost(m) => RequestErrorView::InvalidHost(m@),
            RequestError::InvalidContentType(m) => RequestErrorView::InvalidContentType(m@),
            RequestError::InvalidContentLength(k) => RequestErrorView::InvalidContentLength(*k),
            RequestError::UnsupportedTransferEncoding(e) => RequestErrorView::UnsupportedTransferEncoding(e@),
            RequestError::UnknownContentEncoding(m) => RequestErrorView::UnknownContentEncoding(m@),
            RequestError::MissingField(f) => RequestErrorView::MissingField(*f),
            RequestError::UnsupportedEncoding(e) => RequestErrorView::UnsupportedEncoding(*e),
            RequestError::InvalidFormData => RequestErrorView::InvalidFormData,
            RequestError::MissingBoundary => RequestErrorView::MissingBoundary,
            RequestError::MissingEndBoundary => RequestErrorView::MissingEndBoundary,
            RequestError::MissingSeparator => RequestErrorView::MissingSeparator,
            RequestError::MissingName => RequestErrorView::MissingName,
            RequestError::InvalidUtf8(m) => RequestErrorView::InvalidUtf8(m@),
            RequestError::InvalidUtf8Stream => RequestErrorView::InvalidUtf8Stream,
        }
    }
}

/// The text shown for an error.
pub open spec fn request_error_message(e: RequestErrorView) -> Seq<char> {
    match e {
        RequestErrorView::UnexpectedEnd => "Unexpected end of stream"@,
        RequestErrorView::InvalidRequestLine => "Invalid request line"@,
        RequestErrorView::InvalidHost(m) => m,
        RequestErrorView::InvalidContentType(m) => m,
        RequestErrorView::InvalidContentLength(k) => crate::text::int_error_message(k),
        RequestErrorView::UnsupportedTransferEncoding(e) => "transfer-encoding `"@ + e
            + "` is not supported yet"@,
        RequestErrorView::UnknownContentEncoding(m) => m,
        RequestErrorView::MissingField(MissingField::Host) => "`host` must be initialized"@,
        RequestErrorView::MissingField(MissingField::ContentType) => "`content_type` must be initialized"@,
        RequestErrorView::MissingField(MissingField::ContentLength) => "`content_length` must be initialized"@,
        RequestErrorView::UnsupportedEncoding(e) => encoding_debug_name(e) + " encoding not supported yet"@,
        RequestErrorView::InvalidFormData => "Invalid form data"@,
        RequestErrorView::MissingBoundary => "Missing boundary for multipart"@,
        RequestErrorView::MissingEndBoundary => "multipart: missing end boundary"@,
        RequestErrorView::MissingSeparator => "missing header/body seperator"@,
        RequestErrorView::MissingName => "missing 'name' in Content-Disposition"@,
        RequestErrorView::InvalidUtf8(m) => m,
        RequestErrorView::InvalidUtf8Stream => "stream did not contain valid UTF-8"@,
    }
}

impl RequestError {
    /// The text shown for this error.
    pub fn message(&self) -> (r: String)
        ensures
            r@ == request_error_message(self@),
    {
        match self {
            RequestError::UnexpectedEnd => "Unexpected end of stream".to_owned(),
            RequestError::InvalidRequestLine => "Invalid request line".to_owned(),
            RequestError::InvalidHost(m) => m.clone(),
            RequestError::InvalidContentType(m) => m.clone(),
            RequestError::InvalidContentLength(k) => k.message(),
            RequestError::UnsupportedTransferEncoding(e) => {
                let front = concat("transfer-encoding `", e.as_str());
                concat(front.as_str(), "` is not supported yet")
            },
            RequestError::UnknownContentEncoding(m) => m.clone(),
            RequestError::MissingField(MissingField::Host) => "`host` must be initialized".to_owned(),
            RequestError::MissingField(MissingField::ContentType) => "`content_type` must be initialized".to_owned(),
            RequestError::MissingField(MissingField::ContentLength) => "`content_length` must be initialized".to_owned(),
            RequestError::UnsupportedEncoding(e) => {
                let name = e.debug_name();
                concat(name.as_str(), " encoding not supported yet")
            },
            RequestError::InvalidFormData => "Invalid form data".to_owned(),
            RequestError::MissingBoundary => "Missing boundary for multipart".to_owned(),
            RequestError::MissingEndBoundary => "multipart: missing end boundary".to_owned(),
            RequestError::MissingSeparator => "missing header/body seperator".to_owned(),
            RequestError::MissingName => "missing 'name' in Content-Disposition".to_owned(),
            RequestError::InvalidUtf8(m) => m.clone(),
            RequestError::InvalidUtf8Stream => "stream did not contain valid UTF-8".to_owned(),
        }
    }
}

// ---------------------------------------------------------------------------
// The request line
// ---------------------------------------------------------------------------

/// The request line, if it matches [`REQUEST_LINE_PATTERN`], names version HTTP/1.1
/// (the only version this library accepts; any other is a caller error).
pub open spec fn supported_version(line: Seq<char>) -> bool {
    request_line_groups(line) matches Some((_, _, v)) ==> v == "HTTP/1.1"@
}

/// Whether the request line, if it matches, names HTTP/1.1 (what
/// [`parse_connection`] requires of it).
pub fn start_line_supported(line: &str) -> (r: bool)
    ensures
        r == supported_version(line@),
{
    match regex_captures(REQUEST_LINE_PATTERN, line) {
        Some(Some(groups)) => {
            let ghost g = request_line_groups(line@)->0;
            assert(optional_texts(groups@).len() == 4);
            assert(optional_texts(groups@)[3] == Some(g.2));
            match &groups[3] {
                Some(v) => text_eq(v.as_str(), "HTTP/1.1"),
                None => {
                    assert(false);
                    false
                },
            }
        },
        _ => true,
    }
}

/// Splits the request line into method, target and version.
fn parse_start_line(line: &str) -> (r: Result<(HttpMethod, String, HttpVersion), RequestError>)
    requires
        supported_version(line@),
    ensures
        r is Ok <==> request_line_groups(line@) is Some,
        r matches Ok((m, p, v)) ==> ({
            let (gm, gp, gv) = request_line_groups(line@)->0;
            is_method_of(gm, m) && p@ == gp && v == HttpVersion::V1_1
        }),
        r matches Err(e) ==> e@ == RequestErrorView::InvalidRequestLine,
{
    match regex_captures(REQUEST_LINE_PATTERN, line) {
        Some(Some(groups)) => {
            let ghost g = request_line_groups(line@)->0;
            assert(optional_texts(groups@).len() == 4);
            assert(groups@.len() == 4);
            assert(optional_texts(groups@)[1] == Some(g.0));
            assert(optional_texts(groups@)[2] == Some(g.1));
            assert(optional_texts(groups@)[3] == Some(g.2));
            let method = match &groups[1] {
                Some(s) => HttpMethod::from_name(s.as_str()),
                None => {
                    assert(false);
                    HttpMethod::GET
                },
            };
            let url = match &groups[2] {
                Some(s) => s.clone(),
                None => {
                    assert(false);
                    String::new()
                },
            };
            let version = match &groups[3] {
                Some(s) => HttpVersion::from_str(s.as_str()),
                None => {
                    assert(false);
                    HttpVersion::V1_1
                },
            };
            Ok((method, url, version))
        },
        _ => Err(RequestError::InvalidRequestLine),
    }
}

// ---------------------------------------------------------------------------
// Header metadata
// ---------------------------------------------------------------------------

/// What the body headers said.
#[derive(Debug)]
pub struct BodyMetadata {
    pub content_type: MediaType,
    pub content_length: ContentLength,
    pub content_encoding: Option<Vec<ContentEncoding>>,
    pub boundary: Option<String>,
}

/// What the headers said about the request.
#[derive(Debug)]
pub struct HeaderMetadata {
    pub host: String,
    pub body_metadata: Option<BodyMetadata>,
    pub is_secure: bool,
}

/// [`BodyMetadata`] with texts as sequences.
pub struct BodyMetaView {
    pub content_type: (Seq<char>, Seq<char>),
    pub content_length: ContentLength,
    pub content_encoding: Option<Seq<ContentEncoding>>,
    pub boundary: Option<Seq<char>>,
}

/// [`HeaderMetadata`] with texts as sequences.
pub struct HeaderMetaView {
    pub host: Seq<char>,
    pub body_metadata: Option<BodyMetaView>,
    pub is_secure: bool,
}

/// The view of an optional string.
pub open spec fn opt_text(o: Option<String>) -> Option<Seq<char>> {
    match o {
        Some(s) => Some(s@),
        None => None,
    }
}

/// The view of an optional list of codings.
pub open spec fn opt_codings(o: Option<Vec<ContentEncoding>>) -> Option<Seq<ContentEncoding>> {
    match o {
        Some(v) => Some(v@),
        None => None,
    }
}

impl View for BodyMetadata {
    type V = BodyMetaView;

    open spec fn view(&self) -> BodyMetaView {
        BodyMetaView {
            content_type: self.content_type@,
            content_length: self.content_length,
            content_encoding: opt_codings(self.content_encoding),
            boundary: opt_text(self.boundary),
        }
    }
}

impl View for HeaderMetadata {
    type V = HeaderMetaView;

    open spec fn view(&self) -> HeaderMetaView {
        HeaderMetaView {
            host: self.host@,
            body_metadata: match self.body_metadata {
                Some(b) => Some(b@),
                None => None,
            },
            is_secure: self.is_secure,
        }
    }
}

impl Clone for BodyMetadata {
    fn clone(&self) -> (r: Self)
        ensures
            r@ == self@,
    {
        BodyMetadata {
            content_type: self.content_type.clone(),
            content_length: self.content_length,
            content_encoding: match &self.content_encoding {
                Some(v) => Some(v.clone()),
                None => None,
            },
            boundary: match &self.boundary {
                Some(b) => Some(b.clone()),
                None => None,
            },
        }
    }
}

// ---------------------------------------------------------------------------
// Header lines
// ---------------------------------------------------------------------------

/// The state while header lines are read: the headers so far and what the
/// metadata builders have been given (`body_touched` once any body field was set).
pub struct HeaderScan {
    pub headers: Map<Seq<char>, Seq<Seq<char>>>,
    pub host: Option<Seq<char>>,
    pub body_touched: bool,
    pub content_type: Option<(Seq<char>, Seq<char>)>,
    pub content_length: Option<ContentLength>,
    pub content_encoding: Option<Seq<ContentEncoding>>,
    pub boundary: Option<Seq<char>>,
}

/// Nothing read yet.
pub open spec fn empty_scan() -> HeaderScan {
    HeaderScan {
        headers: Map::empty(),
        host: None,
        body_touched: false,
        content_type: None,
        content_length: None,
        content_encoding: None,
        boundary: None,
    }
}

/// The check a request applies to `authorization` and `accept` values.
pub open spec fn request_value_ok(key: Seq<char>, value: Seq<char>) -> bool {
    if key == "authorization"@ {
        authorization_ok(value)
    } else if key == "accept"@ {
        accept_ok(value)
    } else {
        true
    }
}

/// Every value passes [`HEADER_VALUE_PATTERN`] and the check for `key`.
pub open spec fn values_acceptable(key: Seq<char>, values: Seq<Seq<char>>) -> bool {
    forall|i: int|
        0 <= i < values.len() ==> is_field_text(#[trigger] values[i]) && request_value_ok(
            key,
            values[i],
        )
}

/// The codings named by `values`, or the message for the first unknown one.
pub open spec fn codings_of(values: Seq<Seq<char>>) -> Result<Seq<ContentEncoding>, Seq<char>>
    decreases values.len(),
{
    if values.len() == 0 {
        Ok(Seq::<ContentEncoding>::empty())
    } else {
        match encoding_named(values[0]) {
            None => Err("Unknown content encoding: "@ + values[0]),
            Some(e) => match codings_of(values.drop_first()) {
                Ok(rest) => Ok(seq![e] + rest),
                Err(m) => Err(m),
            },
        }
    }
}

/// The effect of a recognised header on the metadata (its values are non-empty).
pub open spec fn apply_header(st: HeaderScan, key: Seq<char>, values: Seq<Seq<char>>) -> Result<
    HeaderScan,
    RequestErrorView,
> {
    let first = values[0];
    if key == "host"@ {
        match host_parse_result(first) {
            Ok(h) => Ok(HeaderScan { host: Some(h), ..st }),
            Err(m) => Err(RequestErrorView::InvalidHost(m)),
        }
    } else if key == "content-type"@ {
        match mime_parse_result(first) {
            Ok(t) => Ok(HeaderScan { body_touched: true, content_type: Some(t), ..st }),
            Err(m) => Err(RequestErrorView::InvalidContentType(m)),
        }
    } else if key == "content-length"@ {
        match parse_u64(first) {
            Ok(n) => Ok(
                HeaderScan {
                    body_touched: true,
                    content_length: Some(ContentLength::Fixed(n)),
                    ..st
                },
            ),
            Err(k) => Err(RequestErrorView::InvalidContentLength(k)),
        }
    } else if key == "transfer-encoding"@ {
        if first == "chunked"@ {
            Ok(HeaderScan { body_touched: true, content_length: Some(ContentLength::Chunked), ..st })
        } else {
            Err(RequestErrorView::UnsupportedTransferEncoding(first))
        }
    } else if key == "content-encoding"@ {
        match codings_of(values) {
            Ok(c) => Ok(HeaderScan { body_touched: true, content_encoding: Some(c), ..st }),
            Err(m) => Err(RequestErrorView::UnknownContentEncoding(m)),
        }
    } else if key == "boundary"@ {
        Ok(HeaderScan { body_touched: true, boundary: Some(first), ..st })
    } else {
        Ok(st)
    }
}

/// One header line: `name: v1, v2, ...`. A line without `:`, with an invalid
/// name, or with a value that fails its checks is skipped; otherwise the
/// metadata is updated and the values are appended under the lowercased name.
pub open spec fn scan_line(st: HeaderScan, line: Seq<char>) -> Result<HeaderScan, RequestErrorView> {
    match split_once(line, ':') {
        None => Ok(st),
        Some((k, vs)) => {
            let key = normalize_name(k);
            let values = comma_parts(vs);
            if !is_token(key) || !values_acceptable(key, values) {
                Ok(st)
            } else {
                match apply_header(st, key, values) {
                    Ok(next) => Ok(
                        HeaderScan {
                            headers: next.headers.insert(key, values_under(next.headers, key) + values),
                            ..next
                        },
                    ),
                    Err(e) => Err(e),
                }
            }
        },
    }
}

/// The header lines up to the first empty line (or the end), read in order.
pub open spec fn scan_lines(st: HeaderScan, lines: Seq<Seq<char>>) -> Result<HeaderScan, RequestErrorView>
    decreases lines.len(),
{
    if lines.len() == 0 || lines[0].len() == 0 {
        Ok(st)
    } else {
        match scan_line(st, lines[0]) {
            Ok(next) => scan_lines(next, lines.drop_first()),
            Err(e) => Err(e),
        }
    }
}

/// The metadata built from what was read: body metadata only if some body
/// header was seen, and then `content-type` and a length are required; `host`
/// is always required.
pub open spec fn finish_scan(st: HeaderScan) -> Result<(Map<Seq<char>, Seq<Seq<char>>>, HeaderMetaView), RequestErrorView> {
    if st.body_touched && st.content_type is None {
        Err(RequestErrorView::MissingField(MissingField::ContentType))
    } else if st.body_touched && st.content_length is None {
        Err(RequestErrorView::MissingField(MissingField::ContentLength))
    } else if st.host is None {
        Err(RequestErrorView::MissingField(MissingField::Host))
    } else {
        Ok(
            (
                st.headers,
                HeaderMetaView {
                    host: st.host->0,
                    body_metadata: if st.body_touched {
                        Some(
                            BodyMetaView {
                                content_type: st.content_type->0,
                                content_length: st.content_length->0,
                                content_encoding: st.content_encoding,
                                boundary: st.boundary,
                            },
                        )
                    } else {
                        None
                    },
                    is_secure: false,
                },
            ),
        )
    }
}

/// What [`parse_headers`] returns for the given lines.
pub open spec fn headers_outcome(lines: Seq<Seq<char>>) -> Result<(Map<Seq<char>, Seq<Seq<char>>>, HeaderMetaView), RequestErrorView> {
    match scan_lines(empty_scan(), lines) {
        Ok(st) => finish_scan(st),
        Err(e) => Err(e),
    }
}

/// The header state in code.
struct HeaderAcc {
    headers: StrMap<Vec<String>>,
    host: Option<String>,
    body_touched: bool,
    content_type: Option<MediaType>,
    content_length: Option<ContentLength>,
    content_encoding: Option<Vec<ContentEncoding>>,
    boundary: Option<String>,
}

impl View for HeaderAcc {
    type V = HeaderScan;

    closed spec fn view(&self) -> HeaderScan {
        HeaderScan {
            headers: self.headers@,
            host: opt_text(self.host),
            body_touched: self.body_touched,
            content_type: match self.content_type {
                Some(t) => Some(t@),
                None => None,
            },
            content_length: self.content_length,
            content_encoding: opt_codings(self.content_encoding),
            boundary: opt_text(self.boundary),
        }
    }
}

/// Appends `values` to the list held under `key`.
pub fn append_values(map: &mut StrMap<Vec<String>>, key: String, values: &Vec<String>)
    ensures
        final(map)@ == old(map)@.insert(key@, values_under(old(map)@, key@) + texts(values@)),
{
    let mut current = match map.remove(key.as_str()) {
        Some(v) => v,
        None => Vec::new(),
    };
    let ghost start = current@;
    assert(current.deep_view() =~= texts(current@));
    let mut i: usize = 0;
    while i < values.len()
        invariant
            i <= values@.len(),
            current@ == start + values@.take(i as int),
        decreases values@.len() - i,
    {
        current.push(values[i].clone());
        assert(values@.take(i + 1) =~= values@.take(i as int).push(values@[i as int]));
        i = i + 1;
    }
    assert(values@.take(i as int) =~= values@);
    assert(current.deep_view() =~= texts(current@));
    proof {
        let old_vals = values_under(old(map)@, key@);
        assert(texts(start) == old_vals) by {
            if old(map)@.contains_key(key@) {
            } else {
                assert(texts(start) =~= Seq::<Seq<char>>::empty());
            }
        }
        assert(texts(current@) =~= old_vals + texts(values@));
    }
    map.insert(key, current);
    assert(old(map)@.remove(key@).insert(key@, texts(current@)) =~= old(map)@.insert(
        key@,
        values_under(old(map)@, key@) + texts(values@),
    ));
}

/// Reads the codings named by `values`, in order.
fn codings_from(values: &Vec<String>) -> (r: Result<Vec<ContentEncoding>, String>)
    ensures
        match (r, codings_of(texts(values@))) {
            (Ok(c), Ok(cv)) => c@ == cv,
            (Err(m), Err(mv)) => m@ == mv,
            _ => false,
        },
{
    let ghost all = texts(values@);
    let mut out: Vec<ContentEncoding> = Vec::new();
    let mut i: usize = 0;
    assert(all.skip(0) =~= all);
    while i < values.len()
        invariant
            i <= values@.len(),
            all == texts(values@),
            codings_of(all) == match codings_of(all.skip(i as int)) {
                Ok(rest) => Ok(out@ + rest),
                Err(m) => Err(m),
            },
        decreases values@.len() - i,
    {
        let ghost rest = all.skip(i as int);
        assert(rest[0] == values@[i as int]@);
        assert(rest.drop_first() =~= all.skip(i + 1));
        match ContentEncoding::from_str(values[i].as_str()) {
            Ok(e) => {
                let ghost before = out@;
                out.push(e);
                proof {
                    match codings_of(all.skip(i + 1)) {
                        Ok(tail) => {
                            assert(before + (seq![e] + tail) =~= out@ + tail);
                        },
                        Err(_) => {},
                    }
                }
            },
            Err(m) => {
                return Err(m);
            },
        }
        i = i + 1;
    }
    assert(all.skip(i as int) =~= Seq::<Seq<char>>::empty());
    assert(out@ + Seq::<ContentEncoding>::empty() =~= out@);
    Ok(out)
}

/// Decides [`request_value_ok`].
fn request_value_valid(key: &str, value: &str) -> (r: bool)
    ensures
        r == request_value_ok(key@, value@),
{
    if text_eq(key, "authorization") {
        authorization_valid(value)
    } else if text_eq(key, "accept") {
        accept_valid(value)
    } else {
        true
    }
}

/// Decides [`values_acceptable`].
fn values_valid(key: &str, values: &Vec<String>) -> (r: bool)
    ensures
        r == values_acceptable(key@, texts(values@)),
{
    let mut i: usize = 0;
    while i < values.len()
        invariant
            i <= values@.len(),
            forall|j: int|
                0 <= j < i ==> is_field_text(#[trigger] texts(values@)[j]) && request_value_ok(
                    key@,
                    texts(values@)[j],
                ),
        decreases values@.len() - i,
    {
        let ok_text = match crate::bindings::regex_is_match(HEADER_VALUE_PATTERN, values[i].as_str()) {
            Some(b) => b,
            None => false,
        };
        if !ok_text || !request_value_valid(key, values[i].as_str()) {
            assert(!(is_field_text(texts(values@)[i as int]) && request_value_ok(key@, texts(values@)[i as int])));
            return false;
        }
        i = i + 1;
    }
    true
}

impl HeaderAcc {
    fn new() -> (r: Self)
        ensures
            r@ == empty_scan(),
    {
        HeaderAcc {
            headers: StrMap::new(),
            host: None,
            body_touched: false,
            content_type: None,
            content_length: None,
            content_encoding: None,
            boundary: None,
        }
    }

    /// Applies [`apply_header`].
    fn apply(&mut self, key: &str, values: &Vec<String>) -> (r: Result<(), RequestError>)
        requires
            values@.len() >= 1,
        ensures
            match apply_header(old(self)@, key@, texts(values@)) {
                Ok(st) => r is Ok && final(self)@ == st,
                Err(e) => r matches Err(x) && x@ == e && final(self)@ == old(self)@,
            },
    {
        let first = values[0].as_str();
        assert(texts(values@)[0] == first@);
        if text_eq(key, "host") {
            match host_parse(first) {
                Ok(h) => {
                    self.host = Some(h);
                    Ok(())
                },
                Err(m) => Err(RequestError::InvalidHost(m)),
            }
        } else if text_eq(key, "content-type") {
            match MediaType::parse(first) {
                Ok(t) => {
                    self.body_touched = true;
                    self.content_type = Some(t);
                    Ok(())
                },
                Err(m) => Err(RequestError::InvalidContentType(m)),
            }
        } else if text_eq(key, "content-length") {
            match parse_u64_str(first) {
                Ok(n) => {
                    self.body_touched = true;
                    self.content_length = Some(ContentLength::Fixed(n));
                    Ok(())
                },
                Err(k) => Err(RequestError::InvalidContentLength(k)),
            }
        } else if text_eq(key, "transfer-encoding") {
            if text_eq(first, "chunked") {
                self.body_touched = true;
                self.content_length = Some(ContentLength::Chunked);
                Ok(())
            } else {
                Err(RequestError::UnsupportedTransferEncoding(first.to_owned()))
            }
        } else if text_eq(key, "content-encoding") {
            match codings_from(values) {
                Ok(c) => {
                    self.body_touched = true;
                    self.content_encoding = Some(c);
                    Ok(())
                },
                Err(m) => Err(RequestError::UnknownContentEncoding(m)),
            }
        } else if text_eq(key, "boundary") {
            self.body_touched = true;
            self.boundary = Some(first.to_owned());
            Ok(())
        } else {
            Ok(())
        }
    }

    /// Applies [`scan_line`].
    fn scan(&mut self, line: &str) -> (r: Result<(), RequestError>)
        ensures
            match scan_line(old(self)@, line@) {
                Ok(st) => r is Ok && final(self)@ == st,
                Err(e) => r matches Err(x) && x@ == e,
            },
    {
        let (key_str, values_str) = match split_once_str(line, ':') {
            Some(p) => p,
            None => {
                return Ok(());
            },
        };
        let trimmed = crate::text::trim_str(key_str.as_str());
        let key = crate::bindings::to_lowercase(trimmed.as_str());
        let is_name = match crate::bindings::regex_is_match(
            crate::bindings::HEADER_NAME_PATTERN,
            key.as_str(),
        ) {
            Some(b) => b,
            None => false,
        };
        if !is_name {
            return Ok(());
        }
        let values = comma_parts_str(values_str.as_str());
        if !values_valid(key.as_str(), &values) {
            return Ok(());
        }
        proof {
            lemma_comma_parts_nonempty(values_str@);
        }
        match self.apply(key.as_str(), &values) {
            Ok(()) => {},
            Err(e) => {
                return Err(e);
            },
        }
        append_values(&mut self.headers, key, &values);
        Ok(())
    }

    /// Applies [`finish_scan`].
    fn finish(self) -> (r: Result<(StrMap<Vec<String>>, HeaderMetadata), RequestError>)
        ensures
            match (r, finish_scan(self@)) {
                (Ok((h, md)), Ok((hv, mv))) => h@ == hv && md@ == mv,
                (Err(e), Err(ev)) => e@ == ev,
                _ => false,
            },
    {
        let body_metadata = if self.body_touched {
            let content_type = match self.content_type {
                Some(t) => t,
                None => {
                    return Err(RequestError::MissingField(MissingField::ContentType));
                },
            };
            let content_length = match self.content_length {
                Some(l) => l,
                None => {
                    return Err(RequestError::MissingField(MissingField::ContentLength));
                },
            };
            Some(
                BodyMetadata {
                    content_type,
                    content_length,
                    content_encoding: self.content_encoding,
                    boundary: self.boundary,
                },
            )
        } else {
            None
        };
        let host = match self.host {
            Some(h) => h,
            None => {
                return Err(RequestError::MissingField(MissingField::Host));
            },
        };
        Ok((self.headers, HeaderMetadata { host, body_metadata, is_secure: false }))
    }
}

/// Reads header lines (as `BufRead::lines` yields them, without line endings)
/// up to the first empty line: each `name: v1, v2` line with a valid name and
/// acceptable values is recorded under the trimmed, lowercased name, and the
/// host and body headers are interpreted.
pub fn parse_headers(lines: &[String]) -> (r: Result<(StrMap<Vec<String>>, HeaderMetadata), RequestError>)
    ensures
        match (r, headers_outcome(texts(lines@))) {
            (Ok((h, md)), Ok((hv, mv))) => h@ == hv && md@ == mv,
            (Err(e), Err(ev)) => e@ == ev,
            _ => false,
        },
{
    let ghost all = texts(lines@);
    let mut acc = HeaderAcc::new();
    let mut i: usize = 0;
    assert(all.skip(0) =~= all);
    while i < lines.len()
        invariant
            i <= lines@.len(),
            all == texts(lines@),
            scan_lines(empty_scan(), all) == scan_lines(acc@, all.skip(i as int)),
        ensures
            i <= lines@.len(),
            scan_lines(empty_scan(), all) == scan_lines(acc@, all.skip(i as int)),
            i == lines@.len() || all[i as int].len() == 0,
        decreases lines@.len() - i,
    {
        let ghost rest = all.skip(i as int);
        assert(rest[0] == lines@[i as int]@);
        assert(rest.drop_first() =~= all.skip(i + 1));
        if lines[i].as_str().is_empty() {
            break;
        }
        match acc.scan(lines[i].as_str()) {
            Ok(()) => {},
            Err(e) => {
                return Err(e);
            },
        }
        i = i + 1;
    }
    proof {
        if i == lines@.len() {
            assert(all.skip(i as int) =~= Seq::<Seq<char>>::empty());
        } else {
            assert(all.skip(i as int)[0] == all[i as int]);
        }
    }
    acc.finish()
}

// ---------------------------------------------------------------------------
// URLs and requests
// ---------------------------------------------------------------------------

/// An absolute URL as `url` parsed it: its path and its query.
#[derive(Debug)]
pub struct Url {
    path: String,
    query: Option<String>,
}

impl View for Url {
    type V = (Seq<char>, Option<Seq<char>>);

    closed spec fn view(&self) -> (Seq<char>, Option<Seq<char>>) {
        (self.path@, opt_text(self.query))
    }
}

impl Clone for Url {
    fn clone(&self) -> (r: Self)
        ensures
            r@ == self@,
    {
        Url {
            path: self.path.clone(),
            query: match &self.query {
                Some(q) => Some(q.clone()),
                None => None,
            },
        }
    }
}

impl Url {
    /// Parses an absolute URL with `url`; the error holds `url`'s message.
    pub fn parse(input: &str) -> (r: Result<Url, String>)
        ensures
            match r {
                Ok(u) => url_parse_result(input@) == Ok::<(Seq<char>, Option<Seq<char>>), Seq<char>>(u@),
                Err(m) => url_parse_result(input@) == Err::<(Seq<char>, Option<Seq<char>>), Seq<char>>(m@),
            },
    {
        match url_parse(input) {
            Ok((path, query)) => Ok(Url { path, query }),
            Err(m) => Err(m),
        }
    }

    /// The URL's path.
    pub fn path(&self) -> (r: &str)
        ensures
            r@ == self@.0,
    {
        self.path.as_str()
    }

    /// The URL's query, if it has one.
    pub fn query(&self) -> (r: Option<&str>)
        ensures
            match r {
                Some(q) => self@.1 == Some(q@),
                None => self@.1 is None,
            },
    {
        match &self.query {
            Some(q) => Some(q.as_str()),
            None => None,
        }
    }
}

/// A parsed request head.
#[derive(Debug)]
pub struct Request {
    pub method: HttpMethod,
    pub path: String,
    pub url: Option<Url>,
    pub version: HttpVersion,
    pub headers: StrMap<Vec<String>>,
    pub header_metadata: HeaderMetadata,
}

/// The URL a request names: `http://`, the host, then the request target.
pub open spec fn request_url_text(host: Seq<char>, target: Seq<char>) -> Seq<char> {
    "http://"@ + host + target
}

/// The URL text for a request is the prefix `http://` and the host, followed
/// by the request target exactly as the request line gave it.
pub proof fn law_url_text_keeps_target(host: Seq<char>, target: Seq<char>)
    ensures
        request_url_text(host, target).len() == 7 + host.len() + target.len(),
        request_url_text(host, target).take(7 + host.len() as int) == "http://"@ + host,
        request_url_text(host, target).skip(7 + host.len() as int) == target,
        request_url_text(host, target) == request_url_text(host, Seq::<char>::empty()) + target,
{
    reveal_strlit("http://");
    assert("http://"@.len() == 7);
    let t = request_url_text(host, target);
    assert(t.take(7 + host.len() as int) =~= "http://"@ + host);
    assert(t.skip(7 + host.len() as int) =~= target);
    assert(request_url_text(host, Seq::<char>::empty()) =~= "http://"@ + host);
    assert(t =~= request_url_text(host, Seq::<char>::empty()) + target);
}

/// Parses a request head: the request line as read (line ending included;
/// `None` when the stream ended first), then the header lines. The URL is
/// built from the `host` header and the target; it is absent when `url` does
/// not parse that text, which does not fail the request.
pub fn parse_connection(start_line: Option<&str>, header_lines: &[String]) -> (r: Result<Request, RequestError>)
    requires
        start_line matches Some(l) ==> supported_version(l@),
    ensures
        start_line is None ==> (r matches Err(e) && e@ == RequestErrorView::UnexpectedEnd),
        start_line matches Some(l) ==> match request_line_groups(l@) {
            None => (r matches Err(e) && e@ == RequestErrorView::InvalidRequestLine),
            Some((m, p, _)) => match headers_outcome(texts(header_lines@)) {
                Err(ev) => (r matches Err(e) && e@ == ev),
                Ok((hv, mv)) => (r matches Ok(req) && is_method_of(m, req.method) && req.path@ == p
                    && req.version == HttpVersion::V1_1 && req.headers@ == hv
                    && req.header_metadata@ == mv && match url_parse_result(
                    request_url_text(mv.host, p),
                ) {
                    Ok(u) => (req.url matches Some(x) && x@ == u),
                    Err(_) => req.url is None,
                }),
            },
        },
{
    let line = match start_line {
        Some(l) => l,
        None => {
            return Err(RequestError::UnexpectedEnd);
        },
    };
    let (method, path, version) = match parse_start_line(line) {
        Ok(parts) => parts,
        Err(e) => {
            return Err(e);
        },
    };
    let (headers, header_metadata) = match parse_headers(header_lines) {
        Ok(parsed) => parsed,
        Err(e) => {
            return Err(e);
        },
    };
    let front = concat("http://", header_metadata.host.as_str());
    let text = concat(front.as_str(), path.as_str());
    assert(text@ == request_url_text(header_metadata.host@, path@));
    let url = match Url::parse(text.as_str()) {
        Ok(u) => Some(u),
        Err(_) => None,
    };
    Ok(Request { method, path, url, version, headers, header_metadata })
}

// ---------------------------------------------------------------------------
// Reading the body
// ---------------------------------------------------------------------------

/// A coding this library can decode.
pub open spec fn decodable(e: ContentEncoding) -> bool {
    e is Gzip || e is Deflate || e is Br || e is Zstd
}

/// The decoders to apply, outermost coding first (the reverse of the order in
/// which the codings were listed); the first coding, in that order, that
/// cannot be decoded is reported instead.
pub open spec fn decoding_plan(codings: Seq<ContentEncoding>) -> Result<Seq<ContentEncoding>, ContentEncoding>
    decreases codings.len(),
{
    if codings.len() == 0 {
        Ok(Seq::<ContentEncoding>::empty())
    } else if !decodable(codings.last()) {
        Err(codings.last())
    } else {
        match decoding_plan(codings.drop_last()) {
            Ok(rest) => Ok(seq![codings.last()] + rest),
            Err(e) => Err(e),
        }
    }
}

/// The decoders to apply to a body, outermost first; none when no coding was
/// given.
pub fn decoders_for(encoding: &Option<Vec<ContentEncoding>>) -> (r: Result<Vec<ContentEncoding>, RequestError>)
    ensures
        match encoding {
            None => (r matches Ok(v) && v@ == Seq::<ContentEncoding>::empty()),
            Some(list) => match (r, decoding_plan(list@)) {
                (Ok(v), Ok(p)) => v@ == p,
                (Err(e), Err(c)) => e@ == RequestErrorView::UnsupportedEncoding(c),
                _ => false,
            },
        },
{
    let list = match encoding {
        Some(list) => list,
        None => {
            return Ok(Vec::new());
        },
    };
    let mut out: Vec<ContentEncoding> = Vec::new();
    let mut i: usize = list.len();
    assert(list@.take(i as int) =~= list@);
    while i > 0
        invariant
            i <= list@.len(),
            encoding matches Some(l) && l@ == list@,
            decoding_plan(list@) == match decoding_plan(list@.take(i as int)) {
                Ok(rest) => Ok(out@ + rest),
                Err(e) => Err(e),
            },
        decreases i,
    {
        let e = list[i - 1];
        let ghost prefix = list@.take(i as int);
        assert(prefix.last() == e);
        assert(prefix.drop_last() =~= list@.take(i - 1));
        match e {
            ContentEncoding::Compress | ContentEncoding::Dcb | ContentEncoding::Dcz => {
                return Err(RequestError::UnsupportedEncoding(e));
            },
            _ => {},
        }
        let ghost before = out@;
        out.push(e);
        proof {
            match decoding_plan(list@.take(i - 1)) {
                Ok(rest) => {
                    assert(before + (seq![e] + rest) =~= out@ + rest);
                },
                Err(_) => {},
            }
        }
        i = i - 1;
    }
    assert(list@.take(0) =~= Seq::<ContentEncoding>::empty());
    assert(out@ + Seq::<ContentEncoding>::empty() =~= out@);
    Ok(out)
}

/// The number of bytes a body is read to: its declared length, or
/// [`MAX_BODY_SIZE`] when none was declared.
pub fn body_limit(size_hint: Option<u64>) -> (r: u64)
    ensures
        r == match size_hint {
            Some(n) => n,
            None => MAX_BODY_SIZE,
        },
{
    match size_hint {
        Some(n) => n,
        None => MAX_BODY_SIZE,
    }
}

/// The size hint a declared length gives: its value when fixed, none when chunked.
pub fn size_hint_of(length: ContentLength) -> (r: Option<u64>)
    ensures
        r == match length {
            ContentLength::Fixed(n) => Some(n),
            ContentLength::Chunked => None::<u64>,
        },
{
    match length {
        ContentLength::Fixed(n) => Some(n),
        ContentLength::Chunked => None,
    }
}

// ---------------------------------------------------------------------------
// Form data
// ---------------------------------------------------------------------------

/// A field of a submitted form: text, or an uploaded file.
#[derive(Debug)]
pub enum FormDataValue {
    Text(String),
    File { filename: String, content_type: String, data: Vec<u8> },
}

/// [`FormDataValue`] with texts and bytes as sequences.
pub enum FormValueView {
    Text(Seq<char>),
    File { filename: Seq<char>, content_type: Seq<char>, data: Seq<u8> },
}

impl DeepView for FormDataValue {
    type V = FormValueView;

    open spec fn deep_view(&self) -> FormValueView {
        match self {
            FormDataValue::Text(t) => FormValueView::Text(t@),
            FormDataValue::File { filename, content_type, data } => FormValueView::File {
                filename: filename@,
                content_type: content_type@,
                data: data@,
            },
        }
    }
}

/// A decoded body.
#[derive(Debug)]
pub enum BodyData {
    Json(serde_json::Value),
    FormData(StrMap<FormDataValue>),
    Text(String),
    Other { content_type: MediaType, data: Vec<u8> },
}

/// What [`decode_disposition_param`] returns: `%0A`, `%0D` and `%22` decoded,
/// in that order.
pub open spec fn decoded_param(s: Seq<char>) -> Seq<char> {
    replace_all(replace_all(replace_all(s, "%0A"@, "\n"@), "%0D"@, "\r"@), "%22"@, "\""@)
}

/// Decodes the three escapes a `Content-Disposition` parameter may hold.
fn decode_disposition_param(s: &str) -> (r: String)
    ensures
        r@ == decoded_param(s@),
{
    proof {
        reveal_strlit("%0A");
        reveal_strlit("%0D");
        reveal_strlit("%22");
    }
    let a = replace_str(s, "%0A", "\n");
    let b = replace_str(a.as_str(), "%0D", "\r");
    replace_str(b.as_str(), "%22", "\"")
}

/// `name`, `filename` and `content-type` of a part, as far as read.
pub type PartFields = (Option<Seq<char>>, Option<Seq<char>>, Option<Seq<char>>);

/// The `Content-Disposition` parameters `key=value`, read in order: `name` and
/// `filename` (keys trimmed) take the value with surrounding `"` removed and
/// escapes decoded.
pub open spec fn disposition_params(st: PartFields, params: Seq<Seq<char>>) -> PartFields
    decreases params.len(),
{
    if params.len() == 0 {
        st
    } else {
        let next = match split_once(trim(params[0]), '=') {
            None => st,
            Some((k, v)) => {
                let dv = decoded_param(trim_char(v, '"'));
                if trim(k) == "name"@ {
                    (Some(dv), st.1, st.2)
                } else if trim(k) == "filename"@ {
                    (st.0, Some(dv), st.2)
                } else {
                    st
                }
            },
        };
        disposition_params(next, params.drop_first())
    }
}

/// Text without `%` holds no escape, so decoding leaves it as it is.
pub proof fn law_decoded_param_plain(s: Seq<char>)
    requires
        !s.contains('%'),
    ensures
        decoded_param(s) == s,
{
    reveal_strlit("%0A");
    reveal_strlit("%0D");
    reveal_strlit("%22");
    crate::text::lemma_replace_absent(s, "%0A"@, "\n"@);
    crate::text::lemma_replace_absent(s, "%0D"@, "\r"@);
    crate::text::lemma_replace_absent(s, "%22"@, "\""@);
}

/// A parameter ` key="x"` (one leading space, `key` free of `=` and of white
/// space at its ends, `x` free of `"` and `%`) splits into `key` and the
/// quoted `x`, whose decoded value is `x` itself.
proof fn lemma_quoted_param(key: Seq<char>, x: Seq<char>)
    requires
        key.len() > 0,
        !key.contains('='),
        !crate::text::is_white_space(key[0]),
        !crate::text::is_white_space(key.last()),
        !x.contains('"'),
        !x.contains('%'),
    ensures
        split_once(trim(seq![' '] + (key + seq!['='] + (seq!['"'] + x + seq!['"']))), '=') == Some(
            (key, seq!['"'] + x + seq!['"']),
        ),
        trim(key) == key,
        decoded_param(trim_char(seq!['"'] + x + seq!['"'], '"')) == x,
{
    let body = key + seq!['='] + (seq!['"'] + x + seq!['"']);
    assert(body[0] == key[0]);
    assert(body.last() == '"');
    crate::text::lemma_trim_leading_space(body);
    crate::text::lemma_split_once_after(key, '=', seq!['"'] + x + seq!['"']);
    crate::text::lemma_trim_unchanged(key);
    crate::text::lemma_trim_quotes(x);
    law_decoded_param_plain(x);
}

/// The `Content-Disposition` parameters `form-data; name="n"; filename="f"`
/// (split at `;`), with `n` and `f` free of `"` and `%`, give the name `n` and
/// the file name `f` character for character, and leave the content type.
pub proof fn law_disposition_params_verbatim(st: PartFields, n: Seq<char>, f: Seq<char>)
    requires
        !n.contains('"'),
        !n.contains('%'),
        !f.contains('"'),
        !f.contains('%'),
    ensures
        disposition_params(
            st,
            seq!["form-data"@, " name=\""@ + n + "\""@, " filename=\""@ + f + "\""@],
        ) == (Some(n), Some(f), st.2),
{
    reveal_strlit("form-data");
    reveal_strlit(" name=\"");
    reveal_strlit(" filename=\"");
    reveal_strlit("\"");
    reveal_strlit("name");
    reveal_strlit("filename");
    let fd = "form-data"@;
    let pn = " name=\""@ + n + "\""@;
    let pf = " filename=\""@ + f + "\""@;
    let params = seq![fd, pn, pf];
    assert(pn =~= seq![' '] + ("name"@ + seq!['='] + (seq!['"'] + n + seq!['"'])));
    assert(pf =~= seq![' '] + ("filename"@ + seq!['='] + (seq!['"'] + f + seq!['"'])));
    assert(!"name"@.contains('=')) by {
        if "name"@.contains('=') {
            let j = choose|j: int| 0 <= j < "name"@.len() && "name"@[j] == '=';
        }
    }
    assert(!"filename"@.contains('=')) by {
        if "filename"@.contains('=') {
            let j = choose|j: int| 0 <= j < "filename"@.len() && "filename"@[j] == '=';
        }
    }
    lemma_quoted_param("name"@, n);
    lemma_quoted_param("filename"@, f);
    crate::text::lemma_trim_unchanged(fd);
    assert(!fd.contains('=')) by {
        if fd.contains('=') {
            let j = choose|j: int| 0 <= j < fd.len() && fd[j] == '=';
        }
    }
    crate::text::lemma_find_absent(fd, '=');
    assert("name"@ != "filename"@);
    let s1 = (Some(n), st.1, st.2);
    let s2 = (Some(n), Some(f), st.2);
    assert(params[0] == fd);
    assert(params.drop_first() =~= seq![pn, pf]);
    assert(seq![pn, pf][0] == pn);
    assert(seq![pn, pf].drop_first() =~= seq![pf]);
    assert(seq![pf][0] == pf);
    assert(seq![pf].drop_first() =~= Seq::<Seq<char>>::empty());
    assert(disposition_params(s2, Seq::<Seq<char>>::empty()) == s2);
    assert(disposition_params(s1, seq![pf]) == s2);
    assert(disposition_params(st, seq![pn, pf]) == s2);
    assert(disposition_params(st, params) == s2);
}

/// The header lines of a part, read in order.
pub open spec fn part_header_lines(st: PartFields, ls: Seq<Seq<char>>) -> PartFields
    decreases ls.len(),
{
    if ls.len() == 0 {
        st
    } else {
        let next = match split_once(ls[0], ':') {
            None => st,
            Some((hn, hv)) => {
                let n = crate::bindings::lowercased(trim(hn));
                if n == "content-disposition"@ {
                    disposition_params(st, split(trim(hv), ';'))
                } else if n == "content-type"@ {
                    (st.0, st.1, Some(trim(hv)))
                } else {
                    st
                }
            },
        };
        part_header_lines(next, ls.drop_first())
    }
}

/// The header name `name` (ASCII, not starting or ending with white space)
/// as a part reads it: lowercased.
proof fn lemma_part_header_name(name: Seq<char>, lower: Seq<char>)
    requires
        name.len() > 0,
        !crate::text::is_white_space(name[0]),
        !crate::text::is_white_space(name.last()),
        crate::bindings::is_ascii_text(name),
        name.map_values(|c: char| crate::bindings::ascii_lower(c)) == lower,
    ensures
        crate::bindings::lowercased(trim(name)) == lower,
{
    crate::text::lemma_trim_unchanged(name);
}

/// A part header line `Content-Type:v` sets the part's content type to `v`
/// trimmed, character for character, and nothing else.
pub proof fn law_part_content_type_verbatim(st: PartFields, v: Seq<char>)
    ensures
        part_header_lines(st, seq!["Content-Type:"@ + v]) == (st.0, st.1, Some(trim(v))),
{
    reveal_strlit("Content-Type:");
    reveal_strlit("Content-Type");
    reveal_strlit("content-type");
    reveal_strlit("content-disposition");
    let name = "Content-Type"@;
    assert("Content-Type:"@ + v =~= name + seq![':'] + v);
    assert(!name.contains(':')) by {
        if name.contains(':') {
            let j = choose|j: int| 0 <= j < name.len() && name[j] == ':';
        }
    }
    crate::text::lemma_split_once_after(name, ':', v);
    assert(name.map_values(|c: char| crate::bindings::ascii_lower(c)) =~= "content-type"@);
    lemma_part_header_name(name, "content-type"@);
    assert("content-type"@ != "content-disposition"@);
    let line = "Content-Type:"@ + v;
    assert(split_once(line, ':') == Some((name, v)));
    assert(crate::bindings::lowercased(trim(name)) == "content-type"@);
    let next = (st.0, st.1, Some(trim(v)));
    assert(seq![line][0] == line);
    assert(seq![line].drop_first() =~= Seq::<Seq<char>>::empty());
    assert(part_header_lines(next, Seq::<Seq<char>>::empty()) == next);
    assert(part_header_lines(st, seq![line]) == part_header_lines(next, seq![line].drop_first()));
}

/// A part header line `Content-Disposition: form-data; name="n";
/// filename="f"` (with `n` and `f` free of `"`, `%` and `;`) sets the part's
/// name to `n` and its file name to `f`, character for character.
pub proof fn law_part_disposition_verbatim(st: PartFields, n: Seq<char>, f: Seq<char>)
    requires
        !n.contains('"'),
        !n.contains('%'),
        !n.contains(';'),
        !f.contains('"'),
        !f.contains('%'),
        !f.contains(';'),
    ensures
        part_header_lines(
            st,
            seq!["Content-Disposition: form-data; name=\""@ + n + "\"; filename=\""@ + f + "\""@],
        ) == (Some(n), Some(f), st.2),
{
    reveal_strlit("Content-Disposition: form-data; name=\"");
    reveal_strlit("\"; filename=\"");
    reveal_strlit("\"");
    reveal_strlit("Content-Disposition");
    reveal_strlit("content-disposition");
    reveal_strlit("form-data");
    reveal_strlit(" name=\"");
    reveal_strlit(" filename=\"");
    let name = "Content-Disposition"@;
    let fd = "form-data"@;
    let pn = " name=\""@ + n + "\""@;
    let pf = " filename=\""@ + f + "\""@;
    let hv = seq![' '] + (fd + seq![';'] + (pn + seq![';'] + pf));
    let line = "Content-Disposition: form-data; name=\""@ + n + "\"; filename=\""@ + f + "\""@;
    assert(line =~= name + seq![':'] + hv);
    assert(!name.contains(':')) by {
        if name.contains(':') {
            let j = choose|j: int| 0 <= j < name.len() && name[j] == ':';
        }
    }
    crate::text::lemma_split_once_after(name, ':', hv);
    assert(name.map_values(|c: char| crate::bindings::ascii_lower(c)) =~= "content-disposition"@);
    lemma_part_header_name(name, "content-disposition"@);
    let inner = fd + seq![';'] + (pn + seq![';'] + pf);
    assert(inner[0] == 'f');
    assert(inner.last() == '"');
    crate::text::lemma_trim_leading_space(inner);
    assert(!fd.contains(';')) by {
        if fd.contains(';') {
            let j = choose|j: int| 0 <= j < fd.len() && fd[j] == ';';
        }
    }
    assert(!pn.contains(';')) by {
        if pn.contains(';') {
            let j = choose|j: int| 0 <= j < pn.len() && pn[j] == ';';
            if 7 <= j < 7 + n.len() {
                assert(n[j - 7] == ';');
            }
        }
    }
    assert(!pf.contains(';')) by {
        if pf.contains(';') {
            let j = choose|j: int| 0 <= j < pf.len() && pf[j] == ';';
            if 11 <= j < 11 + f.len() {
                assert(f[j - 11] == ';');
            }
        }
    }
    crate::text::lemma_split_concat(fd, ';', pn + seq![';'] + pf);
    crate::text::lemma_split_concat(pn, ';', pf);
    crate::text::lemma_split_absent(fd, ';');
    crate::text::lemma_split_absent(pn, ';');
    crate::text::lemma_split_absent(pf, ';');
    assert(split(inner, ';') =~= seq![fd, pn, pf]);
    law_disposition_params_verbatim(st, n, f);
    assert(split_once(line, ':') == Some((name, hv)));
    assert(crate::bindings::lowercased(trim(name)) == "content-disposition"@);
    assert(trim(hv) == inner);
    let next = (Some(n), Some(f), st.2);
    assert(disposition_params(st, split(trim(hv), ';')) == next);
    assert(seq![line][0] == line);
    assert(seq![line].drop_first() =~= Seq::<Seq<char>>::empty());
    assert(part_header_lines(next, Seq::<Seq<char>>::empty()) == next);
    assert(part_header_lines(st, seq![line]) == part_header_lines(next, seq![line].drop_first()));
}

/// What [`parse_part_headers`] returns for the raw header bytes of a part.
pub open spec fn part_headers(raw: Seq<u8>) -> Result<(Seq<char>, Option<Seq<char>>, Option<Seq<char>>), RequestErrorView> {
    if !valid_utf8(raw) {
        Err(RequestErrorView::InvalidUtf8(crate::bindings::utf8_error_message(raw)))
    } else {
        let st = part_header_lines((None, None, None), lines(decode_utf8(raw)));
        match st.0 {
            None => Err(RequestErrorView::MissingName),
            Some(n) => Ok((n, st.1, st.2)),
        }
    }
}

/// Reads one `Content-Disposition` parameter.
fn disposition_param(
    name: &mut Option<String>,
    filename: &mut Option<String>,
    param: &str,
)
    ensures
        forall|c: Option<Seq<char>>|
            disposition_params((opt_text(*old(name)), opt_text(*old(filename)), c), seq![param@])
                == (opt_text(*final(name)), opt_text(*final(filename)), c),
{
    assert(seq![param@].drop_first() =~= Seq::<Seq<char>>::empty());
    assert(seq![param@][0] == param@);
    reveal_with_fuel(disposition_params, 2);
    let trimmed = trim_str(param);
    match split_once_str(trimmed.as_str(), '=') {
        None => {},
        Some((k, v)) => {
            let unquoted = trim_char_str(v.as_str(), '"');
            let dv = decode_disposition_param(unquoted.as_str());
            let key = trim_str(k.as_str());
            if text_eq(key.as_str(), "name") {
                *name = Some(dv);
            } else if text_eq(key.as_str(), "filename") {
                *filename = Some(dv);
            }
        },
    }
}

/// Reads the headers of a multipart part: `Content-Disposition` gives `name`
/// and `filename`, `Content-Type` the content type; `name` is required.
fn parse_part_headers(headers_raw: &[u8]) -> (r: Result<(String, Option<String>, Option<String>), RequestError>)
    ensures
        match (r, part_headers(headers_raw@)) {
            (Ok((n, f, c)), Ok((nv, fv, cv))) => n@ == nv && opt_text(f) == fv && opt_text(c) == cv,
            (Err(e), Err(ev)) => e@ == ev,
            _ => false,
        },
{
    let header_str = match crate::bindings::utf8_to_string(headers_raw) {
        Ok(s) => s,
        Err(m) => {
            return Err(RequestError::InvalidUtf8(m));
        },
    };
    let ls = lines_str(header_str.as_str());
    let ghost all = texts(ls@);
    let mut name: Option<String> = None;
    let mut filename: Option<String> = None;
    let mut content_type: Option<String> = None;
    let mut i: usize = 0;
    assert(all.skip(0) =~= all);
    while i < ls.len()
        invariant
            i <= ls@.len(),
            all == texts(ls@),
            all == lines(decode_utf8(headers_raw@)),
            part_header_lines((None, None, None), all) == part_header_lines(
                (opt_text(name), opt_text(filename), opt_text(content_type)),
                all.skip(i as int),
            ),
        decreases ls@.len() - i,
    {
        let ghost rest = all.skip(i as int);
        assert(rest[0] == ls@[i as int]@);
        assert(rest.drop_first() =~= all.skip(i + 1));
        match split_once_str(ls[i].as_str(), ':') {
            None => {},
            Some((header_name, header_value)) => {
                let trimmed_name = trim_str(header_name.as_str());
                let lowered = crate::bindings::to_lowercase(trimmed_name.as_str());
                let value = trim_str(header_value.as_str());
                if text_eq(lowered.as_str(), "content-disposition") {
                    let params = split_str(value.as_str(), ';');
                    let ghost ps = split(value@, ';');
                    let mut j: usize = 0;
                    assert(texts(params@) == ps);
                    assert(ps.skip(0) =~= ps);
                    let ghost st0 = (opt_text(name), opt_text(filename), opt_text(content_type));
                    while j < params.len()
                        invariant
                            j <= params@.len(),
                            texts(params@) == ps,
                            disposition_params(st0, ps) == disposition_params(
                                (opt_text(name), opt_text(filename), opt_text(content_type)),
                                ps.skip(j as int),
                            ),
                            opt_text(content_type) == st0.2,
                        decreases params@.len() - j,
                    {
                        let ghost prest = ps.skip(j as int);
                        assert(prest[0] == params@[j as int]@);
                        assert(prest.drop_first() =~= ps.skip(j + 1));
                        proof {
                            reveal_with_fuel(disposition_params, 2);
                            assert(seq![prest[0]].drop_first() =~= Seq::<Seq<char>>::empty());
                        }
                        let ghost cur = (opt_text(name), opt_text(filename), opt_text(content_type));
                        assert(disposition_params(cur, prest) == disposition_params(
                            disposition_params(cur, seq![prest[0]]),
                            prest.drop_first(),
                        ));
                        disposition_param(&mut name, &mut filename, params[j].as_str());
                        j = j + 1;
                    }
                    assert(ps.skip(j as int) =~= Seq::<Seq<char>>::empty());
                } else if text_eq(lowered.as_str(), "content-type") {
                    content_type = Some(value);
                }
            },
        }
        i = i + 1;
    }
    assert(all.skip(i as int) =~= Seq::<Seq<char>>::empty());
    match name {
        Some(n) => Ok((n, filename, content_type)),
        None => Err(RequestError::MissingName),
    }
}

/// The blank line between a part's headers and its body.
pub open spec fn header_body_separator() -> Seq<u8> {
    seq![13u8, 10u8, 13u8, 10u8]
}

/// What [`parse_part`] returns for the bytes of one part (without the line
/// ending before the next boundary): headers up to the first blank line, then
/// the body; a part with a `filename` is a file (content type defaulting to
/// `application/octet-stream`), any other is UTF-8 text.
pub open spec fn part_outcome(part: Seq<u8>) -> Result<(Seq<char>, FormValueView), RequestErrorView> {
    match find_seq(part, header_body_separator()) {
        None => Err(RequestErrorView::MissingSeparator),
        Some(sep) => match part_headers(part.take(sep)) {
            Err(e) => Err(e),
            Ok((name, filename, content_type)) => {
                let body = part.skip(sep + 4);
                match filename {
                    Some(f) => Ok(
                        (
                            name,
                            FormValueView::File {
                                filename: f,
                                content_type: match content_type {
                                    Some(c) => c,
                                    None => "application/octet-stream"@,
                                },
                                data: body,
                            },
                        ),
                    ),
                    None => if valid_utf8(body) {
                        Ok((name, FormValueView::Text(decode_utf8(body))))
                    } else {
                        Err(RequestErrorView::InvalidUtf8(crate::bindings::utf8_error_message(body)))
                    },
                }
            },
        },
    }
}

/// A part whose first blank line (`\r\n\r\n`) follows its header bytes `h`
/// keeps the bytes after that blank line as its value exactly: an uploaded
/// file's data are those bytes, a text field is their UTF-8 text; the name,
/// file name and content type are what the headers `h` say.
pub proof fn law_part_body_verbatim(h: Seq<u8>, body: Seq<u8>)
    requires
        find_seq(h + header_body_separator() + body, header_body_separator()) == Some(h.len() as int),
    ensures
        match part_headers(h) {
            Err(e) => part_outcome(h + header_body_separator() + body) == Err::<
                (Seq<char>, FormValueView),
                RequestErrorView,
            >(e),
            Ok((n, Some(f), ct)) => part_outcome(h + header_body_separator() + body) == Ok::<
                (Seq<char>, FormValueView),
                RequestErrorView,
            >(
                (
                    n,
                    FormValueView::File {
                        filename: f,
                        content_type: match ct {
                            Some(c) => c,
                            None => "application/octet-stream"@,
                        },
                        data: body,
                    },
                ),
            ),
            Ok((n, None, _)) => valid_utf8(body) ==> part_outcome(h + header_body_separator() + body)
                == Ok::<(Seq<char>, FormValueView), RequestErrorView>(
                (n, FormValueView::Text(decode_utf8(body))),
            ),
        },
{
    let part = h + header_body_separator() + body;
    assert(part.take(h.len() as int) =~= h);
    assert(part.skip(h.len() as int + 4) =~= body);
}

/// Reads one part of a multipart body.
fn parse_part(part_data: &[u8]) -> (r: Result<(String, FormDataValue), RequestError>)
    ensures
        match (r, part_outcome(part_data@)) {
            (Ok((n, v)), Ok((nv, vv))) => n@ == nv && v.deep_view() == vv,
            (Err(e), Err(ev)) => e@ == ev,
            _ => false,
        },
{
    let separator: [u8; 4] = [13u8, 10u8, 13u8, 10u8];
    let sep_slice = separator.as_slice();
    assert(sep_slice@ =~= header_body_separator());
    let sep_pos = match find_subslice(part_data, sep_slice) {
        Some(p) => p,
        None => {
            return Err(RequestError::MissingSeparator);
        },
    };
    assert(sep_slice@.len() == 4);
    let n = part_data.len();
    assert(sep_pos + 4 <= n);
    let headers_raw = vstd::slice::slice_subrange(part_data, 0, sep_pos);
    let body_raw = vstd::slice::slice_subrange(part_data, sep_pos + 4, n);
    assert(headers_raw@ =~= part_data@.take(sep_pos as int));
    assert(body_raw@ =~= part_data@.skip(sep_pos + 4));
    let (name, filename, content_type) = match parse_part_headers(headers_raw) {
        Ok(h) => h,
        Err(e) => {
            return Err(e);
        },
    };
    match filename {
        Some(filename) => {
            let content_type = match content_type {
                Some(c) => c,
                None => "application/octet-stream".to_owned(),
            };
            Ok((name, FormDataValue::File { filename, content_type, data: vstd::slice::slice_to_vec(body_raw) }))
        },
        None => match crate::bindings::utf8_to_string(body_raw) {
            Ok(text) => Ok((name, FormDataValue::Text(text))),
            Err(m) => Err(RequestError::InvalidUtf8(m)),
        },
    }
}

/// How reading a multipart body ends: with the fields read, with an error, or
/// (for a part of exactly one byte before a boundary) where the reading would
/// slice out of bounds.
pub enum MultipartOutcome {
    Done(Map<Seq<char>, FormValueView>),
    Failed(RequestErrorView),
    OutOfBounds,
}

/// The next boundary in `buf`: its index, whether it is the closing one, and
/// its length; the earlier of the two kinds wins.
pub open spec fn next_boundary(buf: Seq<u8>, part: Seq<u8>, end: Seq<u8>) -> Option<(int, bool, int)> {
    match (find_seq(buf, part), find_seq(buf, end)) {
        (Some(p), Some(e)) => if p < e {
            Some((p, false, part.len() as int))
        } else {
            Some((e, true, end.len() as int))
        },
        (Some(p), None) => Some((p, false, part.len() as int)),
        (None, Some(e)) => Some((e, true, end.len() as int)),
        (None, None) => None,
    }
}

/// `find_seq` returns a first occurrence.
pub proof fn lemma_find_seq<T>(hay: Seq<T>, needle: Seq<T>)
    ensures
        find_seq(hay, needle) matches Some(i) ==> is_first_occurrence(hay, needle, i),
{
}

/// Reads a multipart body: the text before each boundary is a part (its last
/// two bytes, the line ending, dropped) and is recorded under its name, later
/// parts replacing earlier ones; the closing boundary ends the body, and
/// running out of boundaries is fine only when nothing is left.
pub open spec fn multipart_scan(
    buf: Seq<u8>,
    part: Seq<u8>,
    end: Seq<u8>,
    acc: Map<Seq<char>, FormValueView>,
) -> MultipartOutcome
    decreases buf.len(),
{
    if part.len() == 0 || end.len() == 0 {
        MultipartOutcome::Done(acc)
    } else {
        match next_boundary(buf, part, end) {
            None => if buf.len() == 0 {
                MultipartOutcome::Done(acc)
            } else {
                MultipartOutcome::Failed(RequestErrorView::MissingEndBoundary)
            },
            Some((index, is_end, len)) => {
                proof {
                    lemma_find_seq(buf, part);
                    lemma_find_seq(buf, end);
                }
                let piece = buf.take(index);
                if piece.len() == 1 {
                    MultipartOutcome::OutOfBounds
                } else {
                    let next = if piece.len() == 0 {
                        Ok(acc)
                    } else {
                        match part_outcome(piece.take(piece.len() - 2)) {
                            Ok((n, v)) => Ok(acc.insert(n, v)),
                            Err(e) => Err(e),
                        }
                    };
                    match next {
                        Err(e) => MultipartOutcome::Failed(e),
                        Ok(acc2) => if is_end {
                            MultipartOutcome::Done(acc2)
                        } else {
                            multipart_scan(buf.skip(index + len), part, end, acc2)
                        },
                    }
                }
            },
        }
    }
}

/// The delimiter before each part: `--`, the boundary, CRLF.
pub open spec fn part_delimiter(boundary: Seq<char>) -> Seq<u8> {
    seq![45u8, 45u8] + encode_utf8(boundary) + seq![13u8, 10u8]
}

/// The closing delimiter: `--`, the boundary, `--`, CRLF.
pub open spec fn end_delimiter(boundary: Seq<char>) -> Seq<u8> {
    seq![45u8, 45u8] + encode_utf8(boundary) + seq![45u8, 45u8, 13u8, 10u8]
}

/// What reading `data` as a multipart body with `boundary` gives.
pub open spec fn multipart_outcome(data: Seq<u8>, boundary: Seq<char>) -> MultipartOutcome {
    multipart_scan(data, part_delimiter(boundary), end_delimiter(boundary), Map::empty())
}

/// `--`, the boundary's bytes, then `tail`.
fn delimiter(boundary: &str, tail: &[u8]) -> (r: Vec<u8>)
    ensures
        r@ == seq![45u8, 45u8] + encode_utf8(boundary@) + tail@,
{
    let mut out: Vec<u8> = Vec::new();
    out.push(45u8);
    out.push(45u8);
    let bytes = boundary.as_bytes();
    let mut i: usize = 0;
    while i < bytes.len()
        invariant
            i <= bytes@.len(),
            bytes@ == encode_utf8(boundary@),
            out@ == seq![45u8, 45u8] + bytes@.take(i as int),
        decreases bytes@.len() - i,
    {
        out.push(bytes[i]);
        assert(bytes@.take(i + 1) =~= bytes@.take(i as int).push(bytes@[i as int]));
        i = i + 1;
    }
    let mut j: usize = 0;
    assert(bytes@.take(i as int) =~= bytes@);
    while j < tail.len()
        invariant
            j <= tail@.len(),
            out@ == seq![45u8, 45u8] + encode_utf8(boundary@) + tail@.take(j as int),
        decreases tail@.len() - j,
    {
        out.push(tail[j]);
        assert(tail@.take(j + 1) =~= tail@.take(j as int).push(tail@[j as int]));
        j = j + 1;
    }
    assert(tail@.take(j as int) =~= tail@);
    out
}

/// Reads a multipart body with the given boundary; `None` exactly where the
/// reading would slice out of bounds.
fn scan_multipart(data: &[u8], boundary: &str) -> (r: Option<Result<StrMap<FormDataValue>, RequestError>>)
    ensures
        match (r, multipart_outcome(data@, boundary@)) {
            (Some(Ok(m)), MultipartOutcome::Done(mv)) => m@ == mv,
            (Some(Err(e)), MultipartOutcome::Failed(ev)) => e@ == ev,
            (None, MultipartOutcome::OutOfBounds) => true,
            _ => false,
        },
{
    let crlf: [u8; 2] = [13u8, 10u8];
    let dashes_crlf: [u8; 4] = [45u8, 45u8, 13u8, 10u8];
    let crlf_s = crlf.as_slice();
    let dashes_crlf_s = dashes_crlf.as_slice();
    assert(crlf_s@ =~= seq![13u8, 10u8]);
    assert(dashes_crlf_s@ =~= seq![45u8, 45u8, 13u8, 10u8]);
    let part_boundary = delimiter(boundary, crlf_s);
    let end_boundary = delimiter(boundary, dashes_crlf_s);
    let ghost pb = part_delimiter(boundary@);
    let ghost eb = end_delimiter(boundary@);
    assert(part_boundary@ == pb);
    assert(end_boundary@ == eb);
    let mut fields: StrMap<FormDataValue> = StrMap::new();
    let mut pos: usize = 0;
    assert(data@.skip(0) =~= data@);
    loop
        invariant
            pos <= data@.len(),
            part_boundary@ == pb,
            end_boundary@ == eb,
            pb.len() > 0,
            eb.len() > 0,
            multipart_outcome(data@, boundary@) == multipart_scan(data@.skip(pos as int), pb, eb, fields@),
        decreases data@.len() - pos,
    {
        let ghost buf = data@.skip(pos as int);
        let rest = vstd::slice::slice_subrange(data, pos, data.len());
        assert(rest@ =~= buf);
        let part_pos = find_subslice(rest, part_boundary.as_slice());
        let end_pos = find_subslice(rest, end_boundary.as_slice());
        let (index, is_end, boundary_len) = match (part_pos, end_pos) {
            (Some(p), Some(e)) => if p < e {
                (p, false, part_boundary.len())
            } else {
                (e, true, end_boundary.len())
            },
            (Some(p), None) => (p, false, part_boundary.len()),
            (None, Some(e)) => (e, true, end_boundary.len()),
            (None, None) => {
                if rest.len() == 0 {
                    return Some(Ok(fields));
                } else {
                    return Some(Err(RequestError::MissingEndBoundary));
                }
            },
        };
        assert(next_boundary(buf, pb, eb) == Some((index as int, is_end, boundary_len as int)));
        assert(index + boundary_len <= buf.len());
        let ghost piece = buf.take(index as int);
        if index == 1 {
            return None;
        }
        if index > 0 {
            let part_data = vstd::slice::slice_subrange(data, pos, pos + index - 2);
            assert(part_data@ =~= piece.take(piece.len() - 2));
            match parse_part(part_data) {
                Ok((name, value)) => {
                    fields.insert(name, value);
                },
                Err(e) => {
                    return Some(Err(e));
                },
            }
        }
        if is_end {
            return Some(Ok(fields));
        }
        assert(buf.skip(index + boundary_len) =~= data@.skip(pos + index + boundary_len));
        pos = pos + index + boundary_len;
    }
}

/// Whether reading `data` as a multipart body with `boundary` stays in bounds
/// (it does not where a part of exactly one byte precedes a boundary).
pub fn multipart_in_bounds(data: &[u8], boundary: &str) -> (r: bool)
    ensures
        r == !(multipart_outcome(data@, boundary@) is OutOfBounds),
{
    scan_multipart(data, boundary).is_some()
}

/// What an `application/x-www-form-urlencoded` body gives: its fields, the
/// error for a pair without `=`, or the cases where reading it would slice the
/// text out of bounds or inside a character.
pub enum UrlencodedOutcome {
    Done(Map<Seq<char>, FormValueView>),
    Invalid,
    OutOfBounds,
}

/// Where the scan of a buffered chunk of pairs stopped: the fields so far and
/// the position it stopped at, or a pair without `=`, or a slice out of bounds.
pub enum PairScan {
    Rest(Map<Seq<char>, FormValueView>, int),
    Invalid,
    OutOfBounds,
}

/// The scan of the text `b` (as UTF-8 bytes) from `start`: while the rest of
/// the text holds a `&`, the pair is cut from `start` up to the index of that
/// `&` *within the rest* (an offset the reading then uses from the start of
/// the text), recorded (later keys replace earlier ones), and the scan goes on
/// after that index. Cutting needs `start` at most that index and both ends
/// on character boundaries; otherwise the slice is out of bounds.
pub open spec fn pair_scan(acc: Map<Seq<char>, FormValueView>, b: Seq<u8>, start: int) -> PairScan
    decreases b.len() - start,
{
    if !(0 <= start <= b.len()) || !is_char_boundary(b, start) {
        PairScan::OutOfBounds
    } else {
        let tail = b.subrange(start, b.len() as int);
        match find_seq(tail, seq![38u8]) {
            None => PairScan::Rest(acc, start),
            Some(r) => {
                proof {
                    lemma_find_seq(tail, seq![38u8]);
                }
                if r < start || !is_char_boundary(tail, r - start) {
                    PairScan::OutOfBounds
                } else {
                    match split_once(decode_utf8(b.subrange(start, r)), '=') {
                        None => PairScan::Invalid,
                        Some((k, v)) => pair_scan(acc.insert(k, FormValueView::Text(v)), b, r + 1),
                    }
                }
            },
        }
    }
}

/// The last pair: the whole text left over, which must hold `=`.
pub open spec fn last_pair(acc: Map<Seq<char>, FormValueView>, rest: Seq<u8>) -> UrlencodedOutcome {
    match split_once(decode_utf8(rest), '=') {
        None => UrlencodedOutcome::Invalid,
        Some((k, v)) => UrlencodedOutcome::Done(acc.insert(k, FormValueView::Text(v))),
    }
}

/// What an `application/x-www-form-urlencoded` body gives when its bytes come
/// in one read: the bytes are decoded as UTF-8 (`encoding_rs`, replacing
/// malformed sequences), [`pair_scan`] runs over that text from the start,
/// the text after where it stopped is kept (all of it when it stopped at the
/// very end), and that leftover is read as the last pair. An empty body is
/// one empty pair, which has no `=`.
pub open spec fn urlencoded_outcome(data: Seq<u8>) -> UrlencodedOutcome {
    if data.len() == 0 {
        last_pair(Map::empty(), Seq::<u8>::empty())
    } else {
        let b = encode_utf8(crate::bindings::utf8_decoded_lossy(data));
        match pair_scan(Map::empty(), b, 0) {
            PairScan::OutOfBounds => UrlencodedOutcome::OutOfBounds,
            PairScan::Invalid => UrlencodedOutcome::Invalid,
            PairScan::Rest(acc, stop) => last_pair(
                acc,
                if stop < b.len() {
                    b.subrange(stop, b.len() as int)
                } else {
                    b
                },
            ),
        }
    }
}

/// Every index of the UTF-8 encoding of ASCII text is a character boundary.
proof fn lemma_ascii_boundary(b: Seq<u8>, i: int)
    requires
        valid_utf8(b),
        forall|j: int| 0 <= j < b.len() ==> #[trigger] b[j] <= 0x7f,
        0 <= i <= b.len(),
    ensures
        is_char_boundary(b, i),
    decreases i,
{
    if i > 0 {
        let rest = vstd::utf8::pop_first_scalar(b);
        assert(vstd::utf8::length_of_first_scalar(b) == 1);
        assert(rest =~= b.subrange(1, b.len() as int));
        assert(valid_utf8(rest));
        assert forall|j: int| 0 <= j < rest.len() implies #[trigger] rest[j] <= 0x7f by {
            assert(rest[j] == b[j + 1]);
        }
        lemma_ascii_boundary(rest, i - 1);
    }
}

/// The UTF-8 encoding of ASCII text: one byte per character, cut anywhere,
/// decoding back to the same piece of text.
proof fn lemma_ascii_text(t: Seq<char>, i: int, j: int)
    requires
        vstd::utf8::is_ascii_chars(t),
        0 <= i <= j <= t.len(),
    ensures
        encode_utf8(t).len() == t.len(),
        encode_utf8(t).subrange(i, j) == encode_utf8(t.subrange(i, j)),
        decode_utf8(encode_utf8(t).subrange(i, j)) == t.subrange(i, j),
        is_char_boundary(encode_utf8(t), i),
        forall|k: int| 0 <= k < t.len() ==> #[trigger] encode_utf8(t)[k] == t[k] as u8,
{
    broadcast use vstd::utf8::is_ascii_chars_encode_utf8, vstd::utf8::encode_utf8_valid_utf8;

    let b = encode_utf8(t);
    let sub = t.subrange(i, j);
    assert(vstd::utf8::is_ascii_chars(sub)) by {
        assert forall|k: int| 0 <= k < sub.len() implies '\0' <= #[trigger] sub[k] <= '\u{7f}' by {
            assert(sub[k] == t[i + k]);
        }
    }
    assert(b.subrange(i, j) =~= encode_utf8(sub)) by {
        assert forall|k: int| 0 <= k < j - i implies #[trigger] b.subrange(i, j)[k] == encode_utf8(sub)[k] by {
            assert(sub[k] == t[i + k]);
            assert(b[i + k] == t[i + k] as u8);
            assert(encode_utf8(sub)[k] == sub[k] as u8);
        }
    }
    vstd::utf8::encode_utf8_decode_utf8(sub);
    assert forall|k: int| 0 <= k < b.len() implies #[trigger] b[k] <= 0x7f by {
        assert(b[k] == t[k] as u8);
        assert('\0' <= t[k] <= '\u{7f}');
    }
    lemma_ascii_boundary(b, i);
}

/// In the encoding of ASCII text, the byte `&` stands exactly where the
/// character `&` does.
proof fn lemma_ascii_amp(t: Seq<char>, k: int)
    requires
        vstd::utf8::is_ascii_chars(t),
        0 <= k < t.len(),
    ensures
        occurs_at(encode_utf8(t), seq![38u8], k) <==> t[k] == '&',
{
    lemma_ascii_text(t, 0, t.len() as int);
    let b = encode_utf8(t);
    assert('\0' <= t[k] <= '\u{7f}');
    if b.subrange(k, k + 1) == seq![38u8] {
        assert(b[k] == b.subrange(k, k + 1)[0]);
    }
    if t[k] == '&' {
        assert(b.subrange(k, k + 1) =~= seq![38u8]);
    }
}

/// The first `&` byte in the encoding of ASCII text is at the first `&`.
proof fn lemma_ascii_find_amp(t: Seq<char>)
    requires
        vstd::utf8::is_ascii_chars(t),
    ensures
        find_seq(encode_utf8(t), seq![38u8]) == crate::text::find(t, '&'),
{
    lemma_ascii_text(t, 0, t.len() as int);
    let b = encode_utf8(t);
    let n = seq![38u8];
    if exists|i: int| crate::text::is_first_index(t, '&', i) {
        let i = choose|i: int| crate::text::is_first_index(t, '&', i);
        lemma_ascii_amp(t, i);
        assert forall|j: int| 0 <= j < i implies !occurs_at(b, n, j) by {
            lemma_ascii_amp(t, j);
        }
        assert(is_first_occurrence(b, n, i));
        let m = choose|m: int| is_first_occurrence(b, n, m);
        crate::text::lemma_first_occurrence_unique(b, n, i, m);
    } else {
        if exists|m: int| is_first_occurrence(b, n, m) {
            let m = choose|m: int| is_first_occurrence(b, n, m);
            lemma_ascii_amp(t, m);
            assert forall|j: int| 0 <= j < m implies t[j] != '&' by {
                lemma_ascii_amp(t, j);
            }
            assert(crate::text::is_first_index(t, '&', m));
        }
    }
}

/// A form body whose text (as `encoding_rs` decodes it) is ASCII `k=v`, with
/// no `=` in `k` and no `&` anywhere, gives the one field `k`, holding `v`
/// exactly as written.
pub proof fn law_urlencoded_single_pair(data: Seq<u8>, k: Seq<char>, v: Seq<char>)
    requires
        data.len() > 0,
        crate::bindings::utf8_decoded_lossy(data) == k + seq!['='] + v,
        vstd::utf8::is_ascii_chars(k + seq!['='] + v),
        !k.contains('='),
        !k.contains('&'),
        !v.contains('&'),
    ensures
        urlencoded_outcome(data) == UrlencodedOutcome::Done(
            map![k => FormValueView::Text(v)],
        ),
{
    let t = k + seq!['='] + v;
    let b = encode_utf8(t);
    lemma_ascii_text(t, 0, t.len() as int);
    assert(!t.contains('&')) by {
        if t.contains('&') {
            let j = choose|j: int| 0 <= j < t.len() && t[j] == '&';
            if j < k.len() {
                assert(k[j] == '&');
            } else if j > k.len() {
                assert(v[j - k.len() - 1] == '&');
            }
        }
    }
    crate::text::lemma_find_absent(t, '&');
    assert(b.subrange(0, b.len() as int) =~= b);
    assert(t.subrange(0, t.len() as int) =~= t);
    lemma_ascii_find_amp(t);
    assert(pair_scan(Map::empty(), b, 0) == PairScan::Rest(Map::<Seq<char>, FormValueView>::empty(), 0));
    crate::text::lemma_split_once_after(k, '=', v);
    assert(decode_utf8(b) == t);
    assert(Map::<Seq<char>, FormValueView>::empty().insert(k, FormValueView::Text(v)) =~= map![
        k => FormValueView::Text(v),
    ]);
}

/// A form body whose text is ASCII `k1=v1&k2=v2` (no `=` in the keys, no `&`
/// within a key or value) gives `k1` holding `v1` and `k2` holding `v2`
/// (`v2` when the keys are equal), each exactly as written.
pub proof fn law_urlencoded_two_pairs(
    data: Seq<u8>,
    k1: Seq<char>,
    v1: Seq<char>,
    k2: Seq<char>,
    v2: Seq<char>,
)
    requires
        crate::bindings::utf8_decoded_lossy(data) == (k1 + seq!['='] + v1) + seq!['&'] + (k2
            + seq!['='] + v2),
        vstd::utf8::is_ascii_chars((k1 + seq!['='] + v1) + seq!['&'] + (k2 + seq!['='] + v2)),
        data.len() > 0,
        !k1.contains('='),
        !k1.contains('&'),
        !v1.contains('&'),
        !k2.contains('='),
        !k2.contains('&'),
        !v2.contains('&'),
    ensures
        urlencoded_outcome(data) == UrlencodedOutcome::Done(
            map![k1 => FormValueView::Text(v1)].insert(k2, FormValueView::Text(v2)),
        ),
{
    let p1 = k1 + seq!['='] + v1;
    let p2 = k2 + seq!['='] + v2;
    let t = p1 + seq!['&'] + p2;
    let b = encode_utf8(t);
    let a = p1.len() as int;
    let len = t.len() as int;
    assert(!p1.contains('&')) by {
        if p1.contains('&') {
            let j = choose|j: int| 0 <= j < p1.len() && p1[j] == '&';
            if j < k1.len() {
                assert(k1[j] == '&');
            } else if j > k1.len() {
                assert(v1[j - k1.len() - 1] == '&');
            }
        }
    }
    assert(!p2.contains('&')) by {
        if p2.contains('&') {
            let j = choose|j: int| 0 <= j < p2.len() && p2[j] == '&';
            if j < k2.len() {
                assert(k2[j] == '&');
            } else if j > k2.len() {
                assert(v2[j - k2.len() - 1] == '&');
            }
        }
    }
    // The first pair.
    lemma_ascii_text(t, 0, len);
    lemma_ascii_text(t, 0, a);
    lemma_ascii_text(t, a + 1, len);
    assert(b.subrange(0, len) =~= b);
    crate::text::lemma_find_after(p1, '&', p2);
    lemma_ascii_find_amp(t);
    assert(find_seq(b.subrange(0, len), seq![38u8]) == Some(a));
    lemma_ascii_text(t, a, a);
    assert(t.subrange(0, a) =~= p1);
    assert(b.subrange(0, len).subrange(0, a) =~= b.subrange(0, a));
    crate::text::lemma_split_once_after(k1, '=', v1);
    let acc1 = Map::<Seq<char>, FormValueView>::empty().insert(k1, FormValueView::Text(v1));
    // The second pair: no more `&`.
    let t2 = t.subrange(a + 1, len);
    assert(t2 =~= p2);
    assert(vstd::utf8::is_ascii_chars(t2)) by {
        assert forall|j: int| 0 <= j < t2.len() implies '\0' <= #[trigger] t2[j] <= '\u{7f}' by {
            assert(t2[j] == t[a + 1 + j]);
        }
    }
    lemma_ascii_find_amp(t2);
    crate::text::lemma_find_absent(p2, '&');
    assert(b.subrange(a + 1, len) == encode_utf8(t2));
    lemma_ascii_text(t, a + 1, a + 1);
    assert(pair_scan(acc1, b, a + 1) == PairScan::Rest(acc1, a + 1));
    assert(pair_scan(Map::empty(), b, 0) == PairScan::Rest(acc1, a + 1));
    crate::text::lemma_split_once_after(k2, '=', v2);
    assert(a + 1 < len);
    assert(acc1 =~= map![k1 => FormValueView::Text(v1)]);
}

/// Reads an `application/x-www-form-urlencoded` body; `None` where
/// [`urlencoded_outcome`] is out of bounds.
fn scan_urlencoded(data: &[u8]) -> (r: Option<Result<StrMap<FormDataValue>, RequestError>>)
    ensures
        match urlencoded_outcome(data@) {
            UrlencodedOutcome::Done(m) => (r matches Some(Ok(f)) && f@ == m),
            UrlencodedOutcome::Invalid => (r matches Some(Err(e)) && e@ == RequestErrorView::InvalidFormData),
            UrlencodedOutcome::OutOfBounds => r is None,
        },
{
    broadcast use vstd::utf8::encode_utf8_decode_utf8;

    let mut fields: StrMap<FormDataValue> = StrMap::new();
    if data.len() == 0 {
        proof {
            assert(decode_utf8(Seq::<u8>::empty()) =~= Seq::<char>::empty());
            assert(crate::text::find(Seq::<char>::empty(), '=') is None);
        }
        return Some(Err(RequestError::InvalidFormData));
    }
    let text = crate::bindings::decode_text_lossy(data);
    let s = text.as_str();
    let bytes = s.as_bytes();
    let ghost b = bytes@;
    assert(b == encode_utf8(crate::bindings::utf8_decoded_lossy(data@)));
    let amp: Vec<u8> = vec![38u8];
    assert(amp@ =~= seq![38u8]);
    let mut start: usize = 0;
    loop
        invariant
            start <= b.len(),
            b == bytes@,
            b == s.spec_bytes(),
            b == encode_utf8(crate::bindings::utf8_decoded_lossy(data@)),
            amp@ == seq![38u8],
            data@.len() > 0,
            pair_scan(Map::empty(), b, 0) == pair_scan(fields@, b, start as int),
        ensures
            start <= b.len(),
            b == bytes@,
            b == s.spec_bytes(),
            is_char_boundary(b, start as int),
            pair_scan(Map::empty(), b, 0) == PairScan::Rest(fields@, start as int),
        decreases b.len() - start,
    {
        if !s.is_char_boundary(start) {
            return None;
        }
        let tail_bytes = vstd::slice::slice_subrange(bytes, start, bytes.len());
        let ghost tail = b.subrange(start as int, b.len() as int);
        assert(tail_bytes@ =~= tail);
        match find_subslice(tail_bytes, amp.as_slice()) {
            None => {
                break;
            },
            Some(r) => {
                proof {
                    lemma_find_seq(tail, seq![38u8]);
                }
                if r < start {
                    return None;
                }
                let (_, tail_str) = s.split_at(start);
                assert(tail_str.spec_bytes() =~= tail);
                if !tail_str.is_char_boundary(r - start) {
                    return None;
                }
                let (pair, _) = tail_str.split_at(r - start);
                assert(pair.spec_bytes() =~= b.subrange(start as int, r as int));
                proof {
                    vstd::utf8::encode_utf8_decode_utf8(pair@);
                }
                assert(pair@ == decode_utf8(b.subrange(start as int, r as int)));
                match split_once_str(pair, '=') {
                    Some((k, v)) => {
                        fields.insert(k, FormDataValue::Text(v));
                    },
                    None => {
                        return Some(Err(RequestError::InvalidFormData));
                    },
                }
                start = r + 1;
            },
        }
    }
    let rest: &str = if start < bytes.len() {
        let (_, rest) = s.split_at(start);
        assert(rest.spec_bytes() =~= b.subrange(start as int, b.len() as int));
        rest
    } else {
        s
    };
    proof {
        vstd::utf8::encode_utf8_decode_utf8(rest@);
    }
    assert(rest@ == decode_utf8(rest.spec_bytes()));
    match split_once_str(rest, '=') {
        Some((k, v)) => {
            fields.insert(k, FormDataValue::Text(v));
            Some(Ok(fields))
        },
        None => Some(Err(RequestError::InvalidFormData)),
    }
}

/// Whether reading `data` as an `application/x-www-form-urlencoded` body stays
/// within the text and on character boundaries (see [`pair_scan`]).
pub fn urlencoded_in_bounds(data: &[u8]) -> (r: bool)
    ensures
        r == !(urlencoded_outcome(data@) is OutOfBounds),
{
    scan_urlencoded(data).is_some()
}

/// Reading a body of the media type with essence `essence` stays in bounds:
/// a form body's pairs, and a multipart body's parts when a boundary is given.
pub open spec fn body_in_bounds(essence: Seq<char>, boundary: Option<Seq<char>>, data: Seq<u8>) -> bool {
    &&& essence == "application/x-www-form-urlencoded"@ ==> !(urlencoded_outcome(data) is OutOfBounds)
    &&& essence == "multipart/form-data"@ ==> (boundary matches Some(b) ==> !(multipart_outcome(
        data,
        b,
    ) is OutOfBounds))
}

/// What [`body_data_from_bytes`] returns for a body with media type `ct`
/// (text, essence), the given boundary and bytes.
pub open spec fn body_data_result(
    ct: (Seq<char>, Seq<char>),
    boundary: Option<Seq<char>>,
    data: Seq<u8>,
    r: Result<BodyData, RequestError>,
) -> bool {
    &&& ct.1 == "application/x-www-form-urlencoded"@ ==> match urlencoded_outcome(data) {
        UrlencodedOutcome::Done(m) => (r matches Ok(BodyData::FormData(f)) && f@ == m),
        UrlencodedOutcome::Invalid => (r matches Err(e) && e@ == RequestErrorView::InvalidFormData),
        UrlencodedOutcome::OutOfBounds => false,
    }
    &&& ct.1 == "multipart/form-data"@ ==> match boundary {
        None => (r matches Err(e) && e@ == RequestErrorView::MissingBoundary),
        Some(b) => match multipart_outcome(data, b) {
            MultipartOutcome::Done(m) => (r matches Ok(BodyData::FormData(f)) && f@ == m),
            MultipartOutcome::Failed(ev) => (r matches Err(e) && e@ == ev),
            MultipartOutcome::OutOfBounds => false,
        },
    }
    &&& ct.1 == "text/plain"@ ==> if valid_utf8(data) {
        (r matches Ok(BodyData::Text(t)) && t@ == decode_utf8(data))
    } else {
        (r matches Err(e) && e@ == RequestErrorView::InvalidUtf8Stream)
    }
    &&& ct.1 != "application/x-www-form-urlencoded"@ && ct.1 != "multipart/form-data"@ && ct.1
        != "text/plain"@ ==> (r matches Ok(BodyData::Other { content_type: c, data: d }) && c@ == ct
        && d@ == data)
}

/// What a body decodes to, by the essence of its content type:
/// `application/x-www-form-urlencoded` and `multipart/form-data` give form
/// fields, `text/plain` UTF-8 text, anything else the bytes unchanged.
pub fn body_data_from_bytes(content_type: MediaType, boundary: Option<String>, data: Vec<u8>) -> (r: Result<BodyData, RequestError>)
    requires
        body_in_bounds(content_type@.1, opt_text(boundary), data@),
    ensures
        body_data_result(content_type@, opt_text(boundary), data@, r),
{
    proof {
        reveal_strlit("application/x-www-form-urlencoded");
        reveal_strlit("multipart/form-data");
        reveal_strlit("text/plain");
        assert("multipart/form-data"@.len() == 19);
        assert("text/plain"@.len() == 10);
        assert("application/x-www-form-urlencoded"@.len() == 33);
        assert("multipart/form-data"@ != "text/plain"@);
        assert("application/x-www-form-urlencoded"@ != "text/plain"@);
        assert("application/x-www-form-urlencoded"@ != "multipart/form-data"@);
    }
    let essence = content_type.essence_str();
    if text_eq(essence, "application/x-www-form-urlencoded") {
        match scan_urlencoded(data.as_slice()) {
            Some(Ok(f)) => Ok(BodyData::FormData(f)),
            Some(Err(e)) => Err(e),
            None => {
                assert(false);
                Err(RequestError::InvalidFormData)
            },
        }
    } else if text_eq(essence, "multipart/form-data") {
        let b = match boundary {
            Some(b) => b,
            None => {
                return Err(RequestError::MissingBoundary);
            },
        };
        match scan_multipart(data.as_slice(), b.as_str()) {
            Some(Ok(f)) => Ok(BodyData::FormData(f)),
            Some(Err(e)) => Err(e),
            None => {
                assert(false);
                Err(RequestError::MissingEndBoundary)
            },
        }
    } else if text_eq(essence, "text/plain") {
        match crate::bindings::utf8_to_string(data.as_slice()) {
            Ok(t) => Ok(BodyData::Text(t)),
            Err(_) => Err(RequestError::InvalidUtf8Stream),
        }
    } else {
        Ok(BodyData::Other { content_type, data })
    }
}

/// [`body_data_from_bytes`] where reading stays in bounds; `None` where it
/// would not (where reading the body would slice out of bounds).
pub fn body_data_checked(content_type: MediaType, boundary: Option<String>, data: Vec<u8>) -> (r: Option<
    Result<BodyData, RequestError>,
>)
    ensures
        r is None <==> !body_in_bounds(content_type@.1, opt_text(boundary), data@),
        r matches Some(x) ==> body_data_result(content_type@, opt_text(boundary), data@, x),
{
    proof {
        reveal_strlit("application/x-www-form-urlencoded");
        reveal_strlit("multipart/form-data");
        assert("application/x-www-form-urlencoded"@.len() == 33);
        assert("multipart/form-data"@.len() == 19);
        assert("application/x-www-form-urlencoded"@ != "multipart/form-data"@);
    }
    let essence = content_type.essence_str();
    if text_eq(essence, "application/x-www-form-urlencoded") {
        if !urlencoded_in_bounds(data.as_slice()) {
            return None;
        }
    } else if text_eq(essence, "multipart/form-data") {
        match &boundary {
            Some(b) => {
                if !multipart_in_bounds(data.as_slice(), b.as_str()) {
                    return None;
                }
            },
            None => {},
        }
    }
    Some(body_data_from_bytes(content_type, boundary, data))
}

// ---------------------------------------------------------------------------
// Laws
// ---------------------------------------------------------------------------

/// Every recorded header name is a token and every recorded value passes the
/// value pattern.
pub open spec fn recorded_headers_valid(h: Map<Seq<char>, Seq<Seq<char>>>) -> bool {
    forall|k: Seq<char>|
        #[trigger] h.contains_key(k) ==> is_token(k) && (forall|i: int|
            0 <= i < h[k].len() ==> is_field_text(#[trigger] h[k][i]))
}

/// Reading one line keeps the recorded headers valid.
proof fn lemma_scan_line_valid(st: HeaderScan, line: Seq<char>)
    requires
        recorded_headers_valid(st.headers),
    ensures
        scan_line(st, line) matches Ok(next) ==> recorded_headers_valid(next.headers),
{
    match split_once(line, ':') {
        None => {},
        Some((k, vs)) => {
            let key = normalize_name(k);
            let values = comma_parts(vs);
            if is_token(key) && values_acceptable(key, values) {
                match apply_header(st, key, values) {
                    Ok(next) => {
                        assert(next.headers == st.headers);
                        let stored = values_under(next.headers, key) + values;
                        assert forall|i: int| 0 <= i < stored.len() implies is_field_text(#[trigger] stored[i]) by {
                            if i >= values_under(next.headers, key).len() {
                                assert(stored[i] == values[i - values_under(next.headers, key).len()]);
                            }
                        }
                    },
                    Err(_) => {},
                }
            }
        },
    }
}

/// Reading lines keeps the recorded headers valid.
proof fn lemma_scan_lines_valid(st: HeaderScan, lines: Seq<Seq<char>>)
    requires
        recorded_headers_valid(st.headers),
    ensures
        scan_lines(st, lines) matches Ok(end) ==> recorded_headers_valid(end.headers),
    decreases lines.len(),
{
    if lines.len() > 0 && lines[0].len() > 0 {
        lemma_scan_line_valid(st, lines[0]);
        match scan_line(st, lines[0]) {
            Ok(next) => lemma_scan_lines_valid(next, lines.drop_first()),
            Err(_) => {},
        }
    }
}

/// The headers [`parse_headers`] returns are keyed by tokens (trimmed and
/// lowercased names) and hold only values the value pattern accepts: lines
/// that do not qualify are skipped, never recorded.
pub proof fn law_parsed_headers_valid(lines: Seq<Seq<char>>)
    ensures
        headers_outcome(lines) matches Ok((h, _)) ==> recorded_headers_valid(h),
{
    assert(recorded_headers_valid(empty_scan().headers));
    lemma_scan_lines_valid(empty_scan(), lines);
}

/// A non-empty header line that the scan ignores: it has no `:`, or its name
/// (trimmed, lowercased) is not a token, or one of its values fails the value
/// pattern or the `authorization`/`accept` check.
pub open spec fn line_skipped(line: Seq<char>) -> bool {
    &&& line.len() > 0
    &&& match split_once(line, ':') {
        None => true,
        Some((k, vs)) => !is_token(normalize_name(k)) || !values_acceptable(
            normalize_name(k),
            comma_parts(vs),
        ),
    }
}

/// Scanning with a skipped line inserted anywhere gives what scanning without it gives.
proof fn lemma_scan_lines_skip(st: HeaderScan, a: Seq<Seq<char>>, line: Seq<char>, c: Seq<Seq<char>>)
    requires
        line_skipped(line),
    ensures
        scan_lines(st, a + seq![line] + c) == scan_lines(st, a + c),
    decreases a.len(),
{
    let with = a + seq![line] + c;
    let without = a + c;
    if a.len() == 0 {
        assert(with[0] == line);
        assert(with.drop_first() =~= c);
        assert(without =~= c);
        assert(scan_line(st, line) == Ok::<HeaderScan, RequestErrorView>(st));
    } else {
        assert(with[0] == a[0]);
        assert(without[0] == a[0]);
        assert(with.drop_first() =~= a.drop_first() + seq![line] + c);
        assert(without.drop_first() =~= a.drop_first() + c);
        if a[0].len() > 0 {
            match scan_line(st, a[0]) {
                Ok(next) => lemma_scan_lines_skip(next, a.drop_first(), line, c),
                Err(_) => {},
            }
        }
    }
}

/// A malformed header line is skipped without effect: inserting it anywhere
/// among the header lines leaves what [`parse_headers`] returns, error or
/// headers and metadata, unchanged.
pub proof fn law_malformed_line_skipped(a: Seq<Seq<char>>, line: Seq<char>, c: Seq<Seq<char>>)
    requires
        line_skipped(line),
    ensures
        headers_outcome(a + seq![line] + c) == headers_outcome(a + c),
{
    lemma_scan_lines_skip(empty_scan(), a, line, c);
}

/// An `accept` header line is kept: when the name before the first `:` is
/// `accept` (after trimming and lowercasing) and each comma-separated value
/// after it is non-empty, within the value pattern, and a media type `mime`
/// parses, the line appends exactly those values under `accept` and changes
/// nothing else.
pub proof fn law_accept_line_recorded(st: HeaderScan, k: Seq<char>, vs: Seq<char>)
    requires
        !k.contains(':'),
        normalize_name(k) == "accept"@,
        forall|i: int|
            0 <= i < comma_parts(vs).len() ==> (#[trigger] comma_parts(vs)[i]).len() > 0
                && is_field_text(comma_parts(vs)[i]) && mime_parse_result(comma_parts(vs)[i]) is Ok,
    ensures
        scan_line(st, k + seq![':'] + vs) == Ok::<HeaderScan, RequestErrorView>(
            HeaderScan {
                headers: st.headers.insert(
                    "accept"@,
                    values_under(st.headers, "accept"@) + comma_parts(vs),
                ),
                ..st
            },
        ),
{
    reveal_strlit("accept");
    reveal_strlit("host");
    reveal_strlit("content-type");
    reveal_strlit("content-length");
    reveal_strlit("transfer-encoding");
    reveal_strlit("content-encoding");
    reveal_strlit("boundary");
    reveal_strlit("authorization");
    crate::text::lemma_split_once_after(k, ':', vs);
    let key = "accept"@;
    assert(key.len() == 6);
    assert(is_token(key)) by {
        assert forall|i: int| 0 <= i < key.len() implies crate::bindings::is_token_char(#[trigger] key[i]) by {}
    }
    let values = comma_parts(vs);
    crate::text::lemma_split_pieces_free(vs, ',');
    assert forall|i: int| 0 <= i < values.len() implies is_field_text(#[trigger] values[i])
        && request_value_ok(key, values[i]) by {
        let piece = split(vs, ',')[i];
        assert(values[i] == trim(piece));
        crate::text::lemma_trim_keeps_absent(piece, ',');
        crate::text::lemma_trim_idempotent(piece);
        crate::text::lemma_comma_parts_single(values[i]);
        assert(comma_parts(values[i])[0] == values[i]);
        assert(accept_ok(values[i]));
    }
    assert(values_acceptable(key, values));
    lemma_comma_parts_nonempty(vs);
    assert(key != "host"@ && key != "content-type"@ && key != "content-length"@ && key
        != "transfer-encoding"@ && key != "content-encoding"@ && key != "boundary"@);
    assert(key != "authorization"@);
    assert(apply_header(st, key, values) == Ok::<HeaderScan, RequestErrorView>(st));
}

/// A header line with a valid name that carries no metadata (not `host`, a
/// body header, `authorization` or `accept`) and values within the value
/// pattern is kept as written: it appends exactly its trimmed comma-separated
/// values under its trimmed, lowercased name and changes nothing else.
pub proof fn law_plain_header_line_recorded(st: HeaderScan, k: Seq<char>, vs: Seq<char>)
    requires
        !k.contains(':'),
        is_token(normalize_name(k)),
        normalize_name(k) != "host"@,
        normalize_name(k) != "content-type"@,
        normalize_name(k) != "content-length"@,
        normalize_name(k) != "transfer-encoding"@,
        normalize_name(k) != "content-encoding"@,
        normalize_name(k) != "boundary"@,
        normalize_name(k) != "authorization"@,
        normalize_name(k) != "accept"@,
        forall|i: int| 0 <= i < comma_parts(vs).len() ==> is_field_text(#[trigger] comma_parts(vs)[i]),
    ensures
        scan_line(st, k + seq![':'] + vs) == Ok::<HeaderScan, RequestErrorView>(
            HeaderScan {
                headers: st.headers.insert(
                    normalize_name(k),
                    values_under(st.headers, normalize_name(k)) + comma_parts(vs),
                ),
                ..st
            },
        ),
{
    crate::text::lemma_split_once_after(k, ':', vs);
    lemma_comma_parts_nonempty(vs);
    let key = normalize_name(k);
    let values = comma_parts(vs);
    assert forall|i: int| 0 <= i < values.len() implies is_field_text(#[trigger] values[i])
        && request_value_ok(key, values[i]) by {}
    assert(apply_header(st, key, values) == Ok::<HeaderScan, RequestErrorView>(st));
}

/// When every listed coding can be decoded, the decoders run in the reverse
/// of the listed order (the last coding applied is undone first).
pub proof fn law_decoding_plan_reverses(codings: Seq<ContentEncoding>)
    requires
        forall|i: int| 0 <= i < codings.len() ==> decodable(#[trigger] codings[i]),
    ensures
        decoding_plan(codings) == Ok::<Seq<ContentEncoding>, ContentEncoding>(codings.reverse()),
    decreases codings.len(),
{
    if codings.len() > 0 {
        let rest = codings.drop_last();
        assert forall|i: int| 0 <= i < rest.len() implies decodable(#[trigger] rest[i]) by {
            assert(rest[i] == codings[i]);
        }
        law_decoding_plan_reverses(rest);
        assert(decodable(codings[codings.len() - 1]));
        assert(seq![codings.last()] + rest.reverse() =~= codings.reverse());
    }
}

} // verus!
