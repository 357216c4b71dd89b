//! Errors raised when text cannot become a header name or header value.
use vstd::prelude::*;
use crate::bindings::{debug_list, debug_string, debug_strings, debug_text};
use crate::text::concat;

verus! {

/// The input that failed to parse: a single text or a list of values.
#[derive(Debug)]
pub enum ParseSource {
    Text(String),
    Values(Vec<String>),
}

/// The error type of this library.
#[derive(Debug)]
pub enum GimbapError {
    ParseError(GimbapParseError),
}

/// What could not be parsed, with the input that was refused.
#[derive(Debug)]
pub enum GimbapParseError {
    HeaderName(ParseSource),
    HeaderValue(ParseSource),
}

/// The `{:?}` rendering of a refused input.
pub open spec fn source_rendering(s: ParseSource) -> Seq<char> {
    match s {
        ParseSource::Text(t) => debug_text(t@),
        ParseSource::Values(v) => debug_list(v@.map_values(|x: String| x@)),
    }
}

/// The message of an error:
/// `Failed to parse the following into a <target>: <input rendered with {:?}>`.
pub open spec fn error_message(e: GimbapError) -> Seq<char> {
    match e {
        GimbapError::ParseError(GimbapParseError::HeaderName(s)) => "Failed to parse the following into a header name: "@
            + source_rendering(s),
        GimbapError::ParseError(GimbapParseError::HeaderValue(s)) => "Failed to parse the following into a header value: "@
            + source_rendering(s),
    }
}

impl ParseSource {
    /// The `{:?}` rendering of the refused input.
    pub fn render(&self) -> (r: String)
        ensures
            r@ == source_rendering(*self),
    {
        match self {
            ParseSource::Text(t) => debug_string(t.as_str()),
            ParseSource::Values(v) => debug_strings(v),
        }
    }
}

impl GimbapError {
    /// The text that displaying this error shows.
    pub fn message(&self) -> (r: String)
        ensures
            r@ == error_message(*self),
    {
        match self {
            GimbapError::ParseError(GimbapParseError::HeaderName(s)) => {
                let rendered = s.render();
                concat("Failed to parse the following into a header name: ", rendered.as_str())
            },
            GimbapError::ParseError(GimbapParseError::HeaderValue(s)) => {
                let rendered = s.render();
                concat("Failed to parse the following into a header value: ", rendered.as_str())
            },
        }
    }
}

} // verus!
