use gimbap::common::{HeaderName, HeaderValue, Headers, HttpMethod, MediaType, StatusCode};
use gimbap::error::{GimbapError, GimbapParseError, ParseSource};
use gimbap::text::{find_subslice, parse_u64_str, replace_str, IntErrorKind};

#[test]
fn header_names_are_trimmed_lowercased_and_checked() {
    assert_eq!(HeaderName::new("  X-Test \t").as_str(), "x-test");
    assert_eq!(HeaderName::parse(" Content-Type ").unwrap().as_str(), "content-type");
    assert!(HeaderName::parse("bad name").is_none());
    assert!(HeaderName::parse("").is_none());
    assert!(HeaderName::parse("a,b").is_some());
    assert_eq!(HeaderName::parse("X-Test").unwrap(), HeaderName::new("x-test"));
}

#[test]
fn header_name_errors_render_the_input() {
    let err = HeaderName::from_str("bad name").unwrap_err();
    assert!(matches!(
        &err,
        GimbapError::ParseError(GimbapParseError::HeaderName(ParseSource::Text(t))) if t == "bad name"
    ));
    assert_eq!(
        err.message(),
        "Failed to parse the following into a header name: \"bad name\""
    );
}

#[test]
fn header_values_split_trim_and_validate() {
    let v = HeaderValue::parse(" a , ,b,, c ").unwrap();
    assert_eq!(v.values(), &vec!["a".to_string(), "b".to_string(), "c".to_string()]);
    assert!(HeaderValue::parse("ok, bad\nvalue").is_none());
    assert!(HeaderValue::parse("").unwrap().is_empty());
    let n = HeaderValue::new(&[" x ", "y"]);
    assert_eq!(n[0], "x");
    assert_eq!(n[1], "y");
}

#[test]
fn header_value_errors_render_the_input() {
    let err = HeaderValue::from_str("a\r\nb").unwrap_err();
    assert_eq!(
        err.message(),
        "Failed to parse the following into a header value: \"a\\r\\nb\""
    );
    let bad = vec!["ok".to_string(), "no\u{7f}".to_string()];
    let err = HeaderValue::try_from_vec(bad.clone()).unwrap_err();
    assert_eq!(
        err.message(),
        "Failed to parse the following into a header value: [\"ok\", \"no\\u{7f}\"]"
    );
    match HeaderValue::parse_vec(bad.clone()) {
        Err(v) => assert_eq!(v, bad),
        Ok(_) => panic!("expected the values back"),
    }
}

#[test]
fn headers_append_and_look_up_case_insensitively() {
    let mut headers = Headers::default();
    assert!(headers.get_str("x").is_none());
    headers.append(HeaderName::new("X-A"), HeaderValue::new(&["1"]));
    headers.append(HeaderName::new("x-a"), HeaderValue::new(&[" 2 "]));
    assert_eq!(headers.get_str(" X-A ").unwrap().values(), &vec!["1".to_string(), "2".to_string()]);
    let mut other = Headers::default();
    assert_ne!(headers, other);
    other.append(HeaderName::new("x-a"), HeaderValue::new(&["1", "2"]));
    assert_eq!(headers, other);
}

#[test]
fn special_header_values() {
    let key = |k: &str| HeaderName::new(k);
    assert!(Headers::is_special_valid(&key("authorization"), "Bearer token"));
    assert!(!Headers::is_special_valid(&key("authorization"), "token"));
    assert!(Headers::is_special_valid(&key("accept"), "text/html, application/json"));
    assert!(!Headers::is_special_valid(&key("accept"), ""));
    assert!(!Headers::is_special_valid(&key("accept"), "text/html, nonsense"));
    assert!(Headers::is_special_valid(&key("content-length"), "+42"));
    assert!(!Headers::is_special_valid(&key("content-length"), "-42"));
    assert!(Headers::is_special_valid(&key("x-anything"), ""));
}

#[test]
fn status_codes_are_bounded() {
    assert_eq!(StatusCode::from_u16(100).unwrap().as_u16(), 100);
    assert_eq!(StatusCode::from_u16(999).unwrap().as_u16(), 999);
    assert!(StatusCode::from_u16(99).is_err());
    assert!(StatusCode::from_u16(1000).is_err());
    assert_eq!(StatusCode::default().as_u16(), 200);
    assert_eq!(StatusCode::ok().as_u16(), 200);
    assert_eq!(StatusCode::not_found().as_u16(), 404);
    assert_eq!(StatusCode::method_not_allowed().as_u16(), 405);
    assert_eq!(StatusCode::internal_server_error().as_u16(), 500);
}

#[test]
fn methods_parse_exactly() {
    assert_eq!(HttpMethod::from_name("DELETE"), HttpMethod::DELETE);
    assert_eq!(HttpMethod::from_name("get"), HttpMethod::Other("get".to_string()));
    let parsed: HttpMethod = "HEAD".parse().unwrap();
    assert_eq!(parsed, HttpMethod::HEAD);
    let other: HttpMethod = "BREW".parse().unwrap();
    assert_eq!(other, HttpMethod::Other("BREW".to_string()));
    assert_eq!(HttpMethod::Other("X".to_string()).clone(), HttpMethod::Other("X".to_string()));
}

#[test]
fn media_types_parse_with_mime() {
    let m = MediaType::parse("Text/HTML; charset=utf-8").unwrap();
    assert_eq!(m.essence_str(), "text/html");
    assert!(MediaType::parse("html").is_err());
}

#[test]
fn subslices_are_found_at_their_first_occurrence() {
    assert_eq!(find_subslice(b"abcabc", b"bc"), Some(1));
    assert_eq!(find_subslice(b"abc", b"abcd"), None);
    assert_eq!(find_subslice(b"", b"a"), None);
}

#[test]
fn integer_error_messages() {
    assert_eq!(parse_u64_str("18446744073709551615"), Ok(u64::MAX));
    assert_eq!(parse_u64_str("18446744073709551616"), Err(IntErrorKind::PosOverflow));
    assert_eq!(parse_u64_str(""), Err(IntErrorKind::Empty));
    assert_eq!(parse_u64_str("+"), Err(IntErrorKind::InvalidDigit));
    assert_eq!(IntErrorKind::Empty.message(), "cannot parse integer from empty string");
    assert_eq!(IntErrorKind::PosOverflow.message(), "number too large to fit in target type");
}

#[test]
fn headers_lookup_by_name_count_and_list() {
    let mut headers = Headers::default();
    assert!(headers.is_empty());
    headers.append(HeaderName::new("X-A"), HeaderValue::new(&["1"]));
    headers.append(HeaderName::new("X-B"), HeaderValue::new(&["2", "3"]));
    headers.append(HeaderName::new("x-a"), HeaderValue::new(&["4"]));
    assert_eq!(headers.len(), 2);
    assert!(!headers.is_empty());
    assert!(headers.contains_key(&HeaderName::new("x-b")));
    assert!(!headers.contains_key(&HeaderName::new("x-c")));
    assert_eq!(
        headers.get(&HeaderName::new("X-A")).unwrap().values(),
        &vec!["1".to_string(), "4".to_string()]
    );
    let mut names = headers.names();
    names.sort();
    assert_eq!(names, vec!["x-a".to_string(), "x-b".to_string()]);
}

#[test]
fn replace_with_an_empty_pattern_surrounds_each_character() {
    assert_eq!(replace_str("ab", "", "x"), "xaxbx");
    assert_eq!(replace_str("", "", "x"), "x");
    assert_eq!(replace_str("a%22b", "%22", "\""), "a\"b");
}

#[test]
fn ascii_header_names_are_lowercased_in_place() {
    assert_eq!(HeaderName::new("Host").as_str(), "host");
    assert_eq!(HeaderName::new(" X-Forwarded-FOR ").as_str(), "x-forwarded-for");
    assert_eq!(HeaderName::new("ÄB").as_str(), "äb");
}
