use gimbap::common::{HttpMethod, MediaType};
use gimbap::request::parser::{
    body_data_checked, body_data_from_bytes, body_limit, decoders_for, multipart_in_bounds, urlencoded_in_bounds, size_hint_of, MAX_BODY_SIZE, parse_connection, parse_headers,
    start_line_supported, BodyData, ContentEncoding, ContentLength, FormDataValue, HttpVersion,
    MissingField, RequestError,
};
use gimbap::text::IntErrorKind;

/// Splits a request head as a reader would: the first line with its line
/// ending, then the remaining lines without theirs.
fn split_head(text: &str) -> (Option<String>, Vec<String>) {
    match text.find('\n') {
        Some(i) => (
            Some(text[..=i].to_string()),
            text[i + 1..].lines().map(String::from).collect(),
        ),
        None if text.is_empty() => (None, Vec::new()),
        None => (Some(text.to_string()), Vec::new()),
    }
}

fn header_lines(text: &str) -> Vec<String> {
    text.lines().map(String::from).collect()
}

#[test]
fn test_request_parser() {
    let request = "GET / HTTP/1.1\r\nHost: example.com\r\n\r\n";
    let (first, rest) = split_head(request);
    let result = parse_connection(first.as_deref(), &rest);
    let request = result.unwrap();
    assert_eq!(request.method, HttpMethod::GET);
    assert_eq!(request.path, "/");
    assert_eq!(request.version, HttpVersion::V1_1);
}

#[test]
fn test_parse_headers() {
    let headers = "Host: example.com\r\nUser-Agent: Mozilla/5.0\r\nContent-Type: text/plain\r\nContent-Length: 12\r\n\r\n";
    let result = parse_headers(&header_lines(headers));
    let (headers, headers_metadata) = result.unwrap();
    assert_eq!(headers.get("host").unwrap(), &["example.com"]);
    assert_eq!(headers.get("user-agent").unwrap(), &["Mozilla/5.0"]);
    assert_eq!(
        headers_metadata
            .body_metadata
            .as_ref()
            .unwrap()
            .content_type
            .as_str(),
        mime::TEXT_PLAIN.as_ref()
    );
    assert_eq!(
        headers_metadata
            .body_metadata
            .as_ref()
            .unwrap()
            .content_length,
        ContentLength::Fixed(12)
    );
    assert_eq!(
        headers_metadata.host,
        url::Host::parse("example.com").unwrap().to_string()
    );
}

#[test]
fn test_transfer_encoding_chunked() {
    let headers =
        "Host: example.com\r\nContent-Type: text/plain\r\nTransfer-Encoding: chunked\r\n\r\n";
    let result = parse_headers(&header_lines(headers));
    let (headers, headers_metadata) = result.unwrap();
    assert_eq!(headers.get("transfer-encoding").unwrap(), &["chunked"]);
    assert_eq!(
        headers_metadata
            .body_metadata
            .as_ref()
            .unwrap()
            .content_length,
        ContentLength::Chunked
    );
}

#[test]
fn test_transfer_encoding_identity() {
    let headers =
        "Host: example.com\r\nContent-Type: text/plain\r\nTransfer-Encoding: identity\r\n\r\n";
    let result = parse_headers(&header_lines(headers));
    assert!(result.is_err());
    let error = result.unwrap_err();
    let expected_error_message = "transfer-encoding `identity` is not supported yet";
    assert_eq!(error.message(), expected_error_message);
}

#[test]
fn test_into_body_data_text_plain() {
    let text = "Hello, World!";
    let body_data = body_data_from_bytes(
        MediaType::parse("text/plain").unwrap(),
        None,
        text.as_bytes().to_vec(),
    )
    .unwrap();
    match body_data {
        BodyData::Text(data) => assert_eq!(data, text),
        _ => panic!("Expected BodyData::Text"),
    }
}

#[test]
fn test_into_body_data_x_www_form_urlencoded() {
    let form_data = "key1=value1&key2=value2";
    let body_data = body_data_from_bytes(
        MediaType::parse("application/x-www-form-urlencoded").unwrap(),
        None,
        form_data.as_bytes().to_vec(),
    )
    .unwrap();
    match body_data {
        BodyData::FormData(data) => {
            let expected = [("key1", "value1"), ("key2", "value2")];
            assert_eq!(data.len(), expected.len(), "HashMaps have different lengths");
            for (key, value) in expected {
                assert!(data.contains_key(key));
                let val1 = match data.get(key) {
                    Some(FormDataValue::Text(v)) => v,
                    _ => panic!(""),
                };
                assert_eq!(val1, value);
            }
        }
        _ => panic!("Expected BodyData::FormData"),
    }
}

#[test]
fn test_into_body_data_multipart_form_data() {
    let boundary = "TestBoundary123";
    let multipart_text = [
        "--TestBoundary123\r\n",
        "Content-Disposition: form-data; name=\"key1\"\r\n",
        "\r\n",
        "value1\r\n",
        "--TestBoundary123\r\n",
        "Content-Disposition: form-data; name=\"key2\"; filename=\"file.txt\"\r\n",
        "Content-Type: text/plain\r\n",
        "\r\n",
        "file content\r\n",
        "--TestBoundary123--\r\n",
    ]
    .concat();
    let multipart_data = multipart_text.as_bytes();

    let body_data = body_data_from_bytes(
        MediaType::parse("multipart/form-data").unwrap(),
        Some(boundary.to_string()),
        multipart_data.to_vec(),
    )
    .unwrap();
    match body_data {
        BodyData::FormData(data) => {
            assert_eq!(data.len(), 2);
            match data.get("key1") {
                Some(FormDataValue::Text(text)) => assert_eq!(text, "value1"),
                _ => panic!("Expected text value for key1"),
            }
            match data.get("key2") {
                Some(FormDataValue::File {
                    filename,
                    content_type,
                    data,
                }) => {
                    assert_eq!(filename, "file.txt");
                    assert_eq!(content_type, "text/plain");
                    assert_eq!(data, b"file content");
                }
                _ => panic!("Expected file value for key2"),
            }
        }
        _ => panic!("Expected BodyData::FormData"),
    }
}

fn head_error(text: &str) -> RequestError {
    let (first, rest) = split_head(text);
    parse_connection(first.as_deref(), &rest).unwrap_err()
}

#[test]
fn connection_errors_name_their_cause() {
    assert_eq!(head_error("").message(), "Unexpected end of stream");
    assert_eq!(head_error("get / HTTP/1.1\r\n\r\n").message(), "Invalid request line");
    assert_eq!(head_error("GET / HTTP/1.1\r\n\r\n").message(), "`host` must be initialized");
    assert!(matches!(
        head_error("GET / HTTP/1.1\r\nHost: exa mple.com\r\n\r\n"),
        RequestError::InvalidHost(_)
    ));
    assert!(matches!(
        head_error("GET x HTTP/1.1\r\nHost: example.com:99999\r\n\r\n"),
        RequestError::InvalidHost(_)
    ));
}

#[test]
fn connection_reads_method_target_and_url() {
    let (first, rest) = split_head("PATCH /a/b?x=1 HTTP/1.1 \r\nHost: Example.COM\r\n\r\n");
    let request = parse_connection(first.as_deref(), &rest).unwrap();
    assert_eq!(request.method, HttpMethod::PATCH);
    assert_eq!(request.path, "/a/b?x=1");
    assert_eq!(request.header_metadata.host, "example.com");
    assert_eq!(request.url.as_ref().unwrap().path(), "/a/b");
    assert_eq!(request.url.as_ref().unwrap().query(), Some("x=1"));
    let (first, rest) = split_head("BREW /pot HTTP/1.1\r\nHost: example.com\r\n\r\n");
    let request = parse_connection(first.as_deref(), &rest).unwrap();
    assert_eq!(request.method, HttpMethod::Other("BREW".to_string()));
}

#[test]
fn start_line_version_check() {
    assert!(start_line_supported("GET / HTTP/1.1\r\n"));
    assert!(!start_line_supported("GET / HTTP/1.0\r\n"));
    assert!(start_line_supported("not a request line"));
}

#[test]
fn header_errors_name_their_cause() {
    let err = |text: &str| parse_headers(&header_lines(text)).unwrap_err();
    assert_eq!(
        err("Host: a\r\nContent-Length: 12x\r\n").message(),
        "invalid digit found in string"
    );
    assert!(matches!(
        err("Host: a\r\nContent-Length: 99999999999999999999\r\n"),
        RequestError::InvalidContentLength(IntErrorKind::PosOverflow)
    ));
    assert_eq!(
        err("Host: a\r\nContent-Type: text/plain\r\nContent-Encoding: gzip, rot13\r\n").message(),
        "Unknown content encoding: rot13"
    );
    assert!(matches!(
        err("Host: a\r\nContent-Type: nonsense\r\n"),
        RequestError::InvalidContentType(_)
    ));
    assert_eq!(
        err("Host: a\r\nContent-Length: 3\r\n").message(),
        "`content_type` must be initialized"
    );
    assert!(matches!(
        err("Host: a\r\nContent-Type: text/plain\r\n"),
        RequestError::MissingField(MissingField::ContentLength)
    ));
    assert_eq!(
        err("Host: a\r\nContent-Length: 3\r\n").message(),
        "`content_type` must be initialized"
    );
}

#[test]
fn headers_skip_bad_lines_and_stop_at_the_blank_line() {
    let text = "Host: example.com\r\nno colon here\r\nBad Name: x\r\nX-Ctl: a\u{1}b\r\nAccept: text/html, nonsense\r\nAuthorization: Basic abc\r\nAuthorization: nope\r\nX-Multi: a, b\r\nx-multi: c\r\n\r\nAfter: blank\r\n";
    let (headers, metadata) = parse_headers(&header_lines(text)).unwrap();
    assert!(headers.get("no colon here").is_none());
    assert!(headers.get("bad name").is_none());
    assert!(headers.get("x-ctl").is_none());
    assert!(headers.get("accept").is_none());
    assert_eq!(headers.get("authorization").unwrap(), &["Basic abc"]);
    assert_eq!(headers.get("x-multi").unwrap(), &["a", "b", "c"]);
    assert!(headers.get("after").is_none());
    assert!(metadata.body_metadata.is_none());
    assert!(!metadata.is_secure);
    assert_eq!(headers.len(), 3);
}

#[test]
fn headers_collect_body_metadata() {
    let text = "Host: example.com\r\nContent-Type: multipart/form-data\r\nContent-Length: 0\r\nContent-Encoding: gzip, br\r\nBoundary: XyZ\r\n";
    let (_, metadata) = parse_headers(&header_lines(text)).unwrap();
    let body = metadata.body_metadata.unwrap();
    assert_eq!(body.content_type.essence_str(), "multipart/form-data");
    assert_eq!(body.content_length, ContentLength::Fixed(0));
    assert_eq!(
        body.content_encoding,
        Some(vec![ContentEncoding::Gzip, ContentEncoding::Br])
    );
    assert_eq!(body.boundary.as_deref(), Some("XyZ"));
}

#[test]
fn decoders_run_in_reverse_and_refuse_unsupported_codings() {
    assert_eq!(decoders_for(&None).unwrap(), vec![]);
    assert_eq!(
        decoders_for(&Some(vec![ContentEncoding::Gzip, ContentEncoding::Br])).unwrap(),
        vec![ContentEncoding::Br, ContentEncoding::Gzip]
    );
    let err = decoders_for(&Some(vec![ContentEncoding::Dcb, ContentEncoding::Gzip])).unwrap_err();
    assert_eq!(err.message(), "Dcb encoding not supported yet");
    let err = decoders_for(&Some(vec![ContentEncoding::Compress])).unwrap_err();
    assert_eq!(err.message(), "Compress encoding not supported yet");
}

#[test]
fn content_encodings_parse_exactly() {
    assert_eq!(ContentEncoding::from_str("zstd").unwrap(), ContentEncoding::Zstd);
    assert_eq!(ContentEncoding::from_str("dcz").unwrap(), ContentEncoding::Dcz);
    assert_eq!(
        ContentEncoding::from_str("GZIP").unwrap_err(),
        "Unknown content encoding: GZIP"
    );
}

#[test]
fn body_limits_and_hints() {
    assert_eq!(body_limit(Some(5)), 5);
    assert_eq!(body_limit(None), MAX_BODY_SIZE);
    assert_eq!(MAX_BODY_SIZE, 10 * 1024 * 1024);
    assert_eq!(size_hint_of(ContentLength::Fixed(7)), Some(7));
    assert_eq!(size_hint_of(ContentLength::Chunked), None);
}

fn form(data: &[u8]) -> Result<BodyData, RequestError> {
    body_data_from_bytes(
        MediaType::parse("application/x-www-form-urlencoded").unwrap(),
        None,
        data.to_vec(),
    )
}

#[test]
fn urlencoded_bodies() {
    match form(b"a=1&b=x=y").unwrap() {
        BodyData::FormData(data) => {
            assert_eq!(data.len(), 2);
            assert!(matches!(data.get("a"), Some(FormDataValue::Text(v)) if v == "1"));
            assert!(matches!(data.get("b"), Some(FormDataValue::Text(v)) if v == "x=y"));
        }
        _ => panic!("expected form data"),
    }
    assert_eq!(form(b"").unwrap_err().message(), "Invalid form data");
    assert_eq!(form(b"a=1&b").unwrap_err().message(), "Invalid form data");
    match form(b"k=\xff").unwrap() {
        BodyData::FormData(data) => {
            assert!(matches!(data.get("k"), Some(FormDataValue::Text(v)) if v == "\u{fffd}"));
        }
        _ => panic!("expected form data"),
    }
}

#[test]
fn urlencoded_offsets_after_the_first_pair_are_taken_from_the_start() {
    // The second `&` is found 5 bytes into the rest, and the pair is cut at
    // byte 5 of the whole text: "b", which has no `=`.
    assert_eq!(form(b"a=1&bb=22&c=3").unwrap_err().message(), "Invalid form data");
    // A trailing `&` leaves the whole text as the last pair.
    match form(b"a=1&").unwrap() {
        BodyData::FormData(data) => {
            assert_eq!(data.len(), 1);
            assert!(matches!(data.get("a"), Some(FormDataValue::Text(v)) if v == "1&"));
        }
        _ => panic!("expected form data"),
    }
    // Here the cut would end before it starts.
    assert!(!urlencoded_in_bounds(b"a=1&b=2&c=3"));
    assert!(urlencoded_in_bounds(b"a=1&bb=22&c=3"));
    assert!(urlencoded_in_bounds(b"key1=value1&key2=value2"));
    assert!(body_data_checked(
        MediaType::parse("application/x-www-form-urlencoded").unwrap(),
        None,
        b"a=1&b=2&c=3".to_vec()
    )
    .is_none());
}

#[test]
fn checked_body_data_refuses_only_out_of_bounds_bodies() {
    let multipart = MediaType::parse("multipart/form-data").unwrap();
    assert!(body_data_checked(multipart.clone(), Some("B".to_string()), b"x--B--\r\n".to_vec()).is_none());
    match body_data_checked(multipart.clone(), Some("B".to_string()), b"--B--\r\n".to_vec()) {
        Some(Ok(BodyData::FormData(d))) => assert_eq!(d.len(), 0),
        _ => panic!("expected empty form data"),
    }
    match body_data_checked(multipart, None, Vec::new()) {
        Some(Err(e)) => assert_eq!(e.message(), "Missing boundary for multipart"),
        _ => panic!("expected the missing boundary"),
    }
    match body_data_checked(MediaType::parse("text/plain").unwrap(), None, b"hi".to_vec()) {
        Some(Ok(BodyData::Text(t))) => assert_eq!(t, "hi"),
        _ => panic!("expected text"),
    }
}

fn multipart(boundary: Option<&str>, data: &[u8]) -> Result<BodyData, RequestError> {
    body_data_from_bytes(
        MediaType::parse("multipart/form-data").unwrap(),
        boundary.map(String::from),
        data.to_vec(),
    )
}

#[test]
fn multipart_errors() {
    assert_eq!(multipart(None, b"").unwrap_err().message(), "Missing boundary for multipart");
    assert_eq!(
        multipart(Some("B"), b"--B\r\nname: x\r\n").unwrap_err().message(),
        "multipart: missing end boundary"
    );
    assert_eq!(
        multipart(Some("B"), b"--B\r\nno separator\r\n--B--\r\n").unwrap_err().message(),
        "missing header/body seperator"
    );
    assert_eq!(
        multipart(Some("B"), b"--B\r\nContent-Type: x\r\n\r\nv\r\n--B--\r\n").unwrap_err().message(),
        "missing 'name' in Content-Disposition"
    );
    assert!(matches!(
        multipart(Some("B"), b"--B\r\nContent-Disposition: form-data; name=k\r\n\r\n\xff\r\n--B--\r\n"),
        Err(RequestError::InvalidUtf8(_))
    ));
    assert!(matches!(multipart(Some("B"), b""), Ok(BodyData::FormData(d)) if d.len() == 0));
    assert!(!multipart_in_bounds(b"x--B--\r\n", "B"));
    assert!(multipart_in_bounds(b"--B--\r\n", "B"));
}

#[test]
fn multipart_parameters_are_unquoted_and_decoded() {
    let data = b"--B\r\nContent-Disposition: form-data; name=\"a%22b%0Ac\"; filename=\"f.bin\"\r\n\r\n\x00\x01\r\n--B--\r\ntrailing";
    match multipart(Some("B"), data).unwrap() {
        BodyData::FormData(fields) => match fields.get("a\"b\nc") {
            Some(FormDataValue::File { filename, content_type, data }) => {
                assert_eq!(filename, "f.bin");
                assert_eq!(content_type, "application/octet-stream");
                assert_eq!(data, &vec![0u8, 1u8]);
            }
            _ => panic!("expected a file"),
        },
        _ => panic!("expected form data"),
    }
}

#[test]
fn text_and_other_bodies() {
    let err = body_data_from_bytes(MediaType::parse("text/plain").unwrap(), None, vec![0xff]).unwrap_err();
    assert_eq!(err.message(), "stream did not contain valid UTF-8");
    match body_data_from_bytes(MediaType::parse("Image/PNG").unwrap(), None, vec![1, 2]).unwrap() {
        BodyData::Other { content_type, data } => {
            assert_eq!(content_type.essence_str(), "image/png");
            assert_eq!(data, vec![1, 2]);
        }
        _ => panic!("expected other"),
    }
}

#[test]
fn malformed_header_lines_are_skipped_without_effect() {
    let base = "Host: example.com\r\nContent-Type: text/plain\r\nContent-Length: 3\r\nX-A: 1\r\n\r\n";
    let (h0, m0) = parse_headers(&header_lines(base)).unwrap();
    for bad in [
        "no colon here",
        "Bad Name: x",
        "X-Ctl: a\u{1}b",
        "Authorization: nope",
        "Accept: nonsense",
    ] {
        let text = format!("Host: example.com\r\n{bad}\r\nContent-Type: text/plain\r\nContent-Length: 3\r\nX-A: 1\r\n\r\n");
        let (h1, m1) = parse_headers(&header_lines(&text)).unwrap();
        assert_eq!(h1.len(), h0.len());
        for name in ["host", "content-type", "content-length", "x-a"] {
            assert_eq!(h1.get(name), h0.get(name));
        }
        assert_eq!(m1.host, m0.host);
        let (b0, b1) = (m0.body_metadata.as_ref().unwrap(), m1.body_metadata.as_ref().unwrap());
        assert_eq!(b1.content_type.as_str(), b0.content_type.as_str());
        assert_eq!(b1.content_length, b0.content_length);
    }
}

#[test]
fn a_target_the_url_parser_refuses_still_parses() {
    let (first, rest) = split_head("GET :99999 HTTP/1.1\r\nHost: example.com\r\n\r\n");
    let request = parse_connection(first.as_deref(), &rest).unwrap();
    assert_eq!(request.path, ":99999");
    assert!(request.url.is_none());
}
