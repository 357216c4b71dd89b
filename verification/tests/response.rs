use gimbap::common::Headers;
use gimbap::response::Response;

#[test]
fn test_default_response() {
    let response = Response::default();
    assert_eq!(response.status_code(), 200);
    assert!(response.body.is_none());
    assert_eq!(response.headers, Headers::default());
}

#[test]
fn test_api_chaining() {
    let mut response = Response::new();
    response
        .status(404)
        .unwrap()
        .header("X-Test", "True")
        .send(b"Not Found");

    assert_eq!(response.status_code(), 404);
    assert_eq!(response.body(), Some("Not Found".as_bytes()));
    assert_eq!(response.headers.get_str("X-Test").unwrap()[0], "True");
}

#[test]
fn invalid_status_leaves_the_response_unchanged() {
    let mut response = Response::new();
    assert!(response.status(42).is_err());
    assert!(response.status(1000).is_err());
    assert_eq!(response.status_code(), 200);
    assert!(response.status(999).is_ok());
    assert_eq!(response.status_code(), 999);
}

#[test]
fn header_sanitizes_and_refuses_invalid_input() {
    let mut response = Response::new();
    response.header("X-In\r\njected", "a\r\nb, c");
    assert_eq!(
        response.headers.get_str("x-injected").unwrap().values(),
        &vec!["ab".to_string(), "c".to_string()]
    );
    response.header("bad name", "v");
    response.header("x-ok", "\u{100}");
    assert!(response.headers.get_str("bad name").is_none());
    assert!(response.headers.get_str("x-ok").is_none());
    response.header("X-Injected", "d");
    assert_eq!(response.headers.get_str("X-INJECTED").unwrap().len(), 3);
}

#[test]
fn send_json_sets_type_and_body() {
    let mut response = Response::new();
    response.send_json(br#"{"msg":"Hello"}"#);
    assert_eq!(
        response.headers.get_str("content-type").unwrap()[0],
        "application/json"
    );
    assert_eq!(response.body(), Some(&br#"{"msg":"Hello"}"#[..]));
}

#[test]
fn response_fields_hold_status_headers_and_body() {
    let mut response = Response::new();
    response.status(201).unwrap().header("X-Id", "7").send(b"ok");
    assert_eq!(response.status_code.as_u16(), 201);
    assert_eq!(response.headers.len(), 1);
    assert_eq!(response.body.as_deref(), Some(&b"ok"[..]));
}
