use gimbap::common::HttpMethod;
use gimbap::map::StrMap;
use gimbap::request::parser::{HeaderMetadata, HttpVersion, Request as RawRequest, Url};
use gimbap::request::{Params, Query, Request};

fn mock_raw_request(url_str: &str) -> RawRequest {
    RawRequest {
        method: HttpMethod::GET,
        path: String::from("/"),
        url: Some(Url::parse(url_str).unwrap()),
        version: HttpVersion::V1_1,
        headers: StrMap::new(),
        header_metadata: HeaderMetadata {
            host: url::Host::parse("localhost").unwrap().to_string(),
            body_metadata: None,
            is_secure: false,
        },
    }
}

#[test]
fn test_query_parsing() {
    let raw = mock_raw_request(
        "http://localhost/path?name=gimbap&tag=rust&tag=web&empty=&msg=hello%20world",
    );
    let query = Query::new(&raw);

    assert_eq!(query.get("name").unwrap(), &vec!["gimbap".to_string()]);

    let tags = query.get("tag").unwrap();
    assert_eq!(tags.len(), 2);
    assert!(tags.contains(&"rust".to_string()));
    assert!(tags.contains(&"web".to_string()));

    assert_eq!(query.get("msg").unwrap(), &vec!["hello world".to_string()]);

    assert_eq!(query.get("empty").unwrap(), &vec!["".to_string()]);

    assert!(query.get("invalid").is_none());
}

#[test]
fn test_request_segments_parsing() {
    let raw = mock_raw_request("http://localhost//users///123/?q=ignore");
    let req = Request::new(raw);

    assert_eq!(req.segments, vec!["users", "123"]);
}

#[test]
fn test_params_extraction() {
    let route_segs = vec![
        "users".to_string(),
        ":id".to_string(),
        "posts".to_string(),
        ":post_id".to_string(),
    ];
    let req_segs = vec![
        "users".to_string(),
        "42".to_string(),
        "posts".to_string(),
        "999".to_string(),
    ];

    let params = Params::new(&route_segs, &req_segs);

    assert_eq!(params.get("id"), Some("42"));
    assert_eq!(params.get("post_id"), Some("999"));
    assert!(params.get("users").is_none());
}

#[test]
fn query_keeps_values_in_order_and_defaults_missing_values() {
    let raw = mock_raw_request("http://localhost/?a=1&flag&a=2&b%20c=d%2Be");
    let query = Query::new(&raw);
    assert_eq!(query.get("a").unwrap(), &vec!["1".to_string(), "2".to_string()]);
    assert_eq!(query.get("flag").unwrap(), &vec!["".to_string()]);
    assert_eq!(query.get("b c").unwrap(), &vec!["d+e".to_string()]);
}

#[test]
fn query_without_query_string_is_empty() {
    let raw = mock_raw_request("http://localhost/users");
    let query = Query::new(&raw);
    assert!(query.get("").is_none());
    assert!(query.get("users").is_none());
}

#[test]
fn request_new_reads_path_and_starts_without_params_or_body() {
    let raw = mock_raw_request("http://localhost/a/b/../c?x=1");
    let req = Request::new(raw);
    assert_eq!(req.path(), "/a/c");
    assert_eq!(req.segments, vec!["a", "c"]);
    assert_eq!(req.method, HttpMethod::GET);
    assert_eq!(req.query().get("x").unwrap(), &vec!["1".to_string()]);
    assert!(req.params().get("x").is_none());
    assert!(req.body().is_none());
}

#[test]
fn params_pair_up_to_the_shorter_list_and_later_bindings_win() {
    let route = vec![":a".to_string(), ":a".to_string(), ":b".to_string()];
    let req = vec!["1".to_string(), "2".to_string()];
    let params = Params::new(&route, &req);
    assert_eq!(params.get("a"), Some("2"));
    assert!(params.get("b").is_none());
}

#[test]
fn params_insert_then_get() {
    let mut params = Params::default();
    assert!(params.get("id").is_none());
    params.insert("id", "7");
    params.insert("id", "8");
    assert_eq!(params.get("id"), Some("8"));
}

#[test]
fn url_parse_gives_path_and_query() {
    let url = Url::parse("http://example.com/a%20b?c=d").unwrap();
    assert_eq!(url.path(), "/a%20b");
    assert_eq!(url.query(), Some("c=d"));
    assert!(Url::parse("not a url").is_err());
}

#[test]
fn request_without_url_has_no_segments_or_query() {
    let mut raw = mock_raw_request("http://localhost/a?b=c");
    raw.url = None;
    let query = Query::new(&raw);
    assert!(query.get("b").is_none());
    let req = Request::new(raw);
    assert_eq!(req.path(), "");
    assert!(req.segments.is_empty());
}
