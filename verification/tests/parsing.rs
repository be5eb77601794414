use zense::request::Error;
use zense::{Header, Method, Request, Uri};

#[test]
fn parses_minimal_request() {
    let req = Request::from_bytes(b"GET / HTTP/1.1\r\n\r\n").unwrap();
    assert_eq!(req.method, Method::Get);
    assert_eq!(req.uri.path, b"/".to_vec());
    assert!(req.uri.query.is_none());
    assert_eq!(req.headers.len(), 0);
    assert!(req.body.is_empty());
}

#[test]
fn parses_well_formed_path_unchanged() {
    let req = Request::from_bytes(b"GET /some/long-ish/pa_th.txt HTTP/1.1\r\n\r\n").unwrap();
    assert_eq!(req.uri.path, b"/some/long-ish/pa_th.txt".to_vec());
}

#[test]
fn short_buffers_are_incomplete_never_parser() {
    let full: &[u8] = b"GET /path HTTP/1.1\r\n";
    for n in 0..full.len() {
        let r = Request::from_bytes(&full[..n]);
        assert!(matches!(r, Err(Error::Incomplete)), "prefix of length {} misparsed", n);
    }
}

#[test]
fn truncated_header_section_is_incomplete() {
    assert!(matches!(
        Request::from_bytes(b"GET / HTTP/1.1\r\nHost: exam"),
        Err(Error::Incomplete)
    ));
    assert!(matches!(Request::from_bytes(b"GET / HTTP/1.1\r\n"), Err(Error::Incomplete)));
    assert!(matches!(Request::from_bytes(b"GET / HTTP/1.1\r\n\r"), Err(Error::Incomplete)));
}

#[test]
fn malformed_request_line_is_parser_error() {
    assert!(matches!(Request::from_bytes(b"GET  /x HTTP/1.1\r\n\r\n"), Err(Error::Parser(_))));
    assert!(matches!(Request::from_bytes(b"GET /x HTTP/1.0\r\n\r\n"), Err(Error::Parser(_))));
    assert!(matches!(Request::from_bytes(b"GET /x\rHTTP/1.1\r\n\r\n"), Err(Error::Parser(_))));
}

#[test]
fn malformed_header_line_is_parser_error() {
    assert!(matches!(
        Request::from_bytes(b"GET / HTTP/1.1\r\nNo colon here\r\n\r\n"),
        Err(Error::Parser(_))
    ));
}

#[test]
fn unknown_method_is_component_error() {
    assert!(matches!(Request::from_bytes(b"BREW /x HTTP/1.1\r\n\r\n"), Err(Error::Component(_))));
}

#[test]
fn oversized_decoded_path_is_security_error() {
    let mut raw = b"GET /".to_vec();
    raw.extend(std::iter::repeat(b'a').take(5000));
    raw.extend(b" HTTP/1.1\r\n\r\n");
    assert!(matches!(Request::from_bytes(&raw), Err(Error::Security(_))));
}

#[test]
fn path_at_the_size_bound_is_accepted() {
    let mut raw = b"GET /".to_vec();
    raw.extend(std::iter::repeat(b'a').take(4095));
    raw.extend(b" HTTP/1.1\r\n\r\n");
    let req = Request::from_bytes(&raw).unwrap();
    assert_eq!(req.uri.path.len(), 4096);
}

#[test]
fn traversal_in_raw_path_is_security_error() {
    assert!(matches!(
        Request::from_bytes(b"GET /../etc/passwd HTTP/1.1\r\n\r\n"),
        Err(Error::Security(_))
    ));
}

#[test]
fn headers_are_parsed_case_insensitively() {
    let req =
        Request::from_bytes(b"GET / HTTP/1.1\r\nHOST: example.com\r\naCCept: text/html\r\n\r\n")
            .unwrap();
    assert_eq!(req.headers.get(Header::Host).unwrap(), &b"example.com".to_vec());
    assert_eq!(req.headers.get(Header::Accept).unwrap(), &b"text/html".to_vec());
}

#[test]
fn unrecognized_headers_are_dropped_silently() {
    let req = Request::from_bytes(b"GET / HTTP/1.1\r\nX-Custom: hi\r\nHost: h\r\n\r\n").unwrap();
    assert_eq!(req.headers.len(), 1);
    assert_eq!(req.headers.get(Header::Host).unwrap(), &b"h".to_vec());
}

#[test]
fn non_utf8_header_values_are_dropped_silently() {
    let req = Request::from_bytes(b"GET / HTTP/1.1\r\nHost: \xff\xfe\r\nAccept: ok\r\n\r\n")
        .unwrap();
    assert!(req.headers.get(Header::Host).is_none());
    assert_eq!(req.headers.get(Header::Accept).unwrap(), &b"ok".to_vec());
}

#[test]
fn header_values_are_trimmed() {
    let req = Request::from_bytes(b"GET / HTTP/1.1\r\nHost:   spaced out  \r\n\r\n").unwrap();
    assert_eq!(req.headers.get(Header::Host).unwrap(), &b"spaced out".to_vec());
}

#[test]
fn body_is_the_remainder_after_the_blank_line() {
    let req = Request::from_bytes(b"POST /submit HTTP/1.1\r\nHost: h\r\n\r\nhello body").unwrap();
    assert_eq!(req.method, Method::Post);
    assert_eq!(req.body, b"hello body".to_vec());
}

#[test]
fn query_is_split_off_the_path() {
    let req = Request::from_bytes(b"GET /p?a=1&b=2&a=3 HTTP/1.1\r\n\r\n").unwrap();
    assert_eq!(req.uri.path, b"/p".to_vec());
    let q = req.uri.query.as_ref().unwrap();
    assert_eq!(q.get(b"b").unwrap(), &b"2".to_vec());
    assert_eq!(q.get_all(b"a"), vec![b"1".to_vec(), b"3".to_vec()]);
    assert!(q.get(b"missing").is_none());
}

#[test]
fn query_pair_without_equals_has_empty_value() {
    let u = Uri::parse(b"/p?flag&k=v");
    let q = u.query.as_ref().unwrap();
    assert_eq!(q.get(b"flag").unwrap(), &b"".to_vec());
    assert_eq!(q.get(b"k").unwrap(), &b"v".to_vec());
}

#[test]
fn fluent_setters_build_requests() {
    let req = Request::new()
        .method(Method::Put)
        .uri(Uri::parse(b"/x"))
        .header(Header::Accept, b"text/plain".to_vec())
        .body(b"data".to_vec());
    assert_eq!(req.method, Method::Put);
    assert_eq!(req.uri.path, b"/x".to_vec());
    assert_eq!(req.headers.get(Header::Accept).unwrap(), &b"text/plain".to_vec());
    assert_eq!(req.body, b"data".to_vec());
}

#[test]
fn default_request_is_get_root() {
    let req = Request::default();
    assert_eq!(req.method, Method::Get);
    assert_eq!(req.uri.path, b"/".to_vec());
}
