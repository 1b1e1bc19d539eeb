//! Tests for request-head parsing.

use minihttp::error::Error;
use minihttp::request::{head_complete, Method, Request, Version};

fn parse_ok(head: &[u8]) -> Request {
    match Request::parse(head) {
        Ok(r) => r,
        Err(_) => panic!("expected a successful parse"),
    }
}

fn parse_err(head: &[u8]) -> Error {
    match Request::parse(head) {
        Ok(_) => panic!("expected a parse failure"),
        Err(e) => e,
    }
}

#[test]
fn full_scenario() {
    let req = parse_ok(b"GET /items?id=42 HTTP/1.1\r\nHost: example\r\n\r\n");
    assert_eq!(req.method, Method::GET);
    assert_eq!(req.uri.as_str(), "/items");
    assert_eq!(req.version, Version::HTTP1_1);
    assert_eq!(req.query_params.get("id").unwrap().as_str(), "42");
    assert_eq!(req.query_params.len(), 1);
    assert_eq!(req.headers.get("Host").unwrap().as_str(), "example");
    assert_eq!(req.headers.len(), 1);
    assert_eq!(req.path_params.len(), 0);
}

#[test]
fn uri_excludes_query_string() {
    let req = parse_ok(b"GET /a/b?x=1&y=2 HTTP/1.1\r\n\r\n");
    assert_eq!(req.uri.as_str(), "/a/b");
    assert!(!req.uri.contains('?'));
    assert_eq!(req.query_params.get("x").unwrap().as_str(), "1");
    assert_eq!(req.query_params.get("y").unwrap().as_str(), "2");
    assert_eq!(req.query_params.len(), 2);
}

#[test]
fn no_query_means_no_params() {
    let req = parse_ok(b"DELETE /items HTTP/1.1\r\n\r\n");
    assert_eq!(req.method, Method::DELETE);
    assert_eq!(req.uri.as_str(), "/items");
    assert_eq!(req.query_params.len(), 0);
}

#[test]
fn all_methods_accepted() {
    for (tok, m) in [
        ("GET", Method::GET),
        ("POST", Method::POST),
        ("PUT", Method::PUT),
        ("PATCH", Method::PATCH),
        ("OPTIONS", Method::OPTIONS),
        ("DELETE", Method::DELETE),
    ] {
        let head = format!("{} / HTTP/1.1\r\n\r\n", tok);
        let req = parse_ok(head.as_bytes());
        assert_eq!(req.method, m);
    }
}

#[test]
fn http2_accepted_as_label() {
    let req = parse_ok(b"GET / HTTP/2\r\n\r\n");
    assert_eq!(req.version, Version::HTTP2);
}

#[test]
fn unknown_method_is_parse_error() {
    let e = parse_err(b"BREW / HTTP/1.1\r\n\r\n");
    assert!(matches!(e, Error::ParsingError));
}

#[test]
fn unknown_version_is_parse_error() {
    let e = parse_err(b"GET / HTTP/9\r\n\r\n");
    assert!(matches!(e, Error::ParsingError));
}

#[test]
fn lowercase_method_rejected() {
    let e = parse_err(b"get / HTTP/1.1\r\n\r\n");
    assert!(matches!(e, Error::ParsingError));
}

#[test]
fn two_token_request_line_is_parse_error() {
    let e = parse_err(b"GET /\r\n\r\n");
    assert!(matches!(e, Error::ParsingError));
}

#[test]
fn extra_tokens_are_ignored() {
    let req = parse_ok(b"GET / HTTP/1.1 extra\r\n\r\n");
    assert_eq!(req.method, Method::GET);
    assert_eq!(req.uri.as_str(), "/");
    assert_eq!(req.version, Version::HTTP1_1);
}

#[test]
fn doubled_space_shifts_tokens() {
    let e = parse_err(b"GET  / HTTP/1.1\r\n\r\n");
    assert!(matches!(e, Error::ParsingError));
}

#[test]
fn header_without_colon_is_parse_error() {
    let e = parse_err(b"GET / HTTP/1.1\r\nNoColonHere\r\n\r\n");
    assert!(matches!(e, Error::ParsingError));
}

#[test]
fn query_pair_without_equals_is_parse_error() {
    let e = parse_err(b"GET /x?onlykey HTTP/1.1\r\n\r\n");
    assert!(matches!(e, Error::ParsingError));
}

#[test]
fn empty_query_string_is_parse_error() {
    let e = parse_err(b"GET /x? HTTP/1.1\r\n\r\n");
    assert!(matches!(e, Error::ParsingError));
}

#[test]
fn query_value_stops_at_second_equals() {
    let req = parse_ok(b"GET /x?a=b=c HTTP/1.1\r\n\r\n");
    assert_eq!(req.query_params.get("a").unwrap().as_str(), "b");
}

#[test]
fn duplicate_query_key_last_wins() {
    let req = parse_ok(b"GET /x?a=1&a=2 HTTP/1.1\r\n\r\n");
    assert_eq!(req.query_params.get("a").unwrap().as_str(), "2");
    assert_eq!(req.query_params.len(), 1);
}

#[test]
fn header_value_single_leading_space_stripped() {
    let req = parse_ok(b"GET / HTTP/1.1\r\nA: spaced\r\nB:bare\r\nC:  double\r\n\r\n");
    assert_eq!(req.headers.get("A").unwrap().as_str(), "spaced");
    assert_eq!(req.headers.get("B").unwrap().as_str(), "bare");
    assert_eq!(req.headers.get("C").unwrap().as_str(), " double");
}

#[test]
fn header_value_keeps_inner_colons() {
    let req = parse_ok(b"GET / HTTP/1.1\r\nDate: Mon, 1 Jan: 00:00\r\n\r\n");
    assert_eq!(req.headers.get("Date").unwrap().as_str(), "Mon, 1 Jan: 00:00");
}

#[test]
fn empty_header_value_accepted() {
    let req = parse_ok(b"GET / HTTP/1.1\r\nEmpty:\r\n\r\n");
    assert_eq!(req.headers.get("Empty").unwrap().as_str(), "");
}

#[test]
fn duplicate_header_key_last_wins() {
    let req = parse_ok(b"GET / HTTP/1.1\r\nK: one\r\nK: two\r\n\r\n");
    assert_eq!(req.headers.get("K").unwrap().as_str(), "two");
    assert_eq!(req.headers.len(), 1);
}

#[test]
fn header_keys_are_case_sensitive() {
    let req = parse_ok(b"GET / HTTP/1.1\r\nhost: a\r\nHost: b\r\n\r\n");
    assert_eq!(req.headers.get("host").unwrap().as_str(), "a");
    assert_eq!(req.headers.get("Host").unwrap().as_str(), "b");
    assert!(req.headers.get("HOST").is_none());
    assert_eq!(req.headers.len(), 2);
}

#[test]
fn invalid_utf8_in_header_line_is_encoding_error() {
    let e = parse_err(b"GET / HTTP/1.1\r\nH\xff: v\r\n\r\n");
    assert!(matches!(e, Error::Utf8Error(_)));
}

#[test]
fn invalid_utf8_in_request_line_is_encoding_error() {
    let e = parse_err(b"G\xffT / HTTP/1.1\r\n\r\n");
    assert!(matches!(e, Error::Utf8Error(_)));
}

#[test]
fn non_ascii_utf8_values_are_kept() {
    let req = parse_ok("GET / HTTP/1.1\r\nName: J\u{00fc}rgen\r\n\r\n".as_bytes());
    assert_eq!(req.headers.get("Name").unwrap().as_str(), "J\u{00fc}rgen");
}

#[test]
fn bare_newline_is_parse_error() {
    let e = parse_err(b"GET / HTTP/1.1\n\r\n");
    assert!(matches!(e, Error::ParsingError));
}

#[test]
fn missing_blank_line_is_parse_error() {
    let e = parse_err(b"GET / HTTP/1.1\r\nHost: x\r\n");
    assert!(matches!(e, Error::ParsingError));
}

#[test]
fn head_complete_tracks_the_blank_line() {
    let full: &[u8] = b"GET / HTTP/1.1\r\nHost: x\r\n\r\n";
    for n in 0..full.len() {
        assert!(!head_complete(&full[..n]));
    }
    assert!(head_complete(full));
}

#[test]
fn head_complete_on_malformed_line() {
    assert!(head_complete(b"GET / HTTP/1.1\n"));
    assert!(!head_complete(b"GET / HTTP/1.1\r"));
}

#[test]
fn error_from_underlying_failures() {
    let io_err = std::io::Error::new(std::io::ErrorKind::UnexpectedEof, "closed");
    assert!(matches!(Error::from(io_err), Error::IOError(_)));
    let utf8_err = match String::from_utf8(vec![0xff]) {
        Err(u) => u,
        Ok(_) => panic!("expected invalid utf-8"),
    };
    assert!(matches!(Error::from(utf8_err), Error::Utf8Error(_)));
}

#[test]
fn method_and_version_token_parsing() {
    assert_eq!(Method::parse("GET"), Some(Method::GET));
    assert_eq!(Method::parse("get"), None);
    assert_eq!(Method::parse(""), None);
    assert_eq!(Version::parse("HTTP/1.1"), Some(Version::HTTP1_1));
    assert_eq!(Version::parse("HTTP/2"), Some(Version::HTTP2));
    assert_eq!(Version::parse("HTTP/1.0"), None);
    assert_eq!(Version::HTTP1_1.as_str(), "HTTP/1.1");
    assert_eq!(Version::HTTP2.as_str(), "HTTP/2");
}
