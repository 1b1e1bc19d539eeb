//! Tests for response serialization and the string map.

use minihttp::request::Version;
use minihttp::response::{Response, StatusCode};
use minihttp::strmap::StringMap;

#[test]
fn response_round_trip_exact_bytes() {
    let mut headers = StringMap::new();
    headers.insert(String::from("X-Test"), String::from("1"));
    let resp = Response { status: StatusCode::ok(), headers, body: b"hello" };
    let out = resp.serialize(&Version::HTTP1_1);
    assert_eq!(out.as_slice(), b"HTTP/1.1 200 OK\r\nX-Test: 1\r\n\r\nhello".as_slice());
}

#[test]
fn status_ok_is_200() {
    let s = StatusCode::ok();
    assert_eq!(s.status_code, 200);
    assert_eq!(s.msg, "OK");
}

#[test]
fn empty_body_and_no_headers() {
    let resp = Response { status: StatusCode::ok(), headers: StringMap::new(), body: b"" };
    let out = resp.serialize(&Version::HTTP1_1);
    assert_eq!(out.as_slice(), b"HTTP/1.1 200 OK\r\n\r\n".as_slice());
}

#[test]
fn other_status_codes_serialize_in_decimal() {
    let resp = Response {
        status: StatusCode { status_code: 404, msg: "Not Found" },
        headers: StringMap::new(),
        body: b"",
    };
    let out = resp.serialize(&Version::HTTP1_1);
    assert_eq!(out.as_slice(), b"HTTP/1.1 404 Not Found\r\n\r\n".as_slice());
}

#[test]
fn single_digit_status_code() {
    let resp = Response {
        status: StatusCode { status_code: 7, msg: "Lucky" },
        headers: StringMap::new(),
        body: b"",
    };
    let out = resp.serialize(&Version::HTTP1_1);
    assert_eq!(out.as_slice(), b"HTTP/1.1 7 Lucky\r\n\r\n".as_slice());
}

#[test]
fn version_label_follows_the_request() {
    let resp = Response { status: StatusCode::ok(), headers: StringMap::new(), body: b"" };
    let out = resp.serialize(&Version::HTTP2);
    assert_eq!(out.as_slice(), b"HTTP/2 200 OK\r\n\r\n".as_slice());
}

#[test]
fn headers_serialize_in_insertion_order() {
    let mut headers = StringMap::new();
    headers.insert(String::from("B"), String::from("2"));
    headers.insert(String::from("A"), String::from("1"));
    let resp = Response { status: StatusCode::ok(), headers, body: b"" };
    let out = resp.serialize(&Version::HTTP1_1);
    assert_eq!(out.as_slice(), b"HTTP/1.1 200 OK\r\nB: 2\r\nA: 1\r\n\r\n".as_slice());
}

#[test]
fn body_bytes_are_written_raw() {
    let resp = Response {
        status: StatusCode::ok(),
        headers: StringMap::new(),
        body: &[0u8, 255u8, 10u8],
    };
    let out = resp.serialize(&Version::HTTP1_1);
    assert_eq!(out.as_slice(), [b"HTTP/1.1 200 OK\r\n\r\n".as_slice(), &[0u8, 255u8, 10u8]].concat().as_slice());
}

#[test]
fn map_insert_get_and_overwrite() {
    let mut m = StringMap::new();
    assert_eq!(m.len(), 0);
    assert!(m.get("k").is_none());
    m.insert(String::from("k"), String::from("v1"));
    assert_eq!(m.len(), 1);
    assert_eq!(m.get("k").unwrap().as_str(), "v1");
    m.insert(String::from("k"), String::from("v2"));
    assert_eq!(m.len(), 1);
    assert_eq!(m.get("k").unwrap().as_str(), "v2");
    m.insert(String::from("j"), String::from("w"));
    assert_eq!(m.len(), 2);
    assert_eq!(m.get("j").unwrap().as_str(), "w");
    assert_eq!(m.pair_at(0).0.as_str(), "k");
    assert_eq!(m.pair_at(1).0.as_str(), "j");
}
