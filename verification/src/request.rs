//! Parsing the request head: request line, target, query and header block.
//!
//! The head is a sequence of `\r\n`-terminated lines: the request line
//! first, then header lines, closed by an empty line.  The request line
//! splits on single spaces into exactly method, target and version; the
//! target splits on the first `?` into path and query string; the query
//! splits on `&` into `key=value` pairs; a header line splits on the first
//! `:` into key and value, with one leading space stripped from the value.
//! Every specification below is stated over the byte and character
//! sequences of the input, and `Request::parse` is proved to agree with
//! [`spec_parse`] exactly, on every input.

use vstd::prelude::*;
use vstd::slice::{slice_subrange, slice_to_vec};
use vstd::string::*;
use vstd::utf8::{decode_utf8, valid_utf8};

use crate::error::{Error, ErrorKind};
use crate::scan::{find_byte, find_char, find_first, lemma_find_first};
use crate::strmap::{spec_upsert, Entries, StringMap};

verus! {

/// Relies on `String::from_utf8`: it succeeds exactly on valid UTF-8 input
/// and returns the string those bytes encode, in vstd's model of UTF-8.
pub assume_specification[ String::from_utf8 ](bytes: Vec<u8>) -> (r: Result<
    String,
    std::string::FromUtf8Error,
>)
    ensures
        r is Ok <==> valid_utf8(bytes@),
        r matches Ok(s) ==> s@ == decode_utf8(bytes@),
;

/// What parsing a request yields: the request, or the error that ended
/// the connection.
pub type RequestParseResult = Result<Request, Error>;

/// The request methods the parser accepts, matched case-sensitively.
#[derive(Debug, Clone, Copy, PartialEq, Eq, Structural)]
pub enum Method {
    GET,
    POST,
    PUT,
    PATCH,
    OPTIONS,
    DELETE,
}

/// The token that denotes each method on the wire.
pub open spec fn method_token(m: Method) -> Seq<char> {
    match m {
        Method::GET => "GET"@,
        Method::POST => "POST"@,
        Method::PUT => "PUT"@,
        Method::PATCH => "PATCH"@,
        Method::OPTIONS => "OPTIONS"@,
        Method::DELETE => "DELETE"@,
    }
}

/// The method a request-line token denotes, if any.
pub open spec fn spec_method(t: Seq<char>) -> Option<Method> {
    if t == "GET"@ {
        Some(Method::GET)
    } else if t == "POST"@ {
        Some(Method::POST)
    } else if t == "PUT"@ {
        Some(Method::PUT)
    } else if t == "PATCH"@ {
        Some(Method::PATCH)
    } else if t == "OPTIONS"@ {
        Some(Method::OPTIONS)
    } else if t == "DELETE"@ {
        Some(Method::DELETE)
    } else {
        None
    }
}

impl Method {
    /// Parses a request-line token; an unrecognized token is no method,
    /// and the caller reports it as a parse error rather than aborting.
    pub fn parse(token: &str) -> (r: Option<Method>)
        ensures
            r == spec_method(token@),
    {
        let t = token.to_owned();
        if t == "GET".to_owned() {
            Some(Method::GET)
        } else if t == "POST".to_owned() {
            Some(Method::POST)
        } else if t == "PUT".to_owned() {
            Some(Method::PUT)
        } else if t == "PATCH".to_owned() {
            Some(Method::PATCH)
        } else if t == "OPTIONS".to_owned() {
            Some(Method::OPTIONS)
        } else if t == "DELETE".to_owned() {
            Some(Method::DELETE)
        } else {
            None
        }
    }
}

/// The protocol versions accepted as request-line tokens.  `HTTP2` is
/// accepted as a label only; no later negotiation happens.
#[derive(Debug, Clone, Copy, PartialEq, Eq, Structural)]
pub enum Version {
    HTTP1_1,
    HTTP2,
}

/// The token that denotes each version on the wire.
pub open spec fn version_token(v: Version) -> Seq<char> {
    match v {
        Version::HTTP1_1 => "HTTP/1.1"@,
        Version::HTTP2 => "HTTP/2"@,
    }
}

/// The version a request-line token denotes, if any.
pub open spec fn spec_version(t: Seq<char>) -> Option<Version> {
    if t == "HTTP/1.1"@ {
        Some(Version::HTTP1_1)
    } else if t == "HTTP/2"@ {
        Some(Version::HTTP2)
    } else {
        None
    }
}

impl Version {
    /// Parses a request-line token; an unrecognized token is no version.
    pub fn parse(token: &str) -> (r: Option<Version>)
        ensures
            r == spec_version(token@),
    {
        let t = token.to_owned();
        if t == "HTTP/1.1".to_owned() {
            Some(Version::HTTP1_1)
        } else if t == "HTTP/2".to_owned() {
            Some(Version::HTTP2)
        } else {
            None
        }
    }

    /// The wire form of this version, as written in a status line.
    pub fn as_str(&self) -> (r: &'static str)
        ensures
            r@ == version_token(*self),
    {
        match *self {
            Version::HTTP1_1 => "HTTP/1.1",
            Version::HTTP2 => "HTTP/2",
        }
    }
}

/// True when `s` starts with a complete `\r\n`-terminated line: a `\n`
/// occurs, and the byte before the first `\n` is `\r`.
pub open spec fn line_ok(s: Seq<u8>) -> bool {
    match find_first(s, 10u8) {
        Some(i) => i >= 1 && s[i - 1] == 13u8,
        None => false,
    }
}

/// The first line of `s` with its terminator stripped.
pub open spec fn line_content(s: Seq<u8>) -> Seq<u8>
    recommends
        line_ok(s),
{
    match find_first(s, 10u8) {
        Some(i) => s.subrange(0, i - 1),
        None => Seq::empty(),
    }
}

/// Everything of `s` after the first line's terminator.
pub open spec fn line_rest(s: Seq<u8>) -> Seq<u8>
    recommends
        line_ok(s),
{
    match find_first(s, 10u8) {
        Some(i) => s.subrange(i + 1, s.len() as int),
        None => Seq::empty(),
    }
}

/// Splits off the first `\r\n`-terminated line: its content without the
/// terminator, and the rest of the input.  `None` when no `\n` has arrived
/// yet or the line is not `\r\n`-terminated.
pub fn next_line(s: &[u8]) -> (r: Option<(&[u8], &[u8])>)
    ensures
        match r {
            Some(p) => line_ok(s@) && p.0@ == line_content(s@) && p.1@ == line_rest(s@),
            None => !line_ok(s@),
        },
{
    match find_byte(s, 10u8) {
        None => None,
        Some(i) => {
            proof {
                lemma_find_first(s@, 10u8);
            }
            if i < 1 || s[i - 1] != 13u8 {
                None
            } else {
                Some((slice_subrange(s, 0, i - 1), slice_subrange(s, i + 1, s.len())))
            }
        },
    }
}

/// The characters of `s`, in order.
pub fn str_to_chars(s: &str) -> (v: Vec<char>)
    ensures
        v@ == s@,
{
    let n = s.unicode_len();
    let mut v: Vec<char> = Vec::new();
    let mut i: usize = 0;
    while i < n
        invariant
            0 <= i <= n,
            n == s@.len(),
            v@ == s@.subrange(0, i as int),
        decreases n - i,
    {
        let c = s.get_char(i);
        v.push(c);
        proof {
            assert(v@ =~= s@.subrange(0, i as int + 1));
        }
        i = i + 1;
    }
    proof {
        assert(s@.subrange(0, n as int) =~= s@);
    }
    v
}

/// A `key=value` pair of the query string.  The key stands before the
/// first `=`; the value is what stands between the first `=` and the next
/// one, or the end of the pair.  A pair without `=` is malformed.
pub open spec fn spec_pair(seg: Seq<char>) -> Option<(Seq<char>, Seq<char>)> {
    match find_first(seg, '=') {
        None => None,
        Some(i) => {
            let k = seg.subrange(0, i);
            let r = seg.subrange(i + 1, seg.len() as int);
            let v = match find_first(r, '=') {
                None => r,
                Some(j) => r.subrange(0, j),
            };
            Some((k, v))
        },
    }
}

/// The query string split on `&` into pairs, folded into `acc` with
/// last-write-wins insertion.  `None` when any pair is malformed.
pub open spec fn spec_query(q: Seq<char>, acc: Entries) -> Option<Entries>
    decreases q.len(),
    via spec_query_dec
{
    let seg = match find_first(q, '&') {
        None => q,
        Some(a) => q.subrange(0, a),
    };
    match spec_pair(seg) {
        None => None,
        Some(kv) => match find_first(q, '&') {
            None => Some(spec_upsert(acc, kv.0, kv.1)),
            Some(a) => spec_query(
                q.subrange(a + 1, q.len() as int),
                spec_upsert(acc, kv.0, kv.1),
            ),
        },
    }
}

#[via_fn]
proof fn spec_query_dec(q: Seq<char>, acc: Entries) {
    lemma_find_first(q, '&');
}

/// The request target split on the first `?`: the path, and the query
/// pairs (empty when no `?` occurs).
pub open spec fn spec_target(t: Seq<char>) -> Option<(Seq<char>, Entries)> {
    match find_first(t, '?') {
        None => Some((t, Seq::empty())),
        Some(p) => match spec_query(t.subrange(p + 1, t.len() as int), Seq::empty()) {
            None => None,
            Some(ps) => Some((t.subrange(0, p), ps)),
        },
    }
}

/// The request line split on single spaces into method, target and
/// version tokens.  Fewer than three tokens is malformed; tokens past the
/// third are ignored.
pub open spec fn spec_request_line(line: Seq<char>) -> Option<
    (Method, Seq<char>, Entries, Version),
> {
    match find_first(line, ' ') {
        None => None,
        Some(i1) => {
            let m_tok = line.subrange(0, i1);
            let r1 = line.subrange(i1 + 1, line.len() as int);
            match find_first(r1, ' ') {
                None => None,
                Some(i2) => {
                    let target = r1.subrange(0, i2);
                    let r2 = r1.subrange(i2 + 1, r1.len() as int);
                    let v_tok = match find_first(r2, ' ') {
                        None => r2,
                        Some(i3) => r2.subrange(0, i3),
                    };
                    match (spec_method(m_tok), spec_version(v_tok)) {
                        (Some(m), Some(v)) => match spec_target(target) {
                            None => None,
                            Some(pq) => Some((m, pq.0, pq.1, v)),
                        },
                        _ => None,
                    }
                },
            }
        },
    }
}

/// A header line split on the first `:`: the key before it, the value
/// after it in full, with a single leading space stripped if present.  A
/// line without `:` is malformed.
pub open spec fn spec_header_kv(line: Seq<char>) -> Option<(Seq<char>, Seq<char>)> {
    match find_first(line, ':') {
        None => None,
        Some(i) => {
            let k = line.subrange(0, i);
            let raw = line.subrange(i + 1, line.len() as int);
            let v = if raw.len() > 0 && raw[0] == ' ' {
                raw.drop_first()
            } else {
                raw
            };
            Some((k, v))
        },
    }
}

/// The header block of `s` folded into `acc`, line by line, until the
/// empty line; returns the entries and the bytes after the blank line.
/// Lines are decoded as UTF-8 before splitting; a missing terminator, a
/// line that is not `\r\n`-terminated, or a line without `:` is a parse
/// error, and an undecodable line an encoding error.
pub open spec fn spec_headers(s: Seq<u8>, acc: Entries) -> Result<(Entries, Seq<u8>), ErrorKind>
    decreases s.len(),
    via spec_headers_dec
{
    if !line_ok(s) {
        Err(ErrorKind::Parsing)
    } else {
        let c = line_content(s);
        let rest = line_rest(s);
        if c.len() == 0 {
            Ok((acc, rest))
        } else if !valid_utf8(c) {
            Err(ErrorKind::Encoding)
        } else {
            match spec_header_kv(decode_utf8(c)) {
                None => Err(ErrorKind::Parsing),
                Some(kv) => spec_headers(rest, spec_upsert(acc, kv.0, kv.1)),
            }
        }
    }
}

#[via_fn]
proof fn spec_headers_dec(s: Seq<u8>, acc: Entries) {
    lemma_find_first(s, 10u8);
}

/// The mathematical value of a parsed request.
#[verifier::ext_equal]
pub ghost struct SpecRequest {
    pub method: Method,
    pub uri: Seq<char>,
    pub version: Version,
    pub headers: Entries,
    pub query_params: Entries,
}

/// What parsing a head buffer yields: the typed request, or the kind of
/// the first failure, in the order the lines arrive — the first line's
/// framing and decoding, then each header line in turn, then the request
/// line's tokens.
pub open spec fn spec_parse(s: Seq<u8>) -> Result<SpecRequest, ErrorKind> {
    if !line_ok(s) {
        Err(ErrorKind::Parsing)
    } else {
        let c = line_content(s);
        if !valid_utf8(c) {
            Err(ErrorKind::Encoding)
        } else {
            match spec_headers(line_rest(s), Seq::empty()) {
                Err(k) => Err(k),
                Ok(hs) => match spec_request_line(decode_utf8(c)) {
                    None => Err(ErrorKind::Parsing),
                    Some(f) => Ok(
                        SpecRequest {
                            method: f.0,
                            uri: f.1,
                            version: f.3,
                            headers: hs.0,
                            query_params: f.2,
                        },
                    ),
                },
            }
        }
    }
}

/// True when the buffer already holds the whole header-line part of a
/// head: a decided line (terminated or visibly malformed) that is empty or
/// is followed by a complete remainder.
pub open spec fn lines_complete(s: Seq<u8>) -> bool
    decreases s.len(),
    via lines_complete_dec
{
    match find_first(s, 10u8) {
        None => false,
        Some(i) => if !(i >= 1 && s[i - 1] == 13u8) {
            true
        } else if i == 1 {
            true
        } else {
            lines_complete(s.subrange(i + 1, s.len() as int))
        },
    }
}

#[via_fn]
proof fn lines_complete_dec(s: Seq<u8>) {
    lemma_find_first(s, 10u8);
}

/// True when `buf` holds everything `Request::parse` will examine: the
/// request line and the header block through the blank line, or a line
/// malformed enough that the outcome is already decided.  A reader
/// accumulates bytes until this holds and then parses.
pub open spec fn spec_head_complete(s: Seq<u8>) -> bool {
    match find_first(s, 10u8) {
        None => false,
        Some(i) => if !(i >= 1 && s[i - 1] == 13u8) {
            true
        } else {
            lines_complete(s.subrange(i + 1, s.len() as int))
        },
    }
}

fn tail_lines_complete(s: &[u8]) -> (r: bool)
    ensures
        r == lines_complete(s@),
    decreases s@.len(),
{
    match find_byte(s, 10u8) {
        None => false,
        Some(i) => {
            proof {
                lemma_find_first(s@, 10u8);
            }
            if i < 1 || s[i - 1] != 13u8 {
                true
            } else if i == 1 {
                true
            } else {
                tail_lines_complete(slice_subrange(s, i + 1, s.len()))
            }
        },
    }
}

/// Whether `buf` already holds a whole request head; see
/// [`spec_head_complete`].
pub fn head_complete(buf: &[u8]) -> (r: bool)
    ensures
        r == spec_head_complete(buf@),
{
    match find_byte(buf, 10u8) {
        None => false,
        Some(i) => {
            proof {
                lemma_find_first(buf@, 10u8);
            }
            if i < 1 || buf[i - 1] != 13u8 {
                true
            } else {
                tail_lines_complete(slice_subrange(buf, i + 1, buf.len()))
            }
        },
    }
}

/// A parsed request.  Immutable once constructed: the path with the query
/// stripped, the negotiated version, and the header and query mappings.
/// `path_params` is reserved for a router and stays empty.
pub struct Request {
    pub method: Method,
    pub uri: String,
    pub version: Version,
    pub headers: StringMap,
    pub query_params: StringMap,
    pub path_params: StringMap,
}

impl View for Request {
    type V = SpecRequest;

    open spec fn view(&self) -> SpecRequest {
        SpecRequest {
            method: self.method,
            uri: self.uri@,
            version: self.version,
            headers: self.headers@,
            query_params: self.query_params@,
        }
    }
}

impl Request {
    /// The maps have distinct keys and no path parameter is ever bound.
    pub open spec fn wf(&self) -> bool {
        &&& self.headers.wf()
        &&& self.query_params.wf()
        &&& self.path_params.wf()
        &&& self.path_params@.len() == 0
    }

    /// Parses a complete request head, exactly as [`spec_parse`] says: the
    /// result is `Ok` precisely when the head is well formed, and on
    /// failure the error has the kind `spec_parse` gives, with no partial
    /// request escaping.
    pub fn parse(head: &[u8]) -> (r: Result<Request, Error>)
        ensures
            r is Ok <==> spec_parse(head@) is Ok,
            r matches Ok(req) ==> spec_parse(head@) matches Ok(sr) && req@ == sr && req.wf(),
            r matches Err(e) ==> spec_parse(head@) matches Err(k) && e.kind() == k,
    {
        let (first, rest) = match next_line(head) {
            None => {
                return Err(Error::ParsingError);
            },
            Some(p) => p,
        };
        let first_line = match String::from_utf8(slice_to_vec(first)) {
            Ok(l) => l,
            Err(e) => {
                return Err(Error::Utf8Error(e));
            },
        };
        let mut headers = StringMap::new();
        match parse_headers(rest, &mut headers) {
            Err(e) => Err(e),
            Ok(()) => parse_request_line(first_line.as_str(), headers),
        }
    }
}

/// Folds the header block of `s` into `map`, mirroring [`spec_headers`].
fn parse_headers(s: &[u8], map: &mut StringMap) -> (r: Result<(), Error>)
    requires
        old(map).wf(),
    ensures
        final(map).wf(),
        match r {
            Ok(()) => spec_headers(s@, old(map)@) matches Ok(p) && final(map)@ == p.0,
            Err(e) => spec_headers(s@, old(map)@) matches Err(k) && e.kind() == k,
        },
    decreases s@.len(),
{
    match next_line(s) {
        None => Err(Error::ParsingError),
        Some((content, rest)) => {
            if content.len() == 0 {
                Ok(())
            } else {
                let line = match String::from_utf8(slice_to_vec(content)) {
                    Ok(l) => l,
                    Err(e) => {
                        return Err(Error::Utf8Error(e));
                    },
                };
                match header_kv(line.as_str()) {
                    None => Err(Error::ParsingError),
                    Some((k, v)) => {
                        map.insert(k, v);
                        proof {
                            lemma_find_first(s@, 10u8);
                        }
                        parse_headers(rest, map)
                    },
                }
            }
        },
    }
}

/// Splits one header line, mirroring [`spec_header_kv`].
fn header_kv(line: &str) -> (r: Option<(String, String)>)
    ensures
        match r {
            Some(kv) => spec_header_kv(line@) == Some((kv.0@, kv.1@)),
            None => spec_header_kv(line@) is None,
        },
{
    let chars = str_to_chars(line);
    let n = chars.len();
    match find_char(chars.as_slice(), ':') {
        None => None,
        Some(i) => {
            proof {
                lemma_find_first(line@, ':');
            }
            let key = line.substring_char(0, i).to_owned();
            let value = if i + 1 < n && chars[i + 1] == ' ' {
                line.substring_char(i + 2, n).to_owned()
            } else {
                line.substring_char(i + 1, n).to_owned()
            };
            proof {
                let raw = line@.subrange(i + 1, line@.len() as int);
                if raw.len() > 0 && raw[0] == ' ' {
                    assert(raw.drop_first() =~= line@.subrange(i + 2, line@.len() as int));
                }
            }
            Some((key, value))
        },
    }
}

/// Folds the query string of `q` into `map`, mirroring [`spec_query`].
fn parse_query(q: &str, map: &mut StringMap) -> (r: Result<(), Error>)
    requires
        old(map).wf(),
    ensures
        final(map).wf(),
        match r {
            Ok(()) => spec_query(q@, old(map)@) matches Some(ps) && final(map)@ == ps,
            Err(e) => spec_query(q@, old(map)@) is None && e.kind() == ErrorKind::Parsing,
        },
    decreases q@.len(),
{
    let chars = str_to_chars(q);
    let n = chars.len();
    let (seg_end, more) = match find_char(chars.as_slice(), '&') {
        None => (n, false),
        Some(a) => (a, true),
    };
    proof {
        lemma_find_first(q@, '&');
        if !more {
            assert(q@.subrange(0, n as int) =~= q@);
        }
    }
    let seg_slice = slice_subrange(chars.as_slice(), 0, seg_end);
    match find_char(seg_slice, '=') {
        None => Err(Error::ParsingError),
        Some(e_idx) => {
            proof {
                lemma_find_first(seg_slice@, '=');
                assert(q@.subrange(0, seg_end as int).subrange(0, e_idx as int) =~= q@.subrange(
                    0,
                    e_idx as int,
                ));
            }
            let key = q.substring_char(0, e_idx).to_owned();
            let rest_seg = slice_subrange(chars.as_slice(), e_idx + 1, seg_end);
            proof {
                assert(rest_seg@ =~= q@.subrange(0, seg_end as int).subrange(
                    e_idx + 1,
                    seg_end as int,
                ));
            }
            let v_end = match find_char(rest_seg, '=') {
                None => seg_end,
                Some(j) => {
                    proof {
                        lemma_find_first(rest_seg@, '=');
                        assert(rest_seg@.subrange(0, j as int) =~= q@.subrange(
                            e_idx + 1,
                            e_idx + 1 + j,
                        ));
                    }
                    e_idx + 1 + j
                },
            };
            let value = q.substring_char(e_idx + 1, v_end).to_owned();
            map.insert(key, value);
            if more {
                let a = seg_end;
                let rest = q.substring_char(a + 1, n);
                parse_query(rest, map)
            } else {
                Ok(())
            }
        },
    }
}

/// Splits the target and folds its query, mirroring [`spec_target`].
fn parse_target(t: &str) -> (r: Result<(String, StringMap), Error>)
    ensures
        match r {
            Ok(p) => spec_target(t@) matches Some(sp) && p.0@ == sp.0 && p.1@ == sp.1 && p.1.wf(),
            Err(e) => spec_target(t@) is None && e.kind() == ErrorKind::Parsing,
        },
{
    let chars = str_to_chars(t);
    let n = chars.len();
    match find_char(chars.as_slice(), '?') {
        None => Ok((t.to_owned(), StringMap::new())),
        Some(p) => {
            proof {
                lemma_find_first(t@, '?');
            }
            let path = t.substring_char(0, p).to_owned();
            let qs = t.substring_char(p + 1, n);
            let mut map = StringMap::new();
            match parse_query(qs, &mut map) {
                Ok(()) => Ok((path, map)),
                Err(e) => Err(e),
            }
        },
    }
}

/// Tokenizes the request line and builds the request, mirroring
/// [`spec_request_line`].
fn parse_request_line(line: &str, headers: StringMap) -> (r: Result<Request, Error>)
    requires
        headers.wf(),
    ensures
        match r {
            Ok(req) => spec_request_line(line@) matches Some(f) && req@ == (SpecRequest {
                method: f.0,
                uri: f.1,
                version: f.3,
                headers: headers@,
                query_params: f.2,
            }) && req.wf(),
            Err(e) => spec_request_line(line@) is None && e.kind() == ErrorKind::Parsing,
        },
{
    let chars = str_to_chars(line);
    let n = chars.len();
    let i1 = match find_char(chars.as_slice(), ' ') {
        None => {
            return Err(Error::ParsingError);
        },
        Some(i) => i,
    };
    proof {
        lemma_find_first(line@, ' ');
    }
    let m_str = line.substring_char(0, i1);
    let rest1 = slice_subrange(chars.as_slice(), i1 + 1, n);
    let i2 = match find_char(rest1, ' ') {
        None => {
            return Err(Error::ParsingError);
        },
        Some(i) => i,
    };
    proof {
        lemma_find_first(rest1@, ' ');
        assert(rest1@.subrange(0, i2 as int) =~= line@.subrange(i1 + 1, i1 + 1 + i2));
    }
    let target = line.substring_char(i1 + 1, i1 + 1 + i2);
    let rest2_start = i1 + 1 + i2 + 1;
    let rest2 = slice_subrange(chars.as_slice(), rest2_start, n);
    proof {
        assert(rest2@ =~= line@.subrange(i1 + 1, n as int).subrange(
            i2 + 1,
            n - i1 - 1,
        ));
    }
    let v_end = match find_char(rest2, ' ') {
        None => n,
        Some(j) => {
            proof {
                lemma_find_first(rest2@, ' ');
                assert(rest2@.subrange(0, j as int) =~= line@.subrange(
                    rest2_start as int,
                    rest2_start + j,
                ));
            }
            rest2_start + j
        },
    };
    let v_str = line.substring_char(rest2_start, v_end);
    let method = match Method::parse(m_str) {
        None => {
            return Err(Error::ParsingError);
        },
        Some(m) => m,
    };
    let version = match Version::parse(v_str) {
        None => {
            return Err(Error::ParsingError);
        },
        Some(v) => v,
    };
    match parse_target(target) {
        Err(e) => Err(e),
        Ok((uri, query_params)) => Ok(
            Request {
                method,
                uri,
                version,
                headers,
                query_params,
                path_params: StringMap::new(),
            },
        ),
    }
}

} // verus!
