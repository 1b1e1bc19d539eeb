//! Serializing a response: status line, header block, body.
//!
//! The wire form produced is `VERSION SP CODE SP REASON CRLF`, then one
//! `KEY ': ' VALUE CRLF` per header entry in storage order, then a bare
//! CRLF, then the raw body bytes with no further framing.  No
//! `Content-Length` is computed; a caller that wants one supplies it as an
//! ordinary header.

use vstd::prelude::*;
use vstd::utf8::encode_utf8;

use crate::request::{version_token, Version};
use crate::strmap::{Entries, StringMap};

verus! {

/// A status code and its reason phrase.  A plain value: nothing validates
/// what the caller supplies.
pub struct StatusCode {
    pub status_code: usize,
    pub msg: &'static str,
}

impl StatusCode {
    /// The `200 OK` status.
    pub fn ok() -> (r: StatusCode)
        ensures
            r.status_code == 200,
            r.msg@ == "OK"@,
    {
        StatusCode { status_code: 200, msg: "OK" }
    }
}

/// A caller-built response: status, headers, and a borrowed body.  It
/// exists only for the duration of one write.
pub struct Response<'a> {
    pub status: StatusCode,
    pub headers: StringMap,
    pub body: &'a [u8],
}

/// The shortest decimal form of `n`, as ASCII digit bytes.
pub open spec fn spec_decimal_bytes(n: nat) -> Seq<u8>
    decreases n,
{
    if n < 10 {
        seq![(n + 48) as u8]
    } else {
        spec_decimal_bytes(n / 10) + seq![(n % 10 + 48) as u8]
    }
}

/// The serialized header block: one `key: value` line per entry, in
/// storage order.
pub open spec fn spec_header_bytes(entries: Entries) -> Seq<u8>
    decreases entries.len(),
{
    if entries.len() == 0 {
        Seq::empty()
    } else {
        spec_header_bytes(entries.drop_last()) + encode_utf8(entries.last().0) + seq![58u8, 32u8]
            + encode_utf8(entries.last().1) + seq![13u8, 10u8]
    }
}

/// The complete response on the wire: status line, header block, blank
/// line, body.
pub open spec fn spec_response_bytes(
    v: Version,
    code: nat,
    reason: Seq<char>,
    entries: Entries,
    body: Seq<u8>,
) -> Seq<u8> {
    encode_utf8(version_token(v)) + seq![32u8] + spec_decimal_bytes(code) + seq![32u8]
        + encode_utf8(reason) + seq![13u8, 10u8] + spec_header_bytes(entries) + seq![13u8, 10u8]
        + body
}

/// The decimal digits of `n`.
fn decimal_bytes(n: u64) -> (v: Vec<u8>)
    ensures
        v@ == spec_decimal_bytes(n as nat),
    decreases n,
{
    if n < 10 {
        let mut v: Vec<u8> = Vec::new();
        v.push((n as u8) + 48);
        proof {
            assert(v@ =~= spec_decimal_bytes(n as nat));
        }
        v
    } else {
        let mut v = decimal_bytes(n / 10);
        v.push(((n % 10) as u8) + 48);
        proof {
            assert(v@ =~= spec_decimal_bytes(n as nat));
        }
        v
    }
}

impl<'a> Response<'a> {
    /// Serializes this response against the request's negotiated version,
    /// yielding exactly the bytes of [`spec_response_bytes`].
    pub fn serialize(&self, version: &Version) -> (out: Vec<u8>)
        ensures
            out@ == spec_response_bytes(
                *version,
                self.status.status_code as nat,
                self.status.msg@,
                self.headers@,
                self.body@,
            ),
    {
        let mut out: Vec<u8> = Vec::new();
        let vs = version.as_str();
        out.extend_from_slice(vs.as_bytes());
        out.push(32u8);
        let digits = decimal_bytes(self.status.status_code as u64);
        out.extend_from_slice(digits.as_slice());
        out.push(32u8);
        out.extend_from_slice(self.status.msg.as_bytes());
        out.push(13u8);
        out.push(10u8);
        let ghost base = out@;
        let n = self.headers.len();
        let mut i: usize = 0;
        while i < n
            invariant
                0 <= i <= n,
                n == self.headers@.len(),
                out@ == base + spec_header_bytes(self.headers@.take(i as int)),
            decreases n - i,
        {
            let kv = self.headers.pair_at(i);
            out.extend_from_slice(kv.0.as_str().as_bytes());
            out.push(58u8);
            out.push(32u8);
            out.extend_from_slice(kv.1.as_str().as_bytes());
            out.push(13u8);
            out.push(10u8);
            proof {
                let hs = self.headers@;
                assert(hs.take(i + 1).drop_last() =~= hs.take(i as int));
                assert(hs.take(i + 1).last() == hs[i as int]);
                assert(out@ =~= base + spec_header_bytes(hs.take(i + 1)));
            }
            i = i + 1;
        }
        proof {
            assert(self.headers@.take(n as int) =~= self.headers@);
        }
        out.push(13u8);
        out.push(10u8);
        out.extend_from_slice(self.body);
        proof {
            assert(out@ =~= spec_response_bytes(
                *version,
                self.status.status_code as nat,
                self.status.msg@,
                self.headers@,
                self.body@,
            ));
        }
        out
    }
}

} // verus!
