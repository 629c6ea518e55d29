//! The response serializer: turns a `Response` into the exact bytes that go
//! back on the wire, and holds the fixed not-found reply.
//!
//! The output is the status line `"{version} {status} {text}\n"`, one
//! `"{name}:{value}\n"` line per header in iteration order, a blank line,
//! and then the body bytes verbatim — no length framing is added for them.

use vstd::prelude::*;
use crate::parser::LINE_FEED;
use crate::response::Response;
use crate::response::ResponseModel;
use vstd::string::StringSliceAdditionalSpecFns;
use vstd::utf8::encode_utf8;

verus! {

/// The byte between a header name and its value.
pub const COLON: u8 = 58;

/// The byte between the fields of the status line.
pub const SPACE: u8 = 32;

/// The decimal digits of `n`, as ASCII bytes.
pub open spec fn spec_dec_bytes(n: int) -> Seq<u8>
    decreases n,
{
    if n < 10 {
        seq![(48 + n) as u8]
    } else {
        spec_dec_bytes(n / 10).push((48 + n % 10) as u8)
    }
}

/// The serialized header block: one `name:value` line per entry, in order.
pub open spec fn spec_headers_bytes(hs: Seq<(Seq<char>, Seq<char>)>) -> Seq<u8>
    decreases hs.len(),
{
    if hs.len() == 0 {
        Seq::empty()
    } else {
        encode_utf8(hs[0].0) + seq![COLON] + encode_utf8(hs[0].1) + seq![LINE_FEED]
            + spec_headers_bytes(hs.drop_first())
    }
}

/// The status line of `r`, ending in a line feed.
pub open spec fn spec_status_line(r: ResponseModel) -> Seq<u8> {
    encode_utf8(r.http_version) + seq![SPACE] + spec_dec_bytes(r.status) + seq![SPACE]
        + encode_utf8(r.status_text) + seq![LINE_FEED]
}

/// The full serialization of `r`: status line, header block, blank line,
/// and the body bytes when a body is present.
pub open spec fn spec_serialize_response(r: ResponseModel) -> Seq<u8> {
    spec_status_line(r) + spec_headers_bytes(r.headers) + seq![LINE_FEED] + (match r.body {
        Some(b) => b,
        None => Seq::empty(),
    })
}

/// The fixed reply for a request no route matches: a bare status line and
/// the blank line, with no headers and no body.
pub open spec fn spec_not_found_bytes() -> Seq<u8> {
    encode_utf8("HTTP/1.1 404 Not Found\n\n"@)
}

/// A response without a body serializes to the status line, the header
/// block and the blank line alone: no body bytes follow.
pub proof fn lemma_serialize_absent_body(r: ResponseModel)
    requires
        r.body is None,
    ensures
        spec_serialize_response(r) == spec_status_line(r) + spec_headers_bytes(r.headers)
            + seq![LINE_FEED],
{
    assert(spec_serialize_response(r) =~= spec_status_line(r) + spec_headers_bytes(r.headers)
        + seq![LINE_FEED]);
}

proof fn lemma_headers_bytes_push(hs: Seq<(Seq<char>, Seq<char>)>, p: (Seq<char>, Seq<char>))
    ensures
        spec_headers_bytes(hs.push(p)) == spec_headers_bytes(hs) + encode_utf8(p.0) + seq![COLON]
            + encode_utf8(p.1) + seq![LINE_FEED],
    decreases hs.len(),
{
    if hs.len() == 0 {
        assert(hs.push(p)[0] == p);
        assert(hs =~= Seq::<(Seq<char>, Seq<char>)>::empty());
        assert(hs.push(p).drop_first() =~= hs);
        assert(spec_headers_bytes(hs.push(p)) =~= spec_headers_bytes(hs) + encode_utf8(p.0)
            + seq![COLON] + encode_utf8(p.1) + seq![LINE_FEED]);
    } else {
        assert(hs.push(p).drop_first() =~= hs.drop_first().push(p));
        lemma_headers_bytes_push(hs.drop_first(), p);
        assert(hs.push(p)[0] == hs[0]);
        assert(spec_headers_bytes(hs.push(p)) =~= spec_headers_bytes(hs) + encode_utf8(p.0)
            + seq![COLON] + encode_utf8(p.1) + seq![LINE_FEED]);
    }
}

/// Appends every byte of `s` to `out`.
#[verifier::loop_isolation(false)]
fn push_bytes(out: &mut Vec<u8>, s: &[u8])
    ensures
        final(out)@ == old(out)@ + s@,
{
    let n = s.len();
    let mut i: usize = 0;
    while i < n
        invariant
            i <= n,
            n == s@.len(),
            out@ == old(out)@ + s@.subrange(0, i as int),
        decreases n - i,
    {
        proof {
            assert(s@.subrange(0, i + 1) =~= s@.subrange(0, i as int).push(s@[i as int]));
            assert(old(out)@ + s@.subrange(0, i + 1) =~= (old(out)@ + s@.subrange(0, i as int)).push(
                s@[i as int],
            ));
        }
        out.push(s[i]);
        i = i + 1;
    }
    proof {
        assert(s@.subrange(0, n as int) =~= s@);
    }
}

/// Appends the decimal representation of `n` to `out`.
fn push_dec(out: &mut Vec<u8>, n: u16)
    ensures
        final(out)@ == old(out)@ + spec_dec_bytes(n as int),
    decreases n,
{
    if n < 10 {
        out.push(48 + (n as u8));
        proof {
            assert(out@ =~= old(out)@ + spec_dec_bytes(n as int));
        }
    } else {
        push_dec(out, n / 10);
        out.push(48 + ((n % 10) as u8));
        proof {
            assert(out@ =~= old(out)@ + spec_dec_bytes(n as int));
        }
    }
}

/// Serializes `response` into the exact bytes to write on the connection.
#[verifier::loop_isolation(false)]
pub fn serialize_response(response: &Response) -> (out: Vec<u8>)
    ensures
        out@ == spec_serialize_response(response@),
{
    let mut out: Vec<u8> = Vec::new();
    push_bytes(&mut out, response.http_version.as_str().as_bytes());
    out.push(SPACE);
    push_dec(&mut out, response.status);
    out.push(SPACE);
    push_bytes(&mut out, response.status_text.as_str().as_bytes());
    out.push(LINE_FEED);
    proof {
        assert(out@ =~= spec_status_line(response@));
        assert(response@.headers.subrange(0, 0) =~= Seq::<(Seq<char>, Seq<char>)>::empty());
        assert(out@ =~= spec_status_line(response@) + spec_headers_bytes(
            response@.headers.subrange(0, 0),
        ));
    }
    let m = response.headers.len();
    let mut i: usize = 0;
    while i < m
        invariant
            i <= m,
            m == response@.headers.len(),
            out@ == spec_status_line(response@) + spec_headers_bytes(
                response@.headers.subrange(0, i as int),
            ),
        decreases m - i,
    {
        let ghost done: Seq<(Seq<char>, Seq<char>)> = response@.headers.subrange(0, i as int);
        let p = response.headers.pair_at(i);
        push_bytes(&mut out, p.0.as_str().as_bytes());
        out.push(COLON);
        push_bytes(&mut out, p.1.as_str().as_bytes());
        out.push(LINE_FEED);
        proof {
            assert(response@.headers.subrange(0, i + 1) =~= done.push(response@.headers[i as int]));
            lemma_headers_bytes_push(done, response@.headers[i as int]);
            assert(out@ =~= spec_status_line(response@) + spec_headers_bytes(
                response@.headers.subrange(0, i + 1),
            ));
        }
        i = i + 1;
    }
    proof {
        assert(response@.headers.subrange(0, m as int) =~= response@.headers);
    }
    out.push(LINE_FEED);
    match &response.body {
        Some(b) => {
            push_bytes(&mut out, b.as_slice());
        },
        None => {},
    }
    proof {
        assert(out@ =~= spec_serialize_response(response@));
    }
    out
}

/// The bytes written for a request no route matches.
pub fn not_found_bytes() -> (r: Vec<u8>)
    ensures
        r@ == spec_not_found_bytes(),
{
    let mut out: Vec<u8> = Vec::new();
    push_bytes(&mut out, "HTTP/1.1 404 Not Found\n\n".as_bytes());
    proof {
        assert(out@ =~= spec_not_found_bytes());
    }
    out
}

} // verus!
