//! The request parser: turns the raw bytes read from a connection into a
//! `Request`.
//!
//! The input is read line by line (lines end at a line feed, with a carriage
//! return before it dropped). The first line is the request line; the
//! following lines are header lines; a blank line ends the header block. A
//! line that is not valid UTF-8 is skipped, and parsing goes on with the
//! next line — a deliberate weakness kept as specified, not a behavior to
//! strengthen. After the blank line, the `Content-Length` header (exact,
//! case-sensitive name) decides how many body bytes belong to the message:
//! its value parsed as an unsigned integer, or 0 when it does not parse.
//! When the header is absent no body is read at all; when fewer bytes than
//! declared are available by the end of the stream, the body stays absent.

use vstd::prelude::*;
use vstd::string::StrSliceExecFns;
use crate::headers::lemma_header_insert_get_other;
use crate::headers::lemma_header_insert_get_same;
use crate::headers::lemma_header_insert_unique;
use crate::headers::unique_names;
use crate::headers::spec_header_get;
use crate::headers::spec_header_insert;
use crate::request::Request;
use crate::request::RequestModel;
use crate::request::spec_request_defaults;
use crate::strutil::find_char;
use crate::strutil::find_char_from;
use crate::strutil::spec_split_ws;
use crate::strutil::spec_trim;
use crate::strutil::split_whitespace_tokens;
use crate::strutil::string_views;
use crate::strutil::trim_str;
use vstd::utf8::decode_utf8;
use vstd::utf8::valid_utf8;

verus! {

/// The byte that ends a line.
pub const LINE_FEED: u8 = 10;

/// The byte dropped from the end of a line when it precedes the line feed.
pub const CARRIAGE_RETURN: u8 = 13;

/// The index of the first line feed in `s` at or after `i`, or `s.len()`
/// when there is none.
pub open spec fn find_lf_from(s: Seq<u8>, i: int) -> int
    decreases s.len() - i,
{
    if i < 0 || i >= s.len() {
        s.len() as int
    } else if s[i] == LINE_FEED {
        i
    } else {
        find_lf_from(s, i + 1)
    }
}

proof fn lemma_find_lf_bounds(s: Seq<u8>, i: int)
    requires
        0 <= i <= s.len(),
    ensures
        i <= find_lf_from(s, i) <= s.len(),
    decreases s.len() - i,
{
    if i < s.len() && s[i] != LINE_FEED {
        lemma_find_lf_bounds(s, i + 1);
    }
}

/// Finds the first line feed at or after `from`.
#[verifier::loop_isolation(false)]
fn find_lf(s: &[u8], from: usize) -> (r: usize)
    requires
        from <= s@.len(),
    ensures
        r as int == find_lf_from(s@, from as int),
        from <= r <= s@.len(),
        r < s@.len() ==> s@[r as int] == LINE_FEED,
    decreases s@.len() - from,
{
    let n = s.len();
    let mut i: usize = from;
    while i < n && s[i] != LINE_FEED
        invariant
            from <= i <= n,
            find_lf_from(s@, from as int) == find_lf_from(s@, i as int),
        decreases n - i,
    {
        i = i + 1;
    }
    i
}

/// Copies the bytes of `s` in `[a, b)`.
#[verifier::loop_isolation(false)]
fn subvec(s: &[u8], a: usize, b: usize) -> (r: Vec<u8>)
    requires
        a <= b <= s@.len(),
    ensures
        r@ == s@.subrange(a as int, b as int),
{
    let mut r: Vec<u8> = Vec::new();
    let mut i: usize = a;
    while i < b
        invariant
            a <= i <= b,
            r@ == s@.subrange(a as int, i as int),
        decreases b - i,
    {
        proof {
            assert(s@.subrange(a as int, i + 1) =~= s@.subrange(a as int, i as int).push(
                s@[i as int],
            ));
        }
        r.push(s[i]);
        i = i + 1;
    }
    r
}

/// Relies on `String::from_utf8`: it returns `Ok` exactly when the bytes
/// are valid UTF-8, and then the string's characters are their decoding.
#[verifier::external_body]
fn bytes_to_string(bytes: Vec<u8>) -> (r: Option<String>)
    ensures
        r is Some <==> valid_utf8(bytes@),
        match r {
            Some(s) => s@ == decode_utf8(bytes@),
            None => true,
        },
{
    match String::from_utf8(bytes) {
        Ok(s) => Some(s),
        Err(_) => None,
    }
}

/// What the request line makes of a request: its first three
/// whitespace-separated tokens become method, URI and version, in that
/// order; extra tokens are ignored; missing tokens leave the field as it
/// was.
pub open spec fn spec_request_line_update(r: RequestModel, line: Seq<char>) -> RequestModel {
    let toks = spec_split_ws(line);
    RequestModel {
        method: if toks.len() >= 1 {
            toks[0]
        } else {
            r.method
        },
        uri: if toks.len() >= 2 {
            toks[1]
        } else {
            r.uri
        },
        http_version: if toks.len() >= 3 {
            toks[2]
        } else {
            r.http_version
        },
        headers: r.headers,
        body: r.body,
    }
}

/// Fills the method, URI and version of `request` from the request line.
pub fn parse_request_line(request: &mut Request, line: &String)
    ensures
        final(request)@ == spec_request_line_update(old(request)@, line@),
{
    let toks = split_whitespace_tokens(line.as_str());
    proof {
        assert(string_views(toks@).len() == toks@.len());
    }
    if toks.len() >= 1 {
        request.method = toks[0].clone();
    }
    if toks.len() >= 2 {
        request.uri = toks[1].clone();
    }
    if toks.len() >= 3 {
        request.http_version = toks[2].clone();
    }
    proof {
        assert(request@ =~~= spec_request_line_update(old(request)@, line@));
    }
}

/// What a header line makes of a request: the text before the first `:`
/// becomes the name and the text after it the value, both trimmed of
/// surrounding whitespace; a line without `:` changes nothing.
pub open spec fn spec_header_line_update(r: RequestModel, line: Seq<char>) -> RequestModel {
    let ci = find_char_from(line, ':', 0);
    if ci < line.len() {
        RequestModel {
            method: r.method,
            uri: r.uri,
            http_version: r.http_version,
            headers: spec_header_insert(
                r.headers,
                spec_trim(line.subrange(0, ci)),
                spec_trim(line.subrange(ci + 1, line.len() as int)),
            ),
            body: r.body,
        }
    } else {
        r
    }
}

/// Applies one header line to `request`; returns whether the line was
/// blank, which ends the header block.
pub fn parse_header_line(request: &mut Request, line: &String) -> (blank: bool)
    ensures
        final(request)@ == spec_header_line_update(old(request)@, line@),
        blank == (line@.len() == 0),
{
    let s = line.as_str();
    let n = s.unicode_len();
    let ci = find_char(s, ':');
    if ci < n {
        let name = trim_str(s.substring_char(0, ci));
        let value = trim_str(s.substring_char(ci + 1, n));
        request.headers.insert(name, value);
        proof {
            assert(request@ =~~= spec_header_line_update(old(request)@, line@));
        }
        false
    } else {
        proof {
            assert(request@ =~~= spec_header_line_update(old(request)@, line@));
        }
        n == 0
    }
}

/// Whether `c` is a decimal digit.
pub open spec fn is_digit_char(c: char) -> bool {
    48 <= c as u32 <= 57
}

/// The value of the digit `c`.
pub open spec fn digit_val(c: char) -> int {
    c as u32 - 48
}

/// The value of the digits of `s` from position `i` on, appended to an
/// accumulated value `acc`.
pub open spec fn digits_val_from(s: Seq<char>, i: int, acc: int) -> int
    decreases s.len() - i,
{
    if i < 0 || i >= s.len() {
        acc
    } else {
        digits_val_from(s, i + 1, acc * 10 + digit_val(s[i]))
    }
}

/// Whether every character of `s` from position `i` on is a digit.
pub open spec fn all_digits_from(s: Seq<char>, i: int) -> bool {
    forall|j: int| i <= j < s.len() ==> is_digit_char(s[j])
}

/// The number `s` denotes under the grammar of `str::parse::<usize>`: an
/// optional `+` followed by at least one digit and nothing else.
pub open spec fn spec_parse_unsigned(s: Seq<char>) -> Option<int> {
    let start: int = if s.len() > 0 && s[0] == '+' {
        1
    } else {
        0
    };
    if s.len() > start && all_digits_from(s, start) {
        Some(digits_val_from(s, start, 0))
    } else {
        None
    }
}

/// The content length a header value `s` declares: its numeric value when
/// it parses as a `usize`, and 0 on any parse failure, overflow included.
pub open spec fn spec_content_length(s: Seq<char>) -> int {
    match spec_parse_unsigned(s) {
        Some(n) => if n <= usize::MAX as int {
            n
        } else {
            0
        },
        None => 0,
    }
}

proof fn lemma_digits_val_lower(s: Seq<char>, i: int, acc: int)
    requires
        0 <= i <= s.len(),
        acc >= 0,
        all_digits_from(s, i),
    ensures
        digits_val_from(s, i, acc) >= acc,
    decreases s.len() - i,
{
    if i < s.len() {
        assert(is_digit_char(s[i]));
        lemma_digits_val_lower(s, i + 1, acc * 10 + digit_val(s[i]));
    }
}

/// Parses a `Content-Length` value, yielding 0 on any failure.
#[verifier::loop_isolation(false)]
pub fn parse_content_length(s: &str) -> (n: usize)
    ensures
        n as int == spec_content_length(s@),
{
    let len = s.unicode_len();
    let start: usize = if len > 0 && s.get_char(0) == '+' {
        1
    } else {
        0
    };
    if start >= len {
        return 0;
    }
    let mut i: usize = start;
    let mut acc: usize = 0;
    while i < len
        invariant
            start <= i <= len,
            forall|j: int| start <= j < i ==> is_digit_char(s@[j]),
            digits_val_from(s@, start as int, 0) == digits_val_from(s@, i as int, acc as int),
        decreases len - i,
    {
        let c = s.get_char(i);
        let cu = c as u32;
        if cu < 48 || cu > 57 {
            return 0;
        }
        let d = (cu - 48) as usize;
        let next = match acc.checked_mul(10) {
            Some(m) => m.checked_add(d),
            None => None,
        };
        match next {
            Some(v) => {
                acc = v;
            },
            None => {
                proof {
                    if all_digits_from(s@, start as int) {
                        lemma_digits_val_lower(s@, i + 1, acc * 10 + digit_val(s@[i as int]));
                    }
                }
                return 0;
            },
        }
        i = i + 1;
    }
    acc
}

/// The line at `[i, e)` of `s`, its trailing carriage return dropped.
pub open spec fn spec_line_bytes(s: Seq<u8>, i: int, e: int) -> Seq<u8> {
    let raw = s.subrange(i, e);
    if raw.len() > 0 && raw.last() == CARRIAGE_RETURN {
        raw.drop_last()
    } else {
        raw
    }
}

/// Runs the line loop of the parser from position `i` of `s`, feeding each
/// line to the request-line rule (for the first line) or the header-line
/// rule, skipping lines that are not valid UTF-8, and stopping at the blank
/// line or at the end of the input. Yields the accumulated request and the
/// position after the consumed lines, or `None` when no blank line has
/// arrived yet and the stream (`eof` false) may still deliver more bytes.
pub open spec fn spec_parse_lines(
    s: Seq<u8>,
    i: int,
    first: bool,
    r: RequestModel,
    eof: bool,
) -> Option<(RequestModel, int)>
    decreases s.len() - i,
    via spec_parse_lines_decreases
{
    let e = find_lf_from(s, i);
    if e < s.len() {
        let lb = spec_line_bytes(s, i, e);
        if !valid_utf8(lb) {
            spec_parse_lines(s, e + 1, false, r, eof)
        } else {
            let line = decode_utf8(lb);
            if first {
                spec_parse_lines(s, e + 1, false, spec_request_line_update(r, line), eof)
            } else if line.len() == 0 {
                Some((r, e + 1))
            } else {
                spec_parse_lines(s, e + 1, false, spec_header_line_update(r, line), eof)
            }
        }
    } else if !eof {
        None
    } else if i < s.len() {
        let lb = s.subrange(i, s.len() as int);
        if !valid_utf8(lb) {
            Some((r, s.len() as int))
        } else {
            let line = decode_utf8(lb);
            if first {
                Some((spec_request_line_update(r, line), s.len() as int))
            } else {
                Some((spec_header_line_update(r, line), s.len() as int))
            }
        }
    } else {
        Some((r, s.len() as int))
    }
}

#[via_fn]
proof fn spec_parse_lines_decreases(s: Seq<u8>, i: int, first: bool, r: RequestModel, eof: bool) {
    if i < 0 || i > s.len() {
        assert(find_lf_from(s, i) == s.len());
    } else {
        lemma_find_lf_bounds(s, i);
    }
}

/// The result of parsing one message from the first bytes of `s`: `None`
/// when the bytes do not yet hold a complete message and more could arrive
/// (`eof` false), otherwise the parsed request together with the number of
/// bytes of `s` the message occupies.
pub open spec fn spec_parse(s: Seq<u8>, eof: bool) -> Option<(RequestModel, int)> {
    match spec_parse_lines(s, 0, true, spec_request_defaults(), eof) {
        None => None,
        Some((core, body_start)) => match spec_header_get(core.headers, "Content-Length"@) {
            None => Some((core, body_start)),
            Some(v) => {
                let n = spec_content_length(v);
                if body_start + n <= s.len() {
                    Some(
                        (
                            RequestModel {
                                method: core.method,
                                uri: core.uri,
                                http_version: core.http_version,
                                headers: core.headers,
                                body: Some(s.subrange(body_start, body_start + n)),
                            },
                            body_start + n,
                        ),
                    )
                } else if eof {
                    Some((core, s.len() as int))
                } else {
                    None
                }
            },
        },
    }
}

/// Runs the header-line loop on `input`, mutating `request` line by line.
/// Yields the position right after the consumed lines, or `None` when the
/// header block is still incomplete and more input could arrive.
#[verifier::loop_isolation(false)]
fn parse_header_lines(input: &[u8], eof: bool, request: &mut Request) -> (r: Option<usize>)
    ensures
        match r {
            Some(end) => spec_parse_lines(input@, 0, true, old(request)@, eof) == Some(
                (final(request)@, end as int),
            ) && end <= input@.len(),
            None => spec_parse_lines(input@, 0, true, old(request)@, eof) is None,
        },
        final(request)@.body == old(request)@.body,
{
    let len = input.len();
    let mut pos: usize = 0;
    let mut first = true;
    loop
        invariant
            pos <= len,
            len == input@.len(),
            request@.body == old(request)@.body,
            spec_parse_lines(input@, 0, true, old(request)@, eof) == spec_parse_lines(
                input@,
                pos as int,
                first,
                request@,
                eof,
            ),
        decreases len - pos,
    {
        let ghost prev: RequestModel = request@;
        let e = find_lf(input, pos);
        if e < len {
            let raw_end = if e > pos && input[e - 1] == CARRIAGE_RETURN {
                e - 1
            } else {
                e
            };
            let line_bytes = subvec(input, pos, raw_end);
            proof {
                if raw_end < e {
                    assert(input@.subrange(pos as int, e as int).last() == input@[e - 1]);
                    assert(input@.subrange(pos as int, e as int).drop_last() =~= input@.subrange(
                        pos as int,
                        raw_end as int,
                    ));
                } else {
                    assert(input@.subrange(pos as int, e as int).len() > 0 ==> input@.subrange(
                        pos as int,
                        e as int,
                    ).last() == input@[e - 1]);
                }
                assert(line_bytes@ == spec_line_bytes(input@, pos as int, e as int));
            }
            match bytes_to_string(line_bytes) {
                Some(line) => {
                    if first {
                        parse_request_line(request, &line);
                    } else {
                        let blank = parse_header_line(request, &line);
                        if blank {
                            return Some(e + 1);
                        }
                    }
                },
                None => {},
            }
            first = false;
            pos = e + 1;
        } else {
            if !eof {
                return None;
            }
            if pos < len {
                let line_bytes = subvec(input, pos, len);
                match bytes_to_string(line_bytes) {
                    Some(line) => {
                        if first {
                            parse_request_line(request, &line);
                        } else {
                            let _ = parse_header_line(request, &line);
                        }
                    },
                    None => {},
                }
            }
            return Some(len);
        }
    }
}

/// Parses one HTTP request from the head of `input`.
///
/// `input` holds the bytes read from the connection so far, and `eof` says
/// whether the stream has ended. Yields the request together with the
/// number of bytes of `input` its message occupies, or `None` when the
/// message is incomplete and more input could still arrive.
pub fn parse_request_header(input: &[u8], eof: bool) -> (r: Option<(Request, usize)>)
    ensures
        match r {
            Some(p) => spec_parse(input@, eof) == Some((p.0@, p.1 as int)),
            None => spec_parse(input@, eof) is None,
        },
{
    let mut request = Request::new();
    let body_start = match parse_header_lines(input, eof, &mut request) {
        Some(end) => end,
        None => {
            return None;
        },
    };
    let len = input.len();
    let n_declared: Option<usize> = match request.headers.get("Content-Length") {
        Some(v) => Some(parse_content_length(v.as_str())),
        None => None,
    };
    match n_declared {
        None => Some((request, body_start)),
        Some(n) => {
            if n <= len - body_start {
                let ghost core: RequestModel = request@;
                let body = subvec(input, body_start, body_start + n);
                request.body = Some(body);
                proof {
                    assert(request@ =~~= RequestModel {
                        method: core.method,
                        uri: core.uri,
                        http_version: core.http_version,
                        headers: core.headers,
                        body: Some(input@.subrange(body_start as int, body_start + n)),
                    });
                }
                Some((request, body_start + n))
            } else if eof {
                Some((request, len))
            } else {
                None
            }
        },
    }
}

/// The line phase never touches the body: whatever request it yields still
/// carries the body field the initial request had.
pub proof fn lemma_parse_lines_keeps_body(
    s: Seq<u8>,
    i: int,
    first: bool,
    r: RequestModel,
    eof: bool,
)
    requires
        spec_parse_lines(s, i, first, r, eof) is Some,
    ensures
        spec_parse_lines(s, i, first, r, eof)->Some_0.0.body == r.body,
    decreases s.len() - i,
{
    let e = find_lf_from(s, i);
    if e < s.len() {
        if i < 0 || i > s.len() {
            assert(find_lf_from(s, i) == s.len());
        } else {
            lemma_find_lf_bounds(s, i);
        }
        let lb = spec_line_bytes(s, i, e);
        if !valid_utf8(lb) {
            lemma_parse_lines_keeps_body(s, e + 1, false, r, eof);
        } else {
            let line = decode_utf8(lb);
            if first {
                lemma_parse_lines_keeps_body(s, e + 1, false, spec_request_line_update(r, line), eof);
            } else if line.len() == 0 {
            } else {
                lemma_parse_lines_keeps_body(s, e + 1, false, spec_header_line_update(r, line), eof);
            }
        }
    }
}

proof fn lemma_find_lf_at(s: Seq<u8>, i: int, e: int)
    requires
        0 <= i <= e < s.len(),
        s[e] == LINE_FEED,
        forall|j: int| i <= j < e ==> s[j] != LINE_FEED,
    ensures
        find_lf_from(s, i) == e,
    decreases e - i,
{
    if i < e {
        lemma_find_lf_at(s, i + 1, e);
    }
}

/// A stream that opens with a full line feeds that line to the
/// request-line rule, and parsing continues right after its line feed.
pub proof fn lemma_parse_first_line(s: Seq<u8>, line: Seq<u8>, r: RequestModel, eof: bool)
    requires
        s.len() > line.len(),
        s.subrange(0, line.len() as int) == line,
        s[line.len() as int] == LINE_FEED,
        forall|j: int| 0 <= j < line.len() ==> line[j] != LINE_FEED,
        line.len() > 0 ==> line.last() != CARRIAGE_RETURN,
        valid_utf8(line),
    ensures
        spec_parse_lines(s, 0, true, r, eof) == spec_parse_lines(
            s,
            line.len() + 1 as int,
            false,
            spec_request_line_update(r, decode_utf8(line)),
            eof,
        ),
{
    let e = line.len() as int;
    assert(forall|j: int| 0 <= j < e ==> s[j] == line[j]);
    lemma_find_lf_at(s, 0, e);
    assert(spec_line_bytes(s, 0, e) == line);
}

/// After the first line, no later line touches the method, URI or
/// version: the header phase only fills the header map.
pub proof fn lemma_parse_lines_keeps_request_line(s: Seq<u8>, i: int, r: RequestModel, eof: bool)
    requires
        spec_parse_lines(s, i, false, r, eof) is Some,
    ensures
        spec_parse_lines(s, i, false, r, eof)->Some_0.0.method == r.method,
        spec_parse_lines(s, i, false, r, eof)->Some_0.0.uri == r.uri,
        spec_parse_lines(s, i, false, r, eof)->Some_0.0.http_version == r.http_version,
    decreases s.len() - i,
{
    let e = find_lf_from(s, i);
    if e < s.len() {
        if i < 0 || i > s.len() {
            assert(find_lf_from(s, i) == s.len());
        } else {
            lemma_find_lf_bounds(s, i);
        }
        let lb = spec_line_bytes(s, i, e);
        if !valid_utf8(lb) {
            lemma_parse_lines_keeps_request_line(s, e + 1, r, eof);
        } else {
            let line = decode_utf8(lb);
            if line.len() == 0 {
            } else {
                lemma_parse_lines_keeps_request_line(s, e + 1, spec_header_line_update(r, line), eof);
            }
        }
    }
}

/// For every message whose request line carries exactly the tokens `m`,
/// `u` and `v`, the parsed request's method, URI and version are exactly
/// those tokens.
pub proof fn lemma_parse_sets_request_line_fields(
    s: Seq<u8>,
    line: Seq<u8>,
    m: Seq<char>,
    u: Seq<char>,
    v: Seq<char>,
    eof: bool,
    req: RequestModel,
    used: int,
)
    requires
        s.len() > line.len(),
        s.subrange(0, line.len() as int) == line,
        s[line.len() as int] == LINE_FEED,
        forall|j: int| 0 <= j < line.len() ==> line[j] != LINE_FEED,
        line.len() > 0 ==> line.last() != CARRIAGE_RETURN,
        valid_utf8(line),
        spec_split_ws(decode_utf8(line)) == seq![m, u, v],
        spec_parse(s, eof) == Some((req, used)),
    ensures
        req.method == m,
        req.uri == u,
        req.http_version == v,
{
    lemma_parse_first_line(s, line, spec_request_defaults(), eof);
    lemma_request_line_full(spec_request_defaults(), decode_utf8(line), m, u, v);
    let updated = spec_request_line_update(spec_request_defaults(), decode_utf8(line));
    lemma_parse_lines_keeps_request_line(s, line.len() + 1 as int, updated, eof);
}

/// A request line with exactly the tokens `m`, `u` and `v` sets the
/// method, URI and version to exactly those tokens, leaving the headers
/// and the body untouched.
pub proof fn lemma_request_line_full(
    r: RequestModel,
    line: Seq<char>,
    m: Seq<char>,
    u: Seq<char>,
    v: Seq<char>,
)
    requires
        spec_split_ws(line) == seq![m, u, v],
    ensures
        spec_request_line_update(r, line) == (RequestModel {
            method: m,
            uri: u,
            http_version: v,
            headers: r.headers,
            body: r.body,
        }),
{
    assert(seq![m, u, v][0] == m);
    assert(seq![m, u, v][1] == u);
    assert(seq![m, u, v][2] == v);
    assert(spec_request_line_update(r, line) =~~= (RequestModel {
        method: m,
        uri: u,
        http_version: v,
        headers: r.headers,
        body: r.body,
    }));
}

/// A header line `name:value` maps the trimmed name to the trimmed value
/// and leaves what every other name maps to unchanged.
pub proof fn lemma_header_line_maps_name(
    r: RequestModel,
    line: Seq<char>,
    ci: int,
    other: Seq<char>,
)
    requires
        ci == find_char_from(line, ':', 0),
        0 <= ci < line.len(),
        other != spec_trim(line.subrange(0, ci)),
    ensures
        spec_header_get(
            spec_header_line_update(r, line).headers,
            spec_trim(line.subrange(0, ci)),
        ) == Some(spec_trim(line.subrange(ci + 1, line.len() as int))),
        spec_header_get(spec_header_line_update(r, line).headers, other) == spec_header_get(
            r.headers,
            other,
        ),
{
    let name = spec_trim(line.subrange(0, ci));
    let value = spec_trim(line.subrange(ci + 1, line.len() as int));
    lemma_header_insert_get_same(r.headers, name, value);
    lemma_header_insert_get_other(r.headers, name, value, other);
}

/// Whether the header line `line` carries `name`: it holds a colon, and
/// the text before the first colon trims to `name`.
pub open spec fn spec_line_names(line: Seq<char>, name: Seq<char>) -> bool {
    find_char_from(line, ':', 0) < line.len() && spec_trim(
        line.subrange(0, find_char_from(line, ':', 0)),
    ) == name
}

/// Whether any header line from position `i` to the end of the header
/// block carries `name`.
pub open spec fn spec_later_line_names(s: Seq<u8>, i: int, name: Seq<char>, eof: bool) -> bool
    decreases s.len() - i,
    via spec_later_line_names_decreases
{
    let e = find_lf_from(s, i);
    if e < s.len() {
        let lb = spec_line_bytes(s, i, e);
        if !valid_utf8(lb) {
            spec_later_line_names(s, e + 1, name, eof)
        } else {
            let line = decode_utf8(lb);
            if line.len() == 0 {
                false
            } else {
                spec_line_names(line, name) || spec_later_line_names(s, e + 1, name, eof)
            }
        }
    } else if !eof {
        false
    } else if i < s.len() {
        let lb = s.subrange(i, s.len() as int);
        valid_utf8(lb) && spec_line_names(decode_utf8(lb), name)
    } else {
        false
    }
}

#[via_fn]
proof fn spec_later_line_names_decreases(s: Seq<u8>, i: int, name: Seq<char>, eof: bool) {
    if i < 0 || i > s.len() {
        assert(find_lf_from(s, i) == s.len());
    } else {
        lemma_find_lf_bounds(s, i);
    }
}

/// Header lines that do not carry `name` leave what `name` maps to
/// unchanged through the rest of the header block.
pub proof fn lemma_parse_lines_keeps_other_header(
    s: Seq<u8>,
    i: int,
    r: RequestModel,
    eof: bool,
    name: Seq<char>,
)
    requires
        spec_parse_lines(s, i, false, r, eof) is Some,
        !spec_later_line_names(s, i, name, eof),
    ensures
        spec_header_get(spec_parse_lines(s, i, false, r, eof)->Some_0.0.headers, name)
            == spec_header_get(r.headers, name),
    decreases s.len() - i,
{
    let e = find_lf_from(s, i);
    if e < s.len() {
        if i < 0 || i > s.len() {
            assert(find_lf_from(s, i) == s.len());
        } else {
            lemma_find_lf_bounds(s, i);
        }
        let lb = spec_line_bytes(s, i, e);
        if !valid_utf8(lb) {
            lemma_parse_lines_keeps_other_header(s, e + 1, r, eof, name);
        } else {
            let line = decode_utf8(lb);
            if line.len() == 0 {
            } else {
                lemma_header_line_keeps_other_name(r, line, name);
                lemma_parse_lines_keeps_other_header(
                    s,
                    e + 1,
                    spec_header_line_update(r, line),
                    eof,
                    name,
                );
            }
        }
    } else if eof && i < s.len() {
        let lb = s.subrange(i, s.len() as int);
        if valid_utf8(lb) {
            lemma_header_line_keeps_other_name(r, decode_utf8(lb), name);
        }
    }
}

proof fn lemma_header_line_keeps_other_name(r: RequestModel, line: Seq<char>, name: Seq<char>)
    requires
        !spec_line_names(line, name),
    ensures
        spec_header_get(spec_header_line_update(r, line).headers, name) == spec_header_get(
            r.headers,
            name,
        ),
{
    let ci = find_char_from(line, ':', 0);
    if ci < line.len() {
        lemma_header_insert_get_other(
            r.headers,
            spec_trim(line.subrange(0, ci)),
            spec_trim(line.subrange(ci + 1, line.len() as int)),
            name,
        );
    }
}

/// A header block that continues at `i` with the full, non-blank line
/// `line` feeds it to the header rule, and parsing continues right after
/// its line feed.
pub proof fn lemma_parse_header_line_at(s: Seq<u8>, i: int, line: Seq<u8>, r: RequestModel, eof: bool)
    requires
        0 <= i,
        i + line.len() < s.len(),
        s.subrange(i, i + line.len()) == line,
        s[i + line.len()] == LINE_FEED,
        forall|j: int| 0 <= j < line.len() ==> line[j] != LINE_FEED,
        line.len() > 0 ==> line.last() != CARRIAGE_RETURN,
        valid_utf8(line),
        decode_utf8(line).len() > 0,
    ensures
        spec_parse_lines(s, i, false, r, eof) == spec_parse_lines(
            s,
            i + line.len() + 1,
            false,
            spec_header_line_update(r, decode_utf8(line)),
            eof,
        ),
{
    let e = i + line.len();
    assert(forall|j: int| i <= j < e ==> s[j] == line[j - i]);
    lemma_find_lf_at(s, i, e);
    assert(spec_line_bytes(s, i, e) == line);
}

/// For a message whose header block, reached at position `i` with the
/// request so far being `r`, continues with the line `name:value` — and no
/// later header line carries the same name — the parsed request maps the
/// trimmed name to the trimmed value.
pub proof fn lemma_parse_sets_header(
    s: Seq<u8>,
    i: int,
    line: Seq<u8>,
    r: RequestModel,
    eof: bool,
    ci: int,
    req: RequestModel,
    used: int,
)
    requires
        0 <= i,
        i + line.len() < s.len(),
        s.subrange(i, i + line.len()) == line,
        s[i + line.len()] == LINE_FEED,
        forall|j: int| 0 <= j < line.len() ==> line[j] != LINE_FEED,
        line.len() > 0 ==> line.last() != CARRIAGE_RETURN,
        valid_utf8(line),
        ci == find_char_from(decode_utf8(line), ':', 0),
        0 <= ci < decode_utf8(line).len(),
        !spec_later_line_names(
            s,
            i + line.len() + 1,
            spec_trim(decode_utf8(line).subrange(0, ci)),
            eof,
        ),
        spec_parse_lines(s, 0, true, spec_request_defaults(), eof) == spec_parse_lines(
            s,
            i,
            false,
            r,
            eof,
        ),
        spec_parse(s, eof) == Some((req, used)),
    ensures
        spec_header_get(req.headers, spec_trim(decode_utf8(line).subrange(0, ci))) == Some(
            spec_trim(
                decode_utf8(line).subrange(ci + 1, decode_utf8(line).len() as int),
            ),
        ),
{
    let chars = decode_utf8(line);
    let name = spec_trim(chars.subrange(0, ci));
    let value = spec_trim(chars.subrange(ci + 1, chars.len() as int));
    lemma_parse_header_line_at(s, i, line, r, eof);
    let updated = spec_header_line_update(r, chars);
    lemma_header_insert_get_same(r.headers, name, value);
    lemma_parse_lines_keeps_other_header(s, i + line.len() + 1, updated, eof, name);
}

/// Every line keeps header names unique: the header list stays a genuine
/// mapping throughout the line phase.
pub proof fn lemma_parse_lines_unique_names(
    s: Seq<u8>,
    i: int,
    first: bool,
    r: RequestModel,
    eof: bool,
)
    requires
        unique_names(r.headers),
        spec_parse_lines(s, i, first, r, eof) is Some,
    ensures
        unique_names(spec_parse_lines(s, i, first, r, eof)->Some_0.0.headers),
    decreases s.len() - i,
{
    let e = find_lf_from(s, i);
    if e < s.len() {
        if i < 0 || i > s.len() {
            assert(find_lf_from(s, i) == s.len());
        } else {
            lemma_find_lf_bounds(s, i);
        }
        let lb = spec_line_bytes(s, i, e);
        if !valid_utf8(lb) {
            lemma_parse_lines_unique_names(s, e + 1, false, r, eof);
        } else {
            let line = decode_utf8(lb);
            if first {
                lemma_parse_lines_unique_names(s, e + 1, false, spec_request_line_update(r, line), eof);
            } else if line.len() == 0 {
            } else {
                lemma_header_line_update_unique(r, line);
                lemma_parse_lines_unique_names(s, e + 1, false, spec_header_line_update(r, line), eof);
            }
        }
    } else if eof && i < s.len() {
        let lb = s.subrange(i, s.len() as int);
        if valid_utf8(lb) && !first {
            lemma_header_line_update_unique(r, decode_utf8(lb));
        }
    }
}

proof fn lemma_header_line_update_unique(r: RequestModel, line: Seq<char>)
    requires
        unique_names(r.headers),
    ensures
        unique_names(spec_header_line_update(r, line).headers),
{
    let ci = find_char_from(line, ':', 0);
    if ci < line.len() {
        lemma_header_insert_unique(
            r.headers,
            spec_trim(line.subrange(0, ci)),
            spec_trim(line.subrange(ci + 1, line.len() as int)),
        );
    }
}

/// A parsed request's headers form a mapping: no name occurs twice.
pub proof fn lemma_parse_headers_unique(s: Seq<u8>, eof: bool, req: RequestModel, used: int)
    requires
        spec_parse(s, eof) == Some((req, used)),
    ensures
        unique_names(req.headers),
{
    lemma_parse_lines_unique_names(s, 0, true, spec_request_defaults(), eof);
}

/// When `Content-Length` declares `n` and at least `n` bytes follow the
/// header block, the parsed body is exactly those `n` bytes.
pub proof fn lemma_parse_body_present(
    s: Seq<u8>,
    eof: bool,
    core: RequestModel,
    body_start: int,
    v: Seq<char>,
)
    requires
        spec_parse_lines(s, 0, true, spec_request_defaults(), eof) == Some((core, body_start)),
        spec_header_get(core.headers, "Content-Length"@) == Some(v),
        body_start + spec_content_length(v) <= s.len(),
    ensures
        spec_parse(s, eof) matches Some(p) && p.0.body == Some(
            s.subrange(body_start, body_start + spec_content_length(v)),
        ) && p.1 == body_start + spec_content_length(v),
{
}

/// Without a `Content-Length` header no body is read: the parsed body is
/// absent and not one byte beyond the blank line belongs to the message.
pub proof fn lemma_parse_no_content_length(
    s: Seq<u8>,
    eof: bool,
    core: RequestModel,
    body_start: int,
)
    requires
        spec_parse_lines(s, 0, true, spec_request_defaults(), eof) == Some((core, body_start)),
        spec_header_get(core.headers, "Content-Length"@) is None,
    ensures
        spec_parse(s, eof) == Some((core, body_start)),
        core.body is None,
{
    lemma_parse_lines_keeps_body(s, 0, true, spec_request_defaults(), eof);
}

/// When `Content-Length` declares more bytes than the stream ever
/// delivers, the body stays absent: the partial data is discarded, not
/// surfaced.
pub proof fn lemma_parse_body_underrun(
    s: Seq<u8>,
    core: RequestModel,
    body_start: int,
    v: Seq<char>,
)
    requires
        spec_parse_lines(s, 0, true, spec_request_defaults(), true) == Some((core, body_start)),
        spec_header_get(core.headers, "Content-Length"@) == Some(v),
        body_start + spec_content_length(v) > s.len(),
    ensures
        spec_parse(s, true) == Some((core, s.len() as int)),
        core.body is None,
{
    lemma_parse_lines_keeps_body(s, 0, true, spec_request_defaults(), true);
}

} // verus!
