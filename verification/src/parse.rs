//! The request parser: a pure, incremental parser over the bytes received so
//! far on a connection. Given the buffered input and whether the peer has
//! closed its end, it either produces a complete `Request` together with the
//! number of bytes it used, asks for more input, reports a clean end of the
//! connection, or fails with a definite parse error.

use vstd::prelude::*;
use vstd::utf8::decode_utf8;
use vstd::utf8::encode_utf8_decode_utf8;
use vstd::string::StringSliceAdditionalSpecFns;
use vstd::utf8::valid_utf8;

use crate::num::dec_value;
use crate::num::digits_of;
use crate::num::parse_usize;
use crate::num::parse_usize_ok;
use crate::request::header_views;
use crate::request::spec_header_value_vs;
use crate::request::Key;
use crate::request::Request;
use crate::request::Value;
use crate::text::find_char;
use crate::text::index_of_char;
use crate::text::split_whitespace_tokens;
use crate::text::split_ws;
use crate::text::trim;
use crate::text::trim_ws;

verus! {

/// A definite parse failure; the connection is torn down on any of these.
#[derive(Debug, Clone, Copy, PartialEq, Eq, Structural)]
pub enum ParseError {
    /// A request or header line held bytes that are not valid UTF-8.
    InvalidEncoding,
    /// The request line did not split into exactly three tokens.
    InvalidRequestLine,
    /// A header line without a colon.
    MalformedHeader,
    /// A `Content-Length` value that does not parse as a `usize`.
    InvalidContentLength,
    /// The peer closed the connection before the declared body ended.
    TruncatedBody,
}

/// The first position at or after `from` holding a line-feed byte, or the
/// end of `input` if there is none.
pub open spec fn find_nl(input: Seq<u8>, from: int) -> int
    decreases input.len() - from,
{
    if from < 0 || from >= input.len() {
        input.len() as int
    } else if input[from] == 10 {
        from
    } else {
        find_nl(input, from + 1)
    }
}

proof fn lemma_find_nl_is(input: Seq<u8>, from: int, j: int)
    requires
        0 <= from <= j <= input.len(),
        forall|k: int| from <= k < j ==> input[k] != 10,
        j < input.len() ==> input[j] == 10,
    ensures
        find_nl(input, from) == j,
    decreases j - from,
{
    if from < j {
        lemma_find_nl_is(input, from + 1, j);
    }
}

pub proof fn lemma_find_nl_bounds(input: Seq<u8>, from: int)
    requires
        0 <= from <= input.len(),
    ensures
        from <= find_nl(input, from) <= input.len(),
        find_nl(input, from) < input.len() ==> input[find_nl(input, from)] == 10,
    decreases input.len() - from,
{
    if from < input.len() && input[from] != 10 {
        lemma_find_nl_bounds(input, from + 1);
    }
}

/// `b` with trailing carriage-return and line-feed bytes removed.
pub open spec fn trim_crlf(b: Seq<u8>) -> Seq<u8>
    decreases b.len(),
{
    if b.len() > 0 && (b.last() == 13 || b.last() == 10) {
        trim_crlf(b.drop_last())
    } else {
        b
    }
}

proof fn lemma_trim_crlf_is(b: Seq<u8>, j: int)
    requires
        0 <= j <= b.len(),
        forall|k: int| j <= k < b.len() ==> (b[k] == 13 || b[k] == 10),
        j > 0 ==> !(b[j - 1] == 13 || b[j - 1] == 10),
    ensures
        trim_crlf(b) =~= b.subrange(0, j),
    decreases b.len() - j,
{
    if j == b.len() {
        assert(trim_crlf(b) =~= b.subrange(0, j));
    } else {
        lemma_trim_crlf_is(b.drop_last(), j);
        assert(b.drop_last().subrange(0, j) =~= b.subrange(0, j));
    }
}

/// One step of line extraction, at the specification level.
pub enum SpecLine {
    /// No line terminator yet and the peer may still send one.
    NeedMore,
    /// End of input with no bytes at all: a clean end of the connection.
    End,
    /// One line, already stripped of its trailing CR/LF bytes, and the
    /// position right after its terminator.
    Data { content: Seq<u8>, next: int },
}

/// Extract the line that starts at `from`: everything up to and including
/// the first line feed, or, at the end of input, the unterminated remainder.
/// The content is the line with trailing CR/LF stripped, as
/// `trim_line_ending` strips them.
pub open spec fn spec_take_line(input: Seq<u8>, from: int, eof: bool) -> SpecLine {
    let i = find_nl(input, from);
    if i < input.len() {
        SpecLine::Data { content: trim_crlf(input.subrange(from, i + 1)), next: i + 1 }
    } else if !eof {
        SpecLine::NeedMore
    } else if from >= input.len() {
        SpecLine::End
    } else {
        SpecLine::Data {
            content: trim_crlf(input.subrange(from, input.len() as int)),
            next: input.len() as int,
        }
    }
}

pub proof fn lemma_take_line_bounds(input: Seq<u8>, from: int, eof: bool)
    requires
        0 <= from <= input.len(),
    ensures
        spec_take_line(input, from, eof) matches SpecLine::Data { next, .. } ==> from < next
            <= input.len(),
{
    lemma_find_nl_bounds(input, from);
}

enum LineStep<'a> {
    NeedMore,
    End,
    Data { content: &'a [u8], next: usize },
}

spec fn line_matches(r: LineStep, s: SpecLine) -> bool {
    match (r, s) {
        (LineStep::NeedMore, SpecLine::NeedMore) => true,
        (LineStep::End, SpecLine::End) => true,
        (
            LineStep::Data { content, next },
            SpecLine::Data { content: sc, next: sn },
        ) => content@ == sc && next == sn,
        _ => false,
    }
}

fn take_line<'a>(input: &'a [u8], from: usize, eof: bool) -> (r: LineStep<'a>)
    requires
        from <= input@.len(),
    ensures
        line_matches(r, spec_take_line(input@, from as int, eof)),
        r matches LineStep::Data { next, .. } ==> from < next <= input@.len(),
{
    let n = input.len();
    let mut i: usize = from;
    while i < n && input[i] != 10
        invariant
            n == input@.len(),
            from <= i <= n,
            forall|k: int| from <= k < i ==> input@[k] != 10,
        decreases n - i,
    {
        i = i + 1;
    }
    proof {
        lemma_find_nl_is(input@, from as int, i as int);
    }
    if i < n {
        let end = i + 1;
        let mut e: usize = end;
        while e > from && (input[e - 1] == 13 || input[e - 1] == 10)
            invariant
                n == input@.len(),
                from <= e <= end <= n,
                forall|k: int| e <= k < end ==> (input@[k] == 13 || input@[k] == 10),
            decreases e,
        {
            e = e - 1;
        }
        let content = &input[from..e];
        proof {
            let raw = input@.subrange(from as int, end as int);
            lemma_trim_crlf_is(raw, e - from);
            assert(raw.subrange(0, e - from) =~= input@.subrange(from as int, e as int));
        }
        LineStep::Data { content, next: end }
    } else if !eof {
        LineStep::NeedMore
    } else if from == n {
        LineStep::End
    } else {
        let mut e: usize = n;
        while e > from && (input[e - 1] == 13 || input[e - 1] == 10)
            invariant
                n == input@.len(),
                from <= e <= n,
                forall|k: int| e <= k < n ==> (input@[k] == 13 || input@[k] == 10),
            decreases e,
        {
            e = e - 1;
        }
        let content = &input[from..e];
        proof {
            let raw = input@.subrange(from as int, n as int);
            lemma_trim_crlf_is(raw, e - from);
            assert(raw.subrange(0, e - from) =~= input@.subrange(from as int, e as int));
        }
        LineStep::Data { content, next: n }
    }
}

#[verifier::external_type_specification]
#[verifier::external_body]
pub struct ExUtf8Error(core::str::Utf8Error);

/// Relies on `core::str::from_utf8`: succeeds exactly on valid UTF-8, and
/// the returned string slice views exactly the given bytes.
pub assume_specification[ core::str::from_utf8 ](v: &[u8]) -> (r: Result<&str, core::str::Utf8Error>)
    ensures
        r is Ok <==> valid_utf8(v@),
        r matches Ok(s) ==> s.spec_bytes() == v@,
;

/// Decode `v` as UTF-8.
fn bytes_to_str<'a>(v: &'a [u8]) -> (r: Option<&'a str>)
    ensures
        r is Some <==> valid_utf8(v@),
        r matches Some(s) ==> s@ == decode_utf8(v@),
{
    match core::str::from_utf8(v) {
        Ok(s) => {
            proof {
                encode_utf8_decode_utf8(s@);
            }
            Some(s)
        },
        Err(_) => None,
    }
}

/// The header entry that a header line yields: the part before the first
/// colon is the name and the part after it the value, both trimmed; a line
/// without a colon is malformed.
pub open spec fn spec_header_entry(line: Seq<char>) -> Option<(Seq<char>, Seq<char>)> {
    let i = find_char(line, ':');
    if i == line.len() {
        None
    } else {
        Some((trim_ws(line.subrange(0, i)), trim_ws(line.subrange(i + 1, line.len() as int))))
    }
}

fn parse_header_line(line: &str) -> (r: Option<(Key, Value)>)
    ensures
        match (r, spec_header_entry(line@)) {
            (Some(p), Some(h)) => p.0@ == h.0 && p.1@ == h.1,
            (None, None) => true,
            _ => false,
        },
{
    match index_of_char(line, ':') {
        None => None,
        Some(i) => {
            let n = line.unicode_len();
            let k = trim(line.substring_char(0, i));
            let v = trim(line.substring_char(i + 1, n));
            Some((k, v))
        },
    }
}

/// The outcome of reading the header block, at the specification level.
pub enum SpecHeaders {
    /// The block is not complete yet and the peer may still send more.
    NeedMore,
    /// A definite parse failure.
    Fail(ParseError),
    /// The parsed headers in order, and the position right after the blank
    /// line (or the end of input when the block ended at the end of input).
    Done { headers: Seq<(Seq<char>, Seq<char>)>, next: int },
}

/// Prepend already-parsed headers to the outcome of the rest of the block.
pub open spec fn spec_hprepend(pre: Seq<(Seq<char>, Seq<char>)>, s: SpecHeaders) -> SpecHeaders {
    match s {
        SpecHeaders::Done { headers, next } => SpecHeaders::Done { headers: pre + headers, next },
        _ => s,
    }
}

/// Read header lines from `from` until a blank line or the end of input.
/// Each line must hold a colon; name and value are the trimmed parts around
/// the first one.
pub open spec fn spec_parse_headers(input: Seq<u8>, from: int, eof: bool) -> SpecHeaders
    decreases input.len() - from,
    via spec_parse_headers_decreases
{
    match spec_take_line(input, from, eof) {
        SpecLine::NeedMore => SpecHeaders::NeedMore,
        SpecLine::End => SpecHeaders::Done { headers: Seq::empty(), next: input.len() as int },
        SpecLine::Data { content, next } => {
            if content.len() == 0 {
                SpecHeaders::Done { headers: Seq::empty(), next }
            } else if !valid_utf8(content) {
                SpecHeaders::Fail(ParseError::InvalidEncoding)
            } else {
                match spec_header_entry(decode_utf8(content)) {
                    None => SpecHeaders::Fail(ParseError::MalformedHeader),
                    Some(h) => spec_hprepend(seq![h], spec_parse_headers(input, next, eof)),
                }
            }
        },
    }
}

#[via_fn]
proof fn spec_parse_headers_decreases(input: Seq<u8>, from: int, eof: bool) {
    if 0 <= from && from <= input.len() {
        lemma_take_line_bounds(input, from, eof);
    }
}

proof fn lemma_hprepend_assoc(
    a: Seq<(Seq<char>, Seq<char>)>,
    b: Seq<(Seq<char>, Seq<char>)>,
    s: SpecHeaders,
)
    ensures
        spec_hprepend(a, spec_hprepend(b, s)) == spec_hprepend(a + b, s),
{
    match s {
        SpecHeaders::Done { headers, next } => {
            assert(a + (b + headers) =~= (a + b) + headers);
        },
        _ => {},
    }
}

enum HeaderStep {
    NeedMore,
    Fail(ParseError),
    Done { headers: Vec<(Key, Value)>, next: usize },
}

spec fn hstep_matches(r: HeaderStep, s: SpecHeaders) -> bool {
    match (r, s) {
        (HeaderStep::NeedMore, SpecHeaders::NeedMore) => true,
        (HeaderStep::Fail(e), SpecHeaders::Fail(se)) => e == se,
        (
            HeaderStep::Done { headers, next },
            SpecHeaders::Done { headers: sh, next: sn },
        ) => header_views(headers@) == sh && next == sn,
        _ => false,
    }
}

fn parse_headers(input: &[u8], from: usize, eof: bool) -> (r: HeaderStep)
    requires
        from <= input@.len(),
    ensures
        hstep_matches(r, spec_parse_headers(input@, from as int, eof)),
        r matches HeaderStep::Done { next, .. } ==> from <= next <= input@.len(),
{
    let mut pos: usize = from;
    let mut acc: Vec<(Key, Value)> = Vec::new();
    loop
        invariant
            from <= pos <= input@.len(),
            spec_parse_headers(input@, from as int, eof) == spec_hprepend(
                header_views(acc@),
                spec_parse_headers(input@, pos as int, eof),
            ),
        decreases input@.len() - pos,
    {
        let ghost s_pos = spec_parse_headers(input@, pos as int, eof);
        match take_line(input, pos, eof) {
            LineStep::NeedMore => {
                return HeaderStep::NeedMore;
            },
            LineStep::End => {
                proof {
                    assert(s_pos == SpecHeaders::Done {
                        headers: Seq::empty(),
                        next: input@.len() as int,
                    });
                    assert(header_views(acc@) + Seq::empty() =~= header_views(acc@));
                }
                return HeaderStep::Done { headers: acc, next: input.len() };
            },
            LineStep::Data { content, next } => {
                if content.len() == 0 {
                    proof {
                        assert(s_pos == SpecHeaders::Done {
                            headers: Seq::empty(),
                            next: next as int,
                        });
                        assert(header_views(acc@) + Seq::empty() =~= header_views(acc@));
                    }
                    return HeaderStep::Done { headers: acc, next };
                }
                match bytes_to_str(content) {
                    None => {
                        return HeaderStep::Fail(ParseError::InvalidEncoding);
                    },
                    Some(line) => {
                        match parse_header_line(line) {
                            None => {
                                return HeaderStep::Fail(ParseError::MalformedHeader);
                            },
                            Some(p) => {
                                let ghost h = (p.0@, p.1@);
                                let ghost prev = acc@;
                                acc.push(p);
                                proof {
                                    assert(s_pos == spec_hprepend(
                                        seq![h],
                                        spec_parse_headers(input@, next as int, eof),
                                    ));
                                    lemma_hprepend_assoc(
                                        header_views(prev),
                                        seq![h],
                                        spec_parse_headers(input@, next as int, eof),
                                    );
                                    assert(header_views(prev) + seq![h] =~= header_views(acc@));
                                }
                                pos = next;
                            },
                        }
                    },
                }
            },
        }
    }
}

/// A parsed request, at the specification level.
pub struct SpecRequest {
    pub method: Seq<char>,
    pub path: Seq<char>,
    pub version: Seq<char>,
    pub headers: Seq<(Seq<char>, Seq<char>)>,
    pub body: Option<Seq<u8>>,
}

/// The outcome of one parse attempt, at the specification level.
pub enum SpecParse {
    /// The input so far holds no complete request and the peer may still
    /// send more.
    NeedMore,
    /// The peer closed with no bytes pending: a clean end of the connection.
    ConnectionClosed,
    /// A definite parse failure.
    Fail(ParseError),
    /// A complete request and the number of input bytes it used.
    Complete { req: SpecRequest, used: int },
}

/// The declared body length: the value of the first `Content-Length` header,
/// looked up case-insensitively.
pub open spec fn spec_content_length(headers: Seq<(Seq<char>, Seq<char>)>) -> Option<Seq<char>> {
    spec_header_value_vs(headers, "Content-Length"@)
}

/// Parse one request from the front of `input`: the request line (exactly
/// three white-space-separated tokens), the header block, then, when a
/// positive `Content-Length` was declared, exactly that many body bytes.
pub open spec fn spec_parse_request(input: Seq<u8>, eof: bool) -> SpecParse {
    match spec_take_line(input, 0, eof) {
        SpecLine::NeedMore => SpecParse::NeedMore,
        SpecLine::End => SpecParse::ConnectionClosed,
        SpecLine::Data { content, next } => {
            if !valid_utf8(content) {
                SpecParse::Fail(ParseError::InvalidEncoding)
            } else {
                let toks = split_ws(decode_utf8(content));
                if toks.len() != 3 {
                    SpecParse::Fail(ParseError::InvalidRequestLine)
                } else {
                    match spec_parse_headers(input, next, eof) {
                        SpecHeaders::NeedMore => SpecParse::NeedMore,
                        SpecHeaders::Fail(e) => SpecParse::Fail(e),
                        SpecHeaders::Done { headers, next: body_start } => {
                            match spec_content_length(headers) {
                                None => SpecParse::Complete {
                                    req: SpecRequest {
                                        method: toks[0],
                                        path: toks[1],
                                        version: toks[2],
                                        headers,
                                        body: None,
                                    },
                                    used: body_start,
                                },
                                Some(v) => {
                                    if !parse_usize_ok(v) {
                                        SpecParse::Fail(ParseError::InvalidContentLength)
                                    } else {
                                        let len = dec_value(digits_of(v));
                                        if len == 0 {
                                            SpecParse::Complete {
                                                req: SpecRequest {
                                                    method: toks[0],
                                                    path: toks[1],
                                                    version: toks[2],
                                                    headers,
                                                    body: None,
                                                },
                                                used: body_start,
                                            }
                                        } else if body_start + len <= input.len() {
                                            SpecParse::Complete {
                                                req: SpecRequest {
                                                    method: toks[0],
                                                    path: toks[1],
                                                    version: toks[2],
                                                    headers,
                                                    body: Some(
                                                        input.subrange(
                                                            body_start,
                                                            body_start + len,
                                                        ),
                                                    ),
                                                },
                                                used: body_start + len,
                                            }
                                        } else if eof {
                                            SpecParse::Fail(ParseError::TruncatedBody)
                                        } else {
                                            SpecParse::NeedMore
                                        }
                                    }
                                },
                            }
                        },
                    }
                }
            }
        },
    }
}

/// Whether the executable request carries exactly the data of the
/// specification-level one. The parser never sets a peer address.
pub open spec fn req_matches(r: Request, s: SpecRequest) -> bool {
    &&& r.method@ == s.method
    &&& r.path@ == s.path
    &&& r.http_version@ == s.version
    &&& header_views(r.headers@) == s.headers
    &&& match (r.body, s.body) {
        (Some(b), Some(sb)) => b@ == sb,
        (None, None) => true,
        _ => false,
    }
    &&& r.peer_addr is None
}

/// The outcome of one parse attempt.
pub enum ParseStep {
    /// The input so far holds no complete request and the peer may still
    /// send more.
    NeedMore,
    /// The peer closed with no bytes pending: a clean end of the connection.
    ConnectionClosed,
    /// A definite parse failure; the connection must be torn down.
    Fail(ParseError),
    /// A complete request and the number of input bytes it used; the caller
    /// continues after those bytes.
    Complete { request: Request, used: usize },
}

/// Whether the executable outcome carries exactly the data of the
/// specification-level one.
pub open spec fn step_matches(r: ParseStep, s: SpecParse) -> bool {
    match (r, s) {
        (ParseStep::NeedMore, SpecParse::NeedMore) => true,
        (ParseStep::ConnectionClosed, SpecParse::ConnectionClosed) => true,
        (ParseStep::Fail(e), SpecParse::Fail(se)) => e == se,
        (
            ParseStep::Complete { request, used },
            SpecParse::Complete { req, used: su },
        ) => req_matches(request, req) && used == su,
        _ => false,
    }
}

/// Parse one request from the front of `input`, the bytes received so far;
/// `eof` says whether the peer has closed its end.
pub fn parse_request(input: &[u8], eof: bool) -> (r: ParseStep)
    ensures
        step_matches(r, spec_parse_request(input@, eof)),
        r matches ParseStep::Complete { used, .. } ==> used <= input@.len(),
{
    match take_line(input, 0, eof) {
        LineStep::NeedMore => ParseStep::NeedMore,
        LineStep::End => ParseStep::ConnectionClosed,
        LineStep::Data { content, next } => {
            let line = match bytes_to_str(content) {
                None => {
                    return ParseStep::Fail(ParseError::InvalidEncoding);
                },
                Some(s) => s,
            };
            let toks = split_whitespace_tokens(line);
            if toks.len() != 3 {
                return ParseStep::Fail(ParseError::InvalidRequestLine);
            }
            let method = toks[0].clone();
            let path = toks[1].clone();
            let version = toks[2].clone();
            match parse_headers(input, next, eof) {
                HeaderStep::NeedMore => ParseStep::NeedMore,
                HeaderStep::Fail(e) => ParseStep::Fail(e),
                HeaderStep::Done { headers, next: body_start } => {
                    let mut req = Request {
                        method,
                        path,
                        http_version: version,
                        headers,
                        body: None,
                        peer_addr: None,
                    };
                    let mut invalid_content_length = false;
                    let mut body_len: usize = 0;
                    match req.header_value("Content-Length") {
                        None => {},
                        Some(v) => {
                            match parse_usize(v) {
                                None => {
                                    invalid_content_length = true;
                                },
                                Some(n) => {
                                    body_len = n;
                                },
                            }
                        },
                    }
                    if invalid_content_length {
                        return ParseStep::Fail(ParseError::InvalidContentLength);
                    }
                    if body_len > 0 {
                        if body_len <= input.len() - body_start {
                            let bytes = vstd::slice::slice_to_vec(
                                &input[body_start..body_start + body_len],
                            );
                            req.body = Some(bytes);
                            ParseStep::Complete { request: req, used: body_start + body_len }
                        } else if eof {
                            ParseStep::Fail(ParseError::TruncatedBody)
                        } else {
                            ParseStep::NeedMore
                        }
                    } else {
                        ParseStep::Complete { request: req, used: body_start }
                    }
                },
            }
        },
    }
}

/// Drop the first `n` bytes of `buf`: after a complete parse, the driver
/// discards exactly the used bytes and keeps the rest for the next request.
pub fn discard_front(buf: &mut Vec<u8>, n: usize)
    requires
        n <= old(buf)@.len(),
    ensures
        final(buf)@ == old(buf)@.skip(n as int),
{
    let rest = vstd::slice::slice_to_vec(&buf.as_slice()[n..buf.len()]);
    *buf = rest;
    proof {
        assert(buf@ =~= old(buf)@.skip(n as int));
    }
}

// ---------------------------------------------------------------------------
// Pipelining law: a complete parse is stable under further input
// ---------------------------------------------------------------------------
proof fn lemma_find_nl_prefix(input: Seq<u8>, extra: Seq<u8>, from: int)
    requires
        0 <= from <= input.len(),
        find_nl(input, from) < input.len(),
    ensures
        find_nl(input + extra, from) == find_nl(input, from),
{
    let j = find_nl(input, from);
    lemma_find_nl_bounds(input, from);
    assert(forall|k: int| from <= k < j ==> input[k] != 10) by {
        lemma_find_nl_chars(input, from);
    }
    assert(forall|k: int| from <= k < j ==> (input + extra)[k] != 10);
    lemma_find_nl_is(input + extra, from, j);
}

proof fn lemma_find_nl_chars(input: Seq<u8>, from: int)
    requires
        0 <= from <= input.len(),
    ensures
        forall|k: int| from <= k < find_nl(input, from) ==> input[k] != 10,
    decreases input.len() - from,
{
    if from < input.len() && input[from] != 10 {
        lemma_find_nl_chars(input, from + 1);
    }
}

proof fn lemma_take_line_prefix(input: Seq<u8>, extra: Seq<u8>, from: int, eof2: bool)
    requires
        0 <= from <= input.len(),
        spec_take_line(input, from, false) is Data,
    ensures
        spec_take_line(input + extra, from, eof2) == spec_take_line(input, from, false),
{
    let j = find_nl(input, from);
    lemma_find_nl_bounds(input, from);
    assert(j < input.len());
    lemma_find_nl_prefix(input, extra, from);
    assert((input + extra).subrange(from, j + 1) =~= input.subrange(from, j + 1));
}

proof fn lemma_parse_headers_next_bounds(input: Seq<u8>, from: int, eof: bool)
    requires
        0 <= from <= input.len(),
    ensures
        spec_parse_headers(input, from, eof) matches SpecHeaders::Done { next, .. } ==> from <= next
            <= input.len(),
    decreases input.len() - from,
{
    match spec_take_line(input, from, eof) {
        SpecLine::Data { content, next } => {
            lemma_take_line_bounds(input, from, eof);
            if content.len() > 0 && valid_utf8(content) {
                match spec_header_entry(decode_utf8(content)) {
                    Some(_) => {
                        lemma_parse_headers_next_bounds(input, next, eof);
                    },
                    None => {},
                }
            }
        },
        _ => {},
    }
}

proof fn lemma_parse_headers_prefix(input: Seq<u8>, extra: Seq<u8>, from: int, eof2: bool)
    requires
        0 <= from <= input.len(),
        spec_parse_headers(input, from, false) is Done,
    ensures
        spec_parse_headers(input + extra, from, eof2) == spec_parse_headers(input, from, false),
    decreases input.len() - from,
{
    match spec_take_line(input, from, false) {
        SpecLine::NeedMore => {
            assert(false);
        },
        SpecLine::End => {
            lemma_find_nl_bounds(input, from);
            assert(false);
        },
        SpecLine::Data { content, next } => {
            lemma_take_line_bounds(input, from, false);
            lemma_take_line_prefix(input, extra, from, eof2);
            if content.len() == 0 {
            } else if !valid_utf8(content) {
                assert(false);
            } else {
                match spec_header_entry(decode_utf8(content)) {
                    None => {
                        assert(false);
                    },
                    Some(h) => {
                        match spec_parse_headers(input, next, false) {
                            SpecHeaders::Done { .. } => {
                                lemma_parse_headers_prefix(input, extra, next, eof2);
                            },
                            _ => {
                                assert(false);
                            },
                        }
                    },
                }
            }
        },
    }
}

/// A complete parse is stable under further input: when the bytes received
/// so far already parse to a complete request without relying on the end of
/// the stream, appending anything — a pipelined second request, for
/// instance — and any later end-of-stream state leave the result, and the
/// count of bytes it used, exactly as they were. The driver may therefore
/// serve the parsed request and continue at the first unused byte.
pub proof fn lemma_parse_complete_prefix_stable(input: Seq<u8>, extra: Seq<u8>, eof2: bool)
    requires
        spec_parse_request(input, false) is Complete,
    ensures
        spec_parse_request(input + extra, eof2) == spec_parse_request(input, false),
{
    match spec_take_line(input, 0, false) {
        SpecLine::NeedMore => {
            assert(false);
        },
        SpecLine::End => {
            lemma_find_nl_bounds(input, 0);
            assert(false);
        },
        SpecLine::Data { content, next } => {
            let ext = input + extra;
            lemma_take_line_bounds(input, 0, false);
            lemma_take_line_prefix(input, extra, 0, eof2);
            assert(spec_take_line(ext, 0, eof2) == SpecLine::Data { content, next });
            assert(valid_utf8(content));
            let toks = split_ws(decode_utf8(content));
            assert(toks.len() == 3);
            match spec_parse_headers(input, next, false) {
                SpecHeaders::Done { headers, next: body_start } => {
                    lemma_parse_headers_next_bounds(input, next, false);
                    lemma_parse_headers_prefix(input, extra, next, eof2);
                    assert(spec_parse_headers(ext, next, eof2) == SpecHeaders::Done {
                        headers,
                        next: body_start,
                    });
                    let req_bodyless = SpecRequest {
                        method: toks[0],
                        path: toks[1],
                        version: toks[2],
                        headers,
                        body: None,
                    };
                    match spec_content_length(headers) {
                        None => {
                            assert(spec_parse_request(input, false) == SpecParse::Complete {
                                req: req_bodyless,
                                used: body_start,
                            });
                            assert(spec_parse_request(ext, eof2) == SpecParse::Complete {
                                req: req_bodyless,
                                used: body_start,
                            });
                        },
                        Some(v) => {
                            assert(parse_usize_ok(v));
                            let len = dec_value(digits_of(v));
                            crate::num::lemma_dec_value_nonneg(digits_of(v));
                            if len > 0 {
                                assert(body_start + len <= input.len());
                                assert(ext.subrange(body_start, body_start + len)
                                    == input.subrange(body_start, body_start + len)) by {
                                    assert(ext.subrange(body_start, body_start + len)
                                        =~= input.subrange(body_start, body_start + len));
                                }
                                assert(body_start + len <= ext.len());
                                let req_i = SpecRequest {
                                    method: toks[0],
                                    path: toks[1],
                                    version: toks[2],
                                    headers,
                                    body: Some(input.subrange(body_start, body_start + len)),
                                };
                                assert(spec_parse_request(input, false) == SpecParse::Complete {
                                    req: req_i,
                                    used: body_start + len,
                                });
                                assert(spec_parse_request(ext, eof2) == SpecParse::Complete {
                                    req: req_i,
                                    used: body_start + len,
                                });
                            } else {
                                assert(spec_parse_request(input, false) == SpecParse::Complete {
                                    req: req_bodyless,
                                    used: body_start,
                                });
                                assert(spec_parse_request(ext, eof2) == SpecParse::Complete {
                                    req: req_bodyless,
                                    used: body_start,
                                });
                            }
                        },
                    }
                },
                _ => {
                    assert(false);
                },
            }
        },
    }
}

} // verus!
