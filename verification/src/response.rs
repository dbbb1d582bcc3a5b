//! The response and its wire serialization: a status line, an ordered header
//! list in insertion order, and a body. Serialization injects a
//! `Content-Length` header when the caller set none, and a "status only"
//! response serializes as the bare status line followed by the blank line.

use vstd::prelude::*;
use vstd::utf8::encode_utf8;

use crate::num::dec_chars;
use crate::num::u64_to_dec_string;
use crate::request::header_views;
use crate::text::eq_ci;
use crate::text::eq_ignore_case;

verus! {

/// One HTTP response.
#[derive(Debug)]
pub struct Response {
    pub status_code: u16,
    pub reason: String,
    pub headers: Vec<(String, String)>,
    pub body: Vec<u8>,
    /// When true, the response is written as the status line and the
    /// terminating blank line alone, whatever headers or body are set.
    pub status_only: bool,
}

/// Whether some header name equals `Content-Length` up to ASCII case.
pub open spec fn spec_has_content_length(hs: Seq<(String, String)>) -> bool {
    exists|i: int| 0 <= i < hs.len() && eq_ci(hs[i].0@, "Content-Length"@)
}

/// The header lines that serialization emits: the caller's headers in
/// insertion order, then an injected `Content-Length` when the caller set
/// none and injection is asked for.
pub open spec fn spec_emitted_headers(r: Response, include_content_length: bool) -> Seq<
    (Seq<char>, Seq<char>),
> {
    if include_content_length && !spec_has_content_length(r.headers@) {
        header_views(r.headers@).push(("Content-Length"@, dec_chars(r.body@.len())))
    } else {
        header_views(r.headers@)
    }
}

/// The wire bytes of one header line.
pub open spec fn spec_header_line(h: (Seq<char>, Seq<char>)) -> Seq<u8> {
    encode_utf8(h.0) + encode_utf8(": "@) + encode_utf8(h.1) + encode_utf8("\r\n"@)
}

/// The wire bytes of a block of header lines.
pub open spec fn spec_header_block(hs: Seq<(Seq<char>, Seq<char>)>) -> Seq<u8>
    decreases hs.len(),
{
    if hs.len() == 0 {
        Seq::empty()
    } else {
        spec_header_line(hs[0]) + spec_header_block(hs.drop_first())
    }
}

/// The wire bytes of the status line.
pub open spec fn spec_status_line(r: Response) -> Seq<u8> {
    encode_utf8("HTTP/1.1 "@) + encode_utf8(dec_chars(r.status_code as nat)) + encode_utf8(" "@)
        + encode_utf8(r.reason@) + encode_utf8("\r\n"@)
}

/// The wire bytes of everything up to and including the blank line.
pub open spec fn spec_head(r: Response, include_content_length: bool) -> Seq<u8> {
    if r.status_only {
        spec_status_line(r) + encode_utf8("\r\n"@)
    } else {
        spec_status_line(r) + spec_header_block(spec_emitted_headers(r, include_content_length))
            + encode_utf8("\r\n"@)
    }
}

/// The full wire bytes: head, then the body unless the response is
/// status-only.
pub open spec fn spec_serialized(r: Response) -> Seq<u8> {
    if r.status_only {
        spec_head(r, true)
    } else {
        spec_head(r, true) + r.body@
    }
}

proof fn lemma_header_block_push(hs: Seq<(Seq<char>, Seq<char>)>, x: (Seq<char>, Seq<char>))
    ensures
        spec_header_block(hs.push(x)) =~= spec_header_block(hs) + spec_header_line(x),
    decreases hs.len(),
{
    if hs.len() == 0 {
        let e = Seq::<(Seq<char>, Seq<char>)>::empty();
        assert(hs.push(x).drop_first() =~= e);
        assert(hs.push(x)[0] == x);
        assert(spec_header_block(e) == Seq::<u8>::empty());
        assert(spec_header_block(hs.push(x)) == spec_header_line(x) + Seq::<u8>::empty());
        assert(spec_header_line(x) + Seq::<u8>::empty() =~= spec_header_line(x));
        assert(hs =~= e);
        assert(spec_header_block(hs) + spec_header_line(x) =~= spec_header_line(x));
    } else {
        assert(hs.push(x).drop_first() =~= hs.drop_first().push(x));
        lemma_header_block_push(hs.drop_first(), x);
        assert(spec_header_block(hs.push(x)) =~= spec_header_line(hs[0]) + (spec_header_block(
            hs.drop_first(),
        ) + spec_header_line(x)));
        assert(spec_header_line(hs[0]) + (spec_header_block(hs.drop_first()) + spec_header_line(x))
            =~= spec_header_block(hs) + spec_header_line(x));
    }
}

/// Whether `k` names the `Content-Length` header, up to ASCII case.
fn is_content_length_name(k: &str) -> (b: bool)
    ensures
        b == eq_ci(k@, "Content-Length"@),
{
    let b = eq_ignore_case(k, "content-length");
    proof {
        reveal_strlit("content-length");
        reveal_strlit("Content-Length");
        assert(eq_ci(k@, "content-length"@) == eq_ci(k@, "Content-Length"@));
    }
    b
}

/// Append one header line, `{k}: {v}\r\n`, to `buf`.
fn push_header_line(buf: &mut Vec<u8>, k: &str, v: &str)
    ensures
        final(buf)@ == old(buf)@ + spec_header_line((k@, v@)),
{
    buf.extend_from_slice(k.as_bytes());
    buf.extend_from_slice(": ".as_bytes());
    buf.extend_from_slice(v.as_bytes());
    buf.extend_from_slice("\r\n".as_bytes());
    proof {
        assert(buf@ =~= old(buf)@ + spec_header_line((k@, v@)));
    }
}

impl Response {
    /// A response with the given status line and nothing else set.
    pub fn new(status_code: u16, reason: &str) -> (r: Response)
        ensures
            r.status_code == status_code,
            r.reason@ == reason@,
            r.headers@.len() == 0,
            r.body@.len() == 0,
            !r.status_only,
    {
        Response {
            status_code,
            reason: String::from_str(reason),
            headers: Vec::new(),
            body: Vec::new(),
            status_only: false,
        }
    }

    /// A normal 200 text response.
    pub fn ok_text(body: &str) -> (r: Response)
        ensures
            r.status_code == 200,
            r.reason@ == "OK"@,
            header_views(r.headers@) =~= seq![("Content-Type"@, "text/plain"@)],
            r.body@ == encode_utf8(body@),
            !r.status_only,
    {
        let mut r = Response::new(200, "OK");
        r.header("Content-Type", "text/plain");
        r.body_bytes(vstd::slice::slice_to_vec(body.as_bytes()));
        proof {
            assert(header_views(r.headers@) =~= seq![("Content-Type"@, "text/plain"@)]);
        }
        r
    }

    /// A 404 response with a plain-text body.
    pub fn not_found() -> (r: Response)
        ensures
            r.status_code == 404,
            r.reason@ == "Not Found"@,
            header_views(r.headers@) =~= seq![("Content-Type"@, "text/plain"@)],
            r.body@ == encode_utf8("Not Found"@),
            !r.status_only,
    {
        let mut r = Response::new(404, "Not Found");
        r.header("Content-Type", "text/plain");
        r.body_bytes(vstd::slice::slice_to_vec("Not Found".as_bytes()));
        proof {
            assert(header_views(r.headers@) =~= seq![("Content-Type"@, "text/plain"@)]);
        }
        r
    }

    /// A 201 response with no headers and no body beyond the injected
    /// `Content-Length`.
    pub fn created() -> (r: Response)
        ensures
            r.status_code == 201,
            r.reason@ == "Created"@,
            r.headers@.len() == 0,
            r.body@.len() == 0,
            !r.status_only,
    {
        Response::new(201, "Created")
    }

    /// A "status only" response that serializes exactly as
    /// `HTTP/1.1 {status} {reason}\r\n\r\n`.
    pub fn status_only(status_code: u16, reason: &str) -> (r: Response)
        ensures
            r.status_code == status_code,
            r.reason@ == reason@,
            r.headers@.len() == 0,
            r.body@.len() == 0,
            r.status_only,
    {
        Response {
            status_code,
            reason: String::from_str(reason),
            headers: Vec::new(),
            body: Vec::new(),
            status_only: true,
        }
    }

    /// Append a header.
    pub fn header(&mut self, key: &str, value: &str)
        ensures
            header_views(final(self).headers@) =~= header_views(old(self).headers@).push(
                (key@, value@),
            ),
            final(self).status_code == old(self).status_code,
            final(self).reason == old(self).reason,
            final(self).body == old(self).body,
            final(self).status_only == old(self).status_only,
    {
        self.headers.push((String::from_str(key), String::from_str(value)));
        proof {
            assert(header_views(self.headers@) =~= header_views(old(self).headers@).push(
                (key@, value@),
            ));
        }
    }

    /// Set the response body from raw bytes.
    pub fn body_bytes(&mut self, bytes: Vec<u8>)
        ensures
            final(self).body == bytes,
            final(self).status_code == old(self).status_code,
            final(self).reason == old(self).reason,
            final(self).headers == old(self).headers,
            final(self).status_only == old(self).status_only,
    {
        self.body = bytes;
    }

    /// Write the status line and headers into `buf`, injecting a
    /// `Content-Length` header when `include_content_length` is set and the
    /// caller put none in.
    pub fn write_head(&self, buf: &mut Vec<u8>, include_content_length: bool)
        ensures
            final(buf)@ == old(buf)@ + spec_head(*self, include_content_length),
    {
        buf.extend_from_slice("HTTP/1.1 ".as_bytes());
        let code = u64_to_dec_string(self.status_code as u64);
        buf.extend_from_slice(code.as_str().as_bytes());
        buf.extend_from_slice(" ".as_bytes());
        buf.extend_from_slice(self.reason.as_str().as_bytes());
        buf.extend_from_slice("\r\n".as_bytes());
        proof {
            assert(buf@ =~= old(buf)@ + spec_status_line(*self));
        }
        if self.status_only {
            buf.extend_from_slice("\r\n".as_bytes());
            proof {
                assert(buf@ =~= old(buf)@ + spec_head(*self, include_content_length));
            }
            return ;
        }
        let ghost views = header_views(self.headers@);
        let n = self.headers.len();
        let mut has_content_length = false;
        let mut i: usize = 0;
        while i < n
            invariant
                n == self.headers@.len(),
                i <= n,
                views == header_views(self.headers@),
                buf@ == old(buf)@ + spec_status_line(*self) + spec_header_block(
                    views.subrange(0, i as int),
                ),
                has_content_length == exists|k: int|
                    0 <= k < i && eq_ci(self.headers@[k].0@, "Content-Length"@),
            decreases n - i,
        {
            let pair = &self.headers[i];
            if is_content_length_name(pair.0.as_str()) {
                has_content_length = true;
            }
            push_header_line(buf, pair.0.as_str(), pair.1.as_str());
            proof {
                assert(views.subrange(0, i + 1) =~= views.subrange(0, i as int).push(views[i as int]));
                lemma_header_block_push(views.subrange(0, i as int), views[i as int]);
                assert(buf@ =~= old(buf)@ + spec_status_line(*self) + spec_header_block(
                    views.subrange(0, i + 1),
                ));
            }
            i = i + 1;
        }
        proof {
            assert(views.subrange(0, n as int) =~= views);
            assert(has_content_length == spec_has_content_length(self.headers@));
        }
        if include_content_length && !has_content_length {
            let len_s = u64_to_dec_string(self.body.len() as u64);
            push_header_line(buf, "Content-Length", len_s.as_str());
            proof {
                let x = ("Content-Length"@, dec_chars(self.body@.len()));
                lemma_header_block_push(views, x);
                assert(buf@ =~= old(buf)@ + spec_status_line(*self) + spec_header_block(
                    spec_emitted_headers(*self, include_content_length),
                ));
            }
        }
        buf.extend_from_slice("\r\n".as_bytes());
        proof {
            assert(buf@ =~= old(buf)@ + spec_head(*self, include_content_length));
        }
    }

    /// Build the full response, headers and body, as wire bytes.
    pub fn build_raw(&self) -> (raw: Vec<u8>)
        ensures
            raw@ == spec_serialized(*self),
    {
        let mut raw: Vec<u8> = Vec::new();
        self.write_head(&mut raw, true);
        if !self.status_only {
            raw.extend_from_slice(self.body.as_slice());
        }
        proof {
            assert(raw@ =~= spec_serialized(*self));
        }
        raw
    }

    /// Build the head alone: status line, headers, and the blank line.
    pub fn build_headers_raw(&self) -> (raw: Vec<u8>)
        ensures
            raw@ == spec_head(*self, true),
    {
        let mut raw: Vec<u8> = Vec::new();
        self.write_head(&mut raw, true);
        proof {
            assert(raw@ =~= spec_head(*self, true));
        }
        raw
    }
}

/// How many header names equal `Content-Length` up to ASCII case.
pub open spec fn count_content_length(hs: Seq<(Seq<char>, Seq<char>)>) -> int
    decreases hs.len(),
{
    if hs.len() == 0 {
        0int
    } else {
        (if eq_ci(hs[0].0, "Content-Length"@) {
            1int
        } else {
            0int
        }) + count_content_length(hs.drop_first())
    }
}

proof fn lemma_count_content_length_push(hs: Seq<(Seq<char>, Seq<char>)>, x: (Seq<char>, Seq<char>))
    ensures
        count_content_length(hs.push(x)) == count_content_length(hs) + (if eq_ci(
            x.0,
            "Content-Length"@,
        ) {
            1int
        } else {
            0int
        }),
    decreases hs.len(),
{
    if hs.len() == 0 {
        let e = Seq::<(Seq<char>, Seq<char>)>::empty();
        assert(hs.push(x).drop_first() =~= e);
        assert(hs.push(x)[0] == x);
        assert(count_content_length(e) == 0);
        assert(hs =~= e);
    } else {
        assert(hs.push(x).drop_first() =~= hs.drop_first().push(x));
        assert(hs.push(x)[0] == hs[0]);
        lemma_count_content_length_push(hs.drop_first(), x);
    }
}

proof fn lemma_count_content_length_zero(hs: Seq<(Seq<char>, Seq<char>)>)
    requires
        forall|i: int| 0 <= i < hs.len() ==> !eq_ci(hs[i].0, "Content-Length"@),
    ensures
        count_content_length(hs) == 0,
    decreases hs.len(),
{
    if hs.len() > 0 {
        lemma_count_content_length_zero(hs.drop_first());
    }
}

/// Serialization never duplicates a `Content-Length` header: when the caller
/// set exactly one, the emitted header lines hold exactly one, and when the
/// caller set none, exactly the injected one is emitted.
pub proof fn lemma_content_length_not_duplicated(r: Response)
    ensures
        count_content_length(header_views(r.headers@)) >= 1 ==> count_content_length(
            spec_emitted_headers(r, true),
        ) == count_content_length(header_views(r.headers@)),
        count_content_length(header_views(r.headers@)) == 0 ==> count_content_length(
            spec_emitted_headers(r, true),
        ) == 1,
{
    let views = header_views(r.headers@);
    if spec_has_content_length(r.headers@) {
        assert(spec_emitted_headers(r, true) == views);
        if count_content_length(views) == 0 {
            let i = choose|i: int| 0 <= i < r.headers@.len() && eq_ci(
                r.headers@[i].0@,
                "Content-Length"@,
            );
            lemma_count_at_least_one(views, i);
        }
    } else {
        assert(forall|i: int| 0 <= i < views.len() ==> !eq_ci(views[i].0, "Content-Length"@));
        lemma_count_content_length_zero(views);
        let x = ("Content-Length"@, dec_chars(r.body@.len()));
        lemma_count_content_length_push(views, x);
        assert(eq_ci(x.0, "Content-Length"@));
    }
}

proof fn lemma_count_at_least_one(hs: Seq<(Seq<char>, Seq<char>)>, i: int)
    requires
        0 <= i < hs.len(),
        eq_ci(hs[i].0, "Content-Length"@),
    ensures
        count_content_length(hs) >= 1,
    decreases hs.len(),
{
    if i == 0 {
        lemma_count_content_length_nonneg(hs.drop_first());
    } else {
        lemma_count_at_least_one(hs.drop_first(), i - 1);
    }
}

proof fn lemma_count_content_length_nonneg(hs: Seq<(Seq<char>, Seq<char>)>)
    ensures
        count_content_length(hs) >= 0,
    decreases hs.len(),
{
    if hs.len() > 0 {
        lemma_count_content_length_nonneg(hs.drop_first());
    }
}

proof fn lemma_encode_utf8_concat(a: Seq<char>, b: Seq<char>)
    ensures
        encode_utf8(a + b) == encode_utf8(a) + encode_utf8(b),
    decreases a.len(),
{
    if a.len() == 0 {
        assert(a + b =~= b);
        assert(encode_utf8(a) + encode_utf8(b) =~= encode_utf8(b));
    } else {
        assert((a + b).drop_first() =~= a.drop_first() + b);
        lemma_encode_utf8_concat(a.drop_first(), b);
        assert((a + b)[0] == a[0]);
        assert(vstd::utf8::encode_scalar(a[0] as u32) + (encode_utf8(a.drop_first())
            + encode_utf8(b)) =~= (vstd::utf8::encode_scalar(a[0] as u32) + encode_utf8(
            a.drop_first(),
        )) + encode_utf8(b));
    }
}

/// A status-only response serializes to exactly the UTF-8 bytes of
/// `HTTP/1.1 {status} {reason}\r\n\r\n`, as one encoded character sequence.
pub proof fn lemma_status_only_serialized_chars(r: Response)
    requires
        r.status_only,
    ensures
        spec_serialized(r) == encode_utf8(
            "HTTP/1.1 "@ + dec_chars(r.status_code as nat) + " "@ + r.reason@ + "\r\n"@ + "\r\n"@,
        ),
{
    let a = "HTTP/1.1 "@;
    let b = dec_chars(r.status_code as nat);
    let c = " "@;
    let d = r.reason@;
    let e = "\r\n"@;
    let f = "\r\n"@;
    lemma_encode_utf8_concat(a, b);
    lemma_encode_utf8_concat(a + b, c);
    lemma_encode_utf8_concat(a + b + c, d);
    lemma_encode_utf8_concat(a + b + c + d, e);
    lemma_encode_utf8_concat(a + b + c + d + e, f);
}

/// A status-only 404 serializes to exactly `HTTP/1.1 404 Not Found\r\n\r\n`
/// — no headers, no body, byte-exact.
pub proof fn lemma_status_only_404_exact(r: Response)
    requires
        r.status_only,
        r.status_code == 404,
        r.reason@ == "Not Found"@,
    ensures
        spec_serialized(r) == encode_utf8("HTTP/1.1 404 Not Found\r\n\r\n"@),
{
    lemma_status_only_serialized_chars(r);
    reveal_strlit("HTTP/1.1 ");
    reveal_strlit(" ");
    reveal_strlit("Not Found");
    reveal_strlit("\r\n");
    reveal_strlit("HTTP/1.1 404 Not Found\r\n\r\n");
    assert(dec_chars(4nat) =~= seq!['4']);
    assert(dec_chars(40nat) =~= seq!['4', '0']);
    assert(dec_chars(404nat) =~= seq!['4', '0', '4']);
    assert("HTTP/1.1 "@ + dec_chars(404nat) + " "@ + "Not Found"@ + "\r\n"@ + "\r\n"@
        =~= "HTTP/1.1 404 Not Found\r\n\r\n"@);
}

/// A status-only response serializes as the status line and the blank line
/// alone: whatever headers or body are set on the object never reach the
/// wire, so two status-only responses with one status line serialize
/// identically.
pub proof fn lemma_status_only_ignores_headers_and_body(r1: Response, r2: Response)
    requires
        r1.status_only,
        r2.status_only,
        r1.status_code == r2.status_code,
        r1.reason@ == r2.reason@,
    ensures
        spec_serialized(r1) == spec_serialized(r2),
{
}

/// The head-only serialization is byte-identical to the prefix of the full
/// serialization up to and including the blank line.
pub proof fn lemma_head_is_prefix_of_full(r: Response)
    ensures
        spec_serialized(r).subrange(0, spec_head(r, true).len() as int) =~= spec_head(r, true),
        spec_serialized(r).len() >= spec_head(r, true).len(),
{
}

} // verus!
