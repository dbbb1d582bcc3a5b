//! Routing and the built-in route handlers. A single deterministic
//! classification maps a request target to one of the fixed routes; the
//! handlers produce either a complete `Response` or an instruction to the
//! connection driver to touch the filesystem (serving or storing a file),
//! so that everything up to the I/O itself is decided here.

use vstd::prelude::*;
use vstd::utf8::encode_utf8;

use crate::num::dec_chars;
use crate::num::u64_to_dec_string;
use crate::request::header_views;
use crate::request::spec_header_value;
use crate::request::Key;
use crate::request::Request;
use crate::request::Value;
use crate::response::Response;
use crate::text::eq_ci;
use crate::text::eq_ignore_case;
use crate::text::find_char_at;
use crate::text::has_prefix;
use crate::text::index_of_char_from;
use crate::text::lemma_find_char_bounds;
use crate::text::str_eq;
use crate::text::str_has_prefix;

verus! {

// ---------------------------------------------------------------------------
// Path validation
// ---------------------------------------------------------------------------
/// The pieces of `s` between `'/'` separators, from position `i` on.
pub open spec fn split_slash_at(s: Seq<char>, i: int) -> Seq<Seq<char>>
    decreases s.len() - i,
    via split_slash_at_decreases
{
    let j = find_char_at(s, '/', i);
    if j >= s.len() {
        seq![s.subrange(if i <= s.len() { i } else { s.len() as int }, s.len() as int)]
    } else {
        seq![s.subrange(i, j)] + split_slash_at(s, j + 1)
    }
}

#[via_fn]
proof fn split_slash_at_decreases(s: Seq<char>, i: int) {
    if 0 <= i <= s.len() {
        lemma_find_char_bounds(s, '/', i);
    }
}

/// The pieces of `s` between `'/'` separators: one more piece than there are
/// separators.
pub open spec fn split_slash(s: Seq<char>) -> Seq<Seq<char>> {
    split_slash_at(s, 0)
}

/// Whether path normalization drops this piece: an empty piece (doubled or
/// trailing separators) or a lone `.`.
pub open spec fn piece_vanishes(p: Seq<char>) -> bool {
    p.len() == 0 || p == seq!['.']
}

/// `name` decomposes into exactly one normal path component: the piece
/// before the first separator is a real name (not empty, not `.`, not
/// `..`), and every later piece vanishes under path normalization. This is
/// the sole defense against directory traversal for the file routes.
pub open spec fn spec_valid_filename(s: Seq<char>) -> bool {
    let pieces = split_slash(s);
    &&& pieces[0].len() > 0
    &&& pieces[0] != seq!['.']
    &&& pieces[0] != seq!['.', '.']
    &&& forall|i: int| 1 <= i < pieces.len() ==> piece_vanishes(#[trigger] pieces[i])
}

spec fn pieces_vanish(ps: Seq<Seq<char>>) -> bool {
    forall|i: int| 0 <= i < ps.len() ==> piece_vanishes(#[trigger] ps[i])
}

proof fn lemma_split_slash_unfold(s: Seq<char>, i: int)
    requires
        0 <= i <= s.len(),
    ensures
        find_char_at(s, '/', i) < s.len() ==> split_slash_at(s, i) == seq![
            s.subrange(i, find_char_at(s, '/', i)),
        ] + split_slash_at(s, find_char_at(s, '/', i) + 1),
        find_char_at(s, '/', i) == s.len() ==> split_slash_at(s, i) == seq![
            s.subrange(i, s.len() as int),
        ],
{
    lemma_find_char_bounds(s, '/', i);
}

proof fn lemma_pieces_vanish_cons(head: Seq<char>, tail: Seq<Seq<char>>)
    requires
        piece_vanishes(head),
    ensures
        pieces_vanish(seq![head] + tail) == pieces_vanish(tail),
{
    let whole = seq![head] + tail;
    if pieces_vanish(tail) {
        assert forall|i: int| 0 <= i < whole.len() implies piece_vanishes(#[trigger] whole[i]) by {
            if i > 0 {
                assert(whole[i] == tail[i - 1]);
            }
        }
    } else {
        let i = choose|i: int| 0 <= i < tail.len() && !piece_vanishes(#[trigger] tail[i]);
        assert(whole[i + 1] == tail[i]);
        assert(!pieces_vanish(whole));
    }
}

/// Whether `name` is exactly one normal path component (no separators that
/// survive normalization, no `.`, no `..`, no absolute-path root).
pub fn is_valid_single_filename(name: &str) -> (b: bool)
    ensures
        b == spec_valid_filename(name@),
{
    let n = name.unicode_len();
    let first_sep = index_of_char_from(name, '/', 0);
    proof {
        lemma_split_slash_unfold(name@, 0);
        assert(split_slash(name@)[0] == name@.subrange(0, first_sep as int));
    }
    if first_sep == 0 {
        return false;
    }
    if first_sep == 1 && name.get_char(0) == '.' {
        proof {
            assert(name@.subrange(0, 1) =~= seq!['.']);
        }
        return false;
    }
    if first_sep == 2 && name.get_char(0) == '.' && name.get_char(1) == '.' {
        proof {
            assert(name@.subrange(0, 2) =~= seq!['.', '.']);
        }
        return false;
    }
    proof {
        let p0 = name@.subrange(0, first_sep as int);
        assert(p0 != seq!['.']) by {
            if p0 == seq!['.'] {
                assert(p0.len() == 1 && p0[0] == '.');
            }
        }
        assert(p0 != seq!['.', '.']) by {
            if p0 == seq!['.', '.'] {
                assert(p0.len() == 2 && p0[0] == '.' && p0[1] == '.');
            }
        }
    }
    if first_sep == n {
        return true;
    }
    proof {
        let p0 = name@.subrange(0, first_sep as int);
        let pieces = split_slash(name@);
        let tail = split_slash_at(name@, first_sep + 1);
        assert(pieces == seq![p0] + tail);
        assert(pieces[0] == p0);
        if pieces_vanish(tail) {
            assert forall|i: int| 1 <= i < pieces.len() implies piece_vanishes(
                #[trigger] pieces[i],
            ) by {
                assert(pieces[i] == tail[i - 1]);
            }
            assert(spec_valid_filename(name@));
        } else {
            let j = choose|j: int| 0 <= j < tail.len() && !piece_vanishes(#[trigger] tail[j]);
            assert(pieces[j + 1] == tail[j]);
            assert(!spec_valid_filename(name@));
        }
    }
    let mut pos: usize = first_sep + 1;
    loop
        invariant
            n == name@.len(),
            pos <= n,
            spec_valid_filename(name@) == pieces_vanish(split_slash_at(name@, pos as int)),
        decreases n - pos,
    {
        let j = index_of_char_from(name, '/', pos);
        proof {
            lemma_split_slash_unfold(name@, pos as int);
        }
        let piece_ok: bool = if j == pos {
            true
        } else if j == pos + 1 && name.get_char(pos) == '.' {
            proof {
                assert(name@.subrange(pos as int, j as int) =~= seq!['.']);
            }
            true
        } else {
            proof {
                let p = name@.subrange(pos as int, j as int);
                assert(p.len() > 0);
                assert(p != seq!['.']) by {
                    if p == seq!['.'] {
                        assert(p.len() == 1 && p[0] == '.');
                    }
                }
            }
            false
        };
        if j == n {
            proof {
                if piece_ok {
                    assert(pieces_vanish(split_slash_at(name@, pos as int))) by {
                        let ps = split_slash_at(name@, pos as int);
                        assert(ps.len() == 1);
                        assert(ps[0] == name@.subrange(pos as int, n as int));
                    }
                } else {
                    assert(!pieces_vanish(split_slash_at(name@, pos as int))) by {
                        let ps = split_slash_at(name@, pos as int);
                        assert(ps[0] == name@.subrange(pos as int, n as int));
                    }
                }
            }
            return piece_ok;
        }
        if !piece_ok {
            proof {
                let ps = split_slash_at(name@, pos as int);
                assert(ps[0] == name@.subrange(pos as int, j as int));
                assert(!piece_vanishes(ps[0]));
            }
            return false;
        }
        proof {
            lemma_pieces_vanish_cons(
                name@.subrange(pos as int, j as int),
                split_slash_at(name@, j + 1),
            );
        }
        pos = j + 1;
    }
}

// ---------------------------------------------------------------------------
// Routing
// ---------------------------------------------------------------------------
/// The route that a request target selects, at the specification level.
pub enum SpecRoute {
    Root,
    Echo(Seq<char>),
    UserAgent,
    Files(Seq<char>),
    Unknown,
}

/// Classify a request target: `/` exactly, then the `/echo/`, `/user-agent`
/// and `/files/` prefixes in that order, else unknown.
pub open spec fn spec_classify(p: Seq<char>) -> SpecRoute {
    if p == "/"@ {
        SpecRoute::Root
    } else if has_prefix(p, "/echo/"@) {
        SpecRoute::Echo(p.skip("/echo/"@.len() as int))
    } else if has_prefix(p, "/user-agent"@) {
        SpecRoute::UserAgent
    } else if has_prefix(p, "/files/"@) {
        SpecRoute::Files(p.skip("/files/"@.len() as int))
    } else {
        SpecRoute::Unknown
    }
}

/// The route that a request target selects.
pub enum Route {
    Root,
    Echo(String),
    UserAgent,
    Files(String),
    Unknown,
}

/// Whether the executable route carries exactly the data of the
/// specification-level one.
pub open spec fn route_matches(r: Route, s: SpecRoute) -> bool {
    match (r, s) {
        (Route::Root, SpecRoute::Root) => true,
        (Route::Echo(e), SpecRoute::Echo(se)) => e@ == se,
        (Route::UserAgent, SpecRoute::UserAgent) => true,
        (Route::Files(f), SpecRoute::Files(sf)) => f@ == sf,
        (Route::Unknown, SpecRoute::Unknown) => true,
        _ => false,
    }
}

/// Classify a request target.
pub fn classify(path: &str) -> (r: Route)
    ensures
        route_matches(r, spec_classify(path@)),
{
    let n = path.unicode_len();
    if str_eq(path, "/") {
        Route::Root
    } else if str_has_prefix(path, "/echo/") {
        let plen = "/echo/".unicode_len();
        let suffix = path.substring_char(plen, n);
        proof {
            assert(path@.subrange("/echo/"@.len() as int, n as int) =~= path@.skip(
                "/echo/"@.len() as int,
            ));
        }
        Route::Echo(String::from_str(suffix))
    } else if str_has_prefix(path, "/user-agent") {
        Route::UserAgent
    } else if str_has_prefix(path, "/files/") {
        let plen = "/files/".unicode_len();
        let suffix = path.substring_char(plen, n);
        proof {
            assert(path@.subrange("/files/"@.len() as int, n as int) =~= path@.skip(
                "/files/"@.len() as int,
            ));
        }
        Route::Files(String::from_str(suffix))
    } else {
        Route::Unknown
    }
}

// ---------------------------------------------------------------------------
// Handlers
// ---------------------------------------------------------------------------
/// Whether `r` is a 200 text response whose body holds exactly `body`.
pub open spec fn is_ok_text_response(r: Response, body: Seq<char>) -> bool {
    &&& r.status_code == 200
    &&& r.reason@ == "OK"@
    &&& header_views(r.headers@) == seq![("Content-Type"@, "text/plain"@)]
    &&& r.body@ == encode_utf8(body)
    &&& !r.status_only
}

/// Whether `r` is the plain-text 404 response.
pub open spec fn is_not_found_response(r: Response) -> bool {
    &&& r.status_code == 404
    &&& r.reason@ == "Not Found"@
    &&& header_views(r.headers@) == seq![("Content-Type"@, "text/plain"@)]
    &&& r.body@ == encode_utf8("Not Found"@)
    &&& !r.status_only
}

/// The root route: 200 with a text content type and an empty body.
pub fn handle_root() -> (r: Response)
    ensures
        is_ok_text_response(r, ""@),
        r.body@.len() == 0,
{
    let r = Response::ok_text("");
    proof {
        reveal_strlit("");
        assert(""@ =~= Seq::<char>::empty());
    }
    r
}

/// The echo route: 200 with the literal path suffix as the body.
pub fn handle_echo(echoed: &str) -> (r: Response)
    ensures
        is_ok_text_response(r, echoed@),
{
    Response::ok_text(echoed)
}

/// The user-agent route: 200 with the `User-Agent` header value as the
/// body, or 404 when the header is absent.
pub fn handle_user_agent(request: &Request) -> (r: Response)
    ensures
        match spec_header_value(request.headers@, "User-Agent"@) {
            Some(v) => is_ok_text_response(r, v),
            None => is_not_found_response(r),
        },
{
    match request.header_value("User-Agent") {
        Some(ua) => Response::ok_text(ua),
        None => Response::not_found(),
    }
}

/// The head of a streamed-file response: 200 with
/// `Content-Type: application/octet-stream` and an explicit
/// `Content-Length` of `len`.
pub fn file_response_head(len: u64) -> (r: Response)
    ensures
        r.status_code == 200,
        r.reason@ == "OK"@,
        !r.status_only,
        header_views(r.headers@) == seq![
            ("Content-Type"@, "application/octet-stream"@),
            ("Content-Length"@, dec_chars(len as nat)),
        ],
        r.body@.len() == 0,
{
    let mut r = Response::new(200, "OK");
    r.header("Content-Type", "application/octet-stream");
    let len_s = u64_to_dec_string(len);
    r.header("Content-Length", len_s.as_str());
    proof {
        assert(header_views(r.headers@) =~= seq![
            ("Content-Type"@, "application/octet-stream"@),
            ("Content-Length"@, dec_chars(len as nat)),
        ]);
    }
    r
}

// ---------------------------------------------------------------------------
// Dispatch
// ---------------------------------------------------------------------------
/// What the connection driver must do for one request: write a complete
/// response, stream the named file (GET), or store the given bytes under
/// the named file and report creation (POST).
pub enum Action {
    Respond(Response),
    ServeFile(String),
    StoreFile(String, Vec<u8>),
}

/// The bytes that a POST stores: the request body, or nothing when no body
/// was sent.
pub open spec fn spec_post_body(body: Option<Vec<u8>>) -> Seq<u8> {
    match body {
        Some(b) => b@,
        None => Seq::empty(),
    }
}

/// Route a request to its handler and return what the driver must do.
pub fn dispatch(request: &Request) -> (a: Action)
    ensures
        spec_classify(request.path@) is Root ==> (a matches Action::Respond(r)
            && is_ok_text_response(r, ""@)),
        spec_classify(request.path@) matches SpecRoute::Echo(s) ==> (a matches Action::Respond(r)
            && is_ok_text_response(r, s)),
        spec_classify(request.path@) is UserAgent ==> (match spec_header_value(
            request.headers@,
            "User-Agent"@,
        ) {
            Some(v) => a matches Action::Respond(r) && is_ok_text_response(r, v),
            None => a matches Action::Respond(r) && is_not_found_response(r),
        }),
        spec_classify(request.path@) matches SpecRoute::Files(name) ==> {
            if !spec_valid_filename(name) {
                a matches Action::Respond(r) && is_not_found_response(r)
            } else if request.method@ == "GET"@ {
                a matches Action::ServeFile(f) && f@ == name
            } else if request.method@ == "POST"@ {
                a matches Action::StoreFile(f, b) && f@ == name && b@ == spec_post_body(
                    request.body,
                )
            } else {
                a matches Action::Respond(r) && is_not_found_response(r)
            }
        },
        spec_classify(request.path@) is Unknown ==> (a matches Action::Respond(r)
            && is_not_found_response(r)),
{
    match classify(request.path.as_str()) {
        Route::Root => Action::Respond(handle_root()),
        Route::Echo(s) => Action::Respond(handle_echo(s.as_str())),
        Route::UserAgent => Action::Respond(handle_user_agent(request)),
        Route::Files(name) => {
            if !is_valid_single_filename(name.as_str()) {
                Action::Respond(Response::not_found())
            } else if str_eq(request.method.as_str(), "GET") {
                Action::ServeFile(name)
            } else if str_eq(request.method.as_str(), "POST") {
                let body: Vec<u8> = match &request.body {
                    Some(b) => vstd::slice::slice_to_vec(b.as_slice()),
                    None => Vec::new(),
                };
                Action::StoreFile(name, body)
            } else {
                Action::Respond(Response::not_found())
            }
        },
        Route::Unknown => Action::Respond(Response::not_found()),
    }
}

// ---------------------------------------------------------------------------
// Routing and validation laws
// ---------------------------------------------------------------------------
/// Every target of the form `/echo/{s}` classifies as the echo route with
/// suffix exactly `s` — so, by `dispatch`'s contract, its response is a 200
/// whose body is `s` byte-for-byte, including when `s` is empty.
pub proof fn lemma_echo_route(path: Seq<char>, s: Seq<char>)
    requires
        path == "/echo/"@ + s,
    ensures
        spec_classify(path) == SpecRoute::Echo(s),
{
    reveal_strlit("/");
    reveal_strlit("/echo/");
    assert(path.len() == 6 + s.len());
    assert(path != "/"@);
    assert(path.subrange(0, 6) =~= "/echo/"@);
    assert(has_prefix(path, "/echo/"@));
    assert(path.skip(6) =~= s);
}

/// On the wire, a 200 text response carries its text exactly: everything
/// after the head is the UTF-8 encoding of `s`, nothing more.
pub proof fn lemma_ok_text_serialized_body(r: Response, s: Seq<char>)
    requires
        is_ok_text_response(r, s),
    ensures
        crate::response::spec_serialized(r).skip(
            crate::response::spec_head(r, true).len() as int,
        ) == encode_utf8(s),
{
    let head = crate::response::spec_head(r, true);
    assert((head + r.body@).skip(head.len() as int) =~= r.body@);
}

proof fn lemma_slash_then_real(name: Seq<char>, pos: int, i: int, j: int)
    requires
        0 <= pos <= i < j < name.len(),
        name[i] == '/',
        name[j] != '/',
        name[j] != '.',
    ensures
        exists|k: int|
            1 <= k < split_slash_at(name, pos).len() && !piece_vanishes(
                #[trigger] split_slash_at(name, pos)[k],
            ),
    decreases name.len() - pos,
{
    let f = find_char_at(name, '/', pos);
    lemma_find_char_bounds(name, '/', pos);
    assert(f <= i);
    lemma_split_slash_unfold(name, pos);
    let pieces = split_slash_at(name, pos);
    let tail = split_slash_at(name, f + 1);
    assert(pieces == seq![name.subrange(pos, f)] + tail);
    if exists|m: int| f + 1 <= m < j && name[m] == '/' {
        let m = choose|m: int| f + 1 <= m < j && name[m] == '/';
        lemma_slash_then_real(name, f + 1, m, j);
        let k = choose|k: int|
            1 <= k < tail.len() && !piece_vanishes(#[trigger] tail[k]);
        assert(pieces[k + 1] == tail[k]);
        assert(!piece_vanishes(pieces[k + 1]));
    } else {
        let g = find_char_at(name, '/', f + 1);
        lemma_find_char_bounds(name, '/', f + 1);
        assert(g > j) by {
            if g <= j {
                if g < j {
                    assert(name[g] == '/');
                } else {
                    assert(name[g] == '/');
                }
            }
        }
        lemma_split_slash_unfold(name, f + 1);
        let head = if g >= name.len() {
            name.subrange(f + 1, name.len() as int)
        } else {
            name.subrange(f + 1, g)
        };
        assert(tail[0] == head);
        assert(head[j - (f + 1)] == name[j]);
        assert(head.len() > 0);
        assert(head != seq!['.']) by {
            if head == seq!['.'] {
                assert(head.len() == 1);
                assert(head[0] == '.');
                assert(j - (f + 1) == 0);
            }
        }
        assert(!piece_vanishes(tail[0]));
        assert(pieces[1] == tail[0]);
    }
}

/// Traversal attempts fail validation: an empty name, `.`, `..`, a leading
/// separator, or a separator followed anywhere later by a character other
/// than `/` and `.` (a second real path component). With `dispatch`'s
/// contract, the file routes answer such names with a 404 and hand the
/// driver no filesystem instruction at all.
pub proof fn lemma_traversal_rejected(name: Seq<char>)
    requires
        name.len() == 0 || name == "."@ || name == ".."@ || (name.len() > 0 && name[0] == '/') || (
        exists|i: int, j: int|
            0 <= i < j < name.len() && name[i] == '/' && name[j] != '/' && name[j] != '.'),
    ensures
        !spec_valid_filename(name),
{
    let f = find_char_at(name, '/', 0);
    lemma_find_char_bounds(name, '/', 0);
    lemma_split_slash_unfold(name, 0);
    let pieces = split_slash(name);
    if name.len() == 0 {
        assert(pieces[0].len() == 0);
    } else if name == "."@ {
        reveal_strlit(".");
        assert(f == name.len()) by {
            if f < name.len() {
                assert(name[f] == '/');
            }
        }
        assert(pieces[0] =~= seq!['.']);
    } else if name == ".."@ {
        reveal_strlit("..");
        assert(f == name.len()) by {
            if f < name.len() {
                assert(name[f] == '/');
            }
        }
        assert(pieces[0] =~= seq!['.', '.']);
    } else if name[0] == '/' {
        assert(f == 0);
        assert(pieces[0].len() == 0);
    } else {
        let (i, j) = choose|i: int, j: int|
            0 <= i < j < name.len() && name[i] == '/' && name[j] != '/' && name[j] != '.';
        lemma_slash_then_real(name, 0, i, j);
    }
}

/// Whether the request asks to close the connection after the response: a
/// `Connection` header whose value is `close`, both compared
/// case-insensitively.
pub open spec fn spec_wants_close(hs: Seq<(Key, Value)>) -> bool {
    match spec_header_value(hs, "Connection"@) {
        Some(v) => eq_ci(v, "close"@),
        None => false,
    }
}

/// Whether this is the final request on its connection.
pub fn wants_close(request: &Request) -> (b: bool)
    ensures
        b == spec_wants_close(request.headers@),
{
    match request.header_value("Connection") {
        Some(v) => eq_ignore_case(v, "close"),
        None => false,
    }
}

} // verus!
