//! The parsed request: a method, a target path, a protocol version, an
//! ordered header list, and an optional body. Header lookup is
//! case-insensitive and returns the first match.

use vstd::prelude::*;

use crate::text::eq_ci;
use crate::text::eq_ignore_case;

verus! {

pub type Key = String;

pub type Value = String;

/// A header list as pairs of character sequences.
pub open spec fn header_views(hs: Seq<(Key, Value)>) -> Seq<(Seq<char>, Seq<char>)> {
    Seq::new(hs.len(), |i: int| (hs[i].0@, hs[i].1@))
}

/// The first index at or after `i` whose header name equals `name` up to
/// ASCII case, if any.
pub open spec fn find_header_vs_from(
    hs: Seq<(Seq<char>, Seq<char>)>,
    name: Seq<char>,
    i: int,
) -> Option<int>
    decreases hs.len() - i,
{
    if i < 0 || i >= hs.len() {
        None
    } else if eq_ci(hs[i].0, name) {
        Some(i)
    } else {
        find_header_vs_from(hs, name, i + 1)
    }
}

/// The index of the first header whose name equals `name` up to ASCII case.
pub open spec fn spec_find_header_vs(
    hs: Seq<(Seq<char>, Seq<char>)>,
    name: Seq<char>,
) -> Option<int> {
    find_header_vs_from(hs, name, 0)
}

/// The value of the first header whose name equals `name` up to ASCII case.
pub open spec fn spec_header_value_vs(
    hs: Seq<(Seq<char>, Seq<char>)>,
    name: Seq<char>,
) -> Option<Seq<char>> {
    match spec_find_header_vs(hs, name) {
        Some(i) => Some(hs[i].1),
        None => None,
    }
}

/// The index of the first header of `hs` whose name equals `name` up to
/// ASCII case.
pub open spec fn spec_find_header(hs: Seq<(Key, Value)>, name: Seq<char>) -> Option<int> {
    spec_find_header_vs(header_views(hs), name)
}

/// The value of the first header of `hs` whose name equals `name` up to
/// ASCII case.
pub open spec fn spec_header_value(hs: Seq<(Key, Value)>, name: Seq<char>) -> Option<Seq<char>> {
    spec_header_value_vs(header_views(hs), name)
}

proof fn lemma_find_header_skip(hs: Seq<(Seq<char>, Seq<char>)>, name: Seq<char>, j: int)
    requires
        0 <= j <= hs.len(),
        forall|k: int| 0 <= k < j ==> !eq_ci(hs[k].0, name),
    ensures
        spec_find_header_vs(hs, name) == find_header_vs_from(hs, name, j),
    decreases j,
{
    if j > 0 {
        lemma_find_header_skip(hs, name, j - 1);
    }
}

proof fn lemma_find_ci_equal(hs: Seq<(Seq<char>, Seq<char>)>, n1: Seq<char>, n2: Seq<char>, i: int)
    requires
        eq_ci(n1, n2),
    ensures
        find_header_vs_from(hs, n1, i) == find_header_vs_from(hs, n2, i),
    decreases hs.len() - i,
{
    if 0 <= i < hs.len() {
        assert(eq_ci(hs[i].0, n1) == eq_ci(hs[i].0, n2));
        if !eq_ci(hs[i].0, n1) {
            lemma_find_ci_equal(hs, n1, n2, i + 1);
        }
    }
}

/// Header lookup is case-insensitive: two names that are equal up to ASCII
/// case give the same result on every header list.
pub proof fn lemma_header_lookup_case_insensitive(
    hs: Seq<(Seq<char>, Seq<char>)>,
    n1: Seq<char>,
    n2: Seq<char>,
)
    requires
        eq_ci(n1, n2),
    ensures
        spec_header_value_vs(hs, n1) == spec_header_value_vs(hs, n2),
{
    lemma_find_ci_equal(hs, n1, n2, 0);
}

proof fn lemma_find_first_from(hs: Seq<(Seq<char>, Seq<char>)>, name: Seq<char>, i: int)
    requires
        0 <= i <= hs.len(),
    ensures
        match find_header_vs_from(hs, name, i) {
            Some(j) => i <= j < hs.len() && eq_ci(hs[j].0, name) && (forall|k: int|
                i <= k < j ==> !eq_ci(#[trigger] hs[k].0, name)),
            None => forall|k: int| i <= k < hs.len() ==> !eq_ci(#[trigger] hs[k].0, name),
        },
    decreases hs.len() - i,
{
    if i < hs.len() && !eq_ci(hs[i].0, name) {
        lemma_find_first_from(hs, name, i + 1);
    }
}

/// With duplicate names, lookup returns the value of the first matching
/// header: the found index matches, and no earlier one does; when nothing is
/// found, no header matches at all.
pub proof fn lemma_header_lookup_first_match(hs: Seq<(Seq<char>, Seq<char>)>, name: Seq<char>)
    ensures
        match spec_find_header_vs(hs, name) {
            Some(j) => 0 <= j < hs.len() && eq_ci(hs[j].0, name) && (forall|k: int|
                0 <= k < j ==> !eq_ci(#[trigger] hs[k].0, name)) && spec_header_value_vs(hs, name)
                == Some(hs[j].1),
            None => forall|k: int| 0 <= k < hs.len() ==> !eq_ci(#[trigger] hs[k].0, name),
        },
{
    lemma_find_first_from(hs, name, 0);
}

/// One parsed HTTP request.
#[derive(Debug)]
pub struct Request {
    pub method: String,
    pub path: String,
    pub http_version: String,
    pub headers: Vec<(Key, Value)>,
    pub body: Option<Vec<u8>>,
    pub peer_addr: Option<String>,
}

impl Request {
    /// Look up a header value by name (case-insensitive); with duplicate
    /// names, the first match wins.
    pub fn header_value(&self, name: &str) -> (r: Option<&str>)
        ensures
            match r {
                Some(v) => spec_header_value(self.headers@, name@) == Some(v@),
                None => spec_header_value(self.headers@, name@) is None,
            },
    {
        let n = self.headers.len();
        let ghost views = header_views(self.headers@);
        let mut i: usize = 0;
        while i < n
            invariant
                n == self.headers@.len(),
                views == header_views(self.headers@),
                i <= n,
                forall|k: int| 0 <= k < i ==> !eq_ci(views[k].0, name@),
            decreases n - i,
        {
            let pair = &self.headers[i];
            if eq_ignore_case(pair.0.as_str(), name) {
                proof {
                    lemma_find_header_skip(views, name@, i as int);
                }
                return Some(pair.1.as_str());
            }
            i = i + 1;
        }
        proof {
            lemma_find_header_skip(views, name@, n as int);
        }
        None
    }
}

/// `s` with trailing carriage-return and line-feed characters removed.
pub open spec fn spec_trim_line_ending(s: Seq<char>) -> Seq<char>
    decreases s.len(),
{
    if s.len() > 0 && (s.last() == '\r' || s.last() == '\n') {
        spec_trim_line_ending(s.drop_last())
    } else {
        s
    }
}

fn is_line_ending(c: char) -> (b: bool)
    ensures
        b == (c == '\r' || c == '\n'),
{
    c == '\r' || c == '\n'
}

proof fn lemma_trim_line_ending_is_subrange(s: Seq<char>, j: int)
    requires
        0 <= j <= s.len(),
        forall|k: int| j <= k < s.len() ==> (s[k] == '\r' || s[k] == '\n'),
        j > 0 ==> !(s[j - 1] == '\r' || s[j - 1] == '\n'),
    ensures
        spec_trim_line_ending(s) =~= s.subrange(0, j),
    decreases s.len() - j,
{
    if j == s.len() {
        assert(spec_trim_line_ending(s) =~= s.subrange(0, j));
    } else {
        lemma_trim_line_ending_is_subrange(s.drop_last(), j);
        assert(s.drop_last().subrange(0, j) =~= s.subrange(0, j));
    }
}

/// Trim trailing CR/LF characters from a line read from the wire.
pub fn trim_line_ending(s: &str) -> (r: &str)
    ensures
        r@ == spec_trim_line_ending(s@),
{
    let n = s.unicode_len();
    let mut j: usize = n;
    while j > 0 && is_line_ending(s.get_char(j - 1))
        invariant
            n == s@.len(),
            j <= n,
            forall|k: int| j <= k < n ==> (s@[k] == '\r' || s@[k] == '\n'),
        decreases j,
    {
        j = j - 1;
    }
    proof {
        lemma_trim_line_ending_is_subrange(s@, j as int);
    }
    s.substring_char(0, j)
}

} // verus!
