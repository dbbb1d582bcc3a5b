use httpcore::num::parse_usize;
use httpcore::num::u64_to_dec_string;
use httpcore::text::eq_ignore_case;
use httpcore::text::split_whitespace_tokens;
use httpcore::text::str_has_prefix;
use httpcore::text::trim;

// ── decimal formatting ───────────────────────────────────────────

#[test]
fn dec_string_exact_values() {
    assert_eq!(u64_to_dec_string(0), "0");
    assert_eq!(u64_to_dec_string(7), "7");
    assert_eq!(u64_to_dec_string(10), "10");
    assert_eq!(u64_to_dec_string(204), "204");
    assert_eq!(u64_to_dec_string(1234567890), "1234567890");
    assert_eq!(u64_to_dec_string(u64::MAX), "18446744073709551615");
}

// ── decimal parsing, as usize::from_str behaves ──────────────────

#[test]
fn parse_usize_accepts_plain_digits() {
    assert_eq!(parse_usize("0"), Some(0));
    assert_eq!(parse_usize("42"), Some(42));
    assert_eq!(parse_usize("007"), Some(7));
    assert_eq!(parse_usize("+11"), Some(11));
}

#[test]
fn parse_usize_rejects_non_numbers() {
    assert_eq!(parse_usize(""), None);
    assert_eq!(parse_usize("+"), None);
    assert_eq!(parse_usize("abc"), None);
    assert_eq!(parse_usize("1e3"), None);
    assert_eq!(parse_usize("-1"), None);
    assert_eq!(parse_usize(" 5"), None);
    assert_eq!(parse_usize("5 "), None);
}

#[test]
fn parse_usize_range_limits() {
    assert_eq!(parse_usize("18446744073709551615"), Some(usize::MAX));
    assert_eq!(parse_usize("18446744073709551616"), None);
    assert_eq!(parse_usize("99999999999999999999999999"), None);
}

// ── text helpers ─────────────────────────────────────────────────

#[test]
fn eq_ignore_case_matches_ascii_folding() {
    assert!(eq_ignore_case("Content-Length", "content-length"));
    assert!(eq_ignore_case("CLOSE", "close"));
    assert!(!eq_ignore_case("close", "closed"));
    assert!(!eq_ignore_case("a", "b"));
    assert!(eq_ignore_case("", ""));
}

#[test]
fn trim_strips_surrounding_white_space() {
    assert_eq!(trim("  hello  "), "hello");
    assert_eq!(trim("\t x \r"), "x");
    assert_eq!(trim(""), "");
    assert_eq!(trim("   "), "");
    assert_eq!(trim("a b"), "a b");
}

#[test]
fn split_whitespace_tokens_matches_std() {
    let toks = split_whitespace_tokens("GET /  HTTP/1.1");
    assert_eq!(toks, vec!["GET", "/", "HTTP/1.1"]);
    let toks = split_whitespace_tokens("  one  ");
    assert_eq!(toks, vec!["one"]);
    let toks = split_whitespace_tokens("");
    assert!(toks.is_empty());
    let toks = split_whitespace_tokens("a\u{00A0}b");
    assert_eq!(toks, vec!["a", "b"]);
}

#[test]
fn str_has_prefix_matches_std() {
    assert!(str_has_prefix("/echo/abc", "/echo/"));
    assert!(str_has_prefix("/user-agent-x", "/user-agent"));
    assert!(!str_has_prefix("/echo", "/echo/"));
    assert!(str_has_prefix("anything", ""));
}
