use httpcore::request::trim_line_ending;
use httpcore::request::Request;

// ── trim_line_ending ─────────────────────────────────────────────

#[test]
fn test_trim_line_ending_crlf() {
    assert_eq!(trim_line_ending("hello\r\n"), "hello");
}

#[test]
fn test_trim_line_ending_lf() {
    assert_eq!(trim_line_ending("hello\n"), "hello");
}

#[test]
fn test_trim_line_ending_cr() {
    assert_eq!(trim_line_ending("hello\r"), "hello");
}

#[test]
fn test_trim_line_ending_none() {
    assert_eq!(trim_line_ending("hello"), "hello");
}

#[test]
fn test_trim_line_ending_empty() {
    assert_eq!(trim_line_ending(""), "");
}

#[test]
fn test_trim_line_ending_only_endings() {
    assert_eq!(trim_line_ending("\r\n"), "");
}

#[test]
fn test_trim_line_ending_multiple_trailing() {
    assert_eq!(trim_line_ending("data\r\n\r\n"), "data");
}

// ── header_value ─────────────────────────────────────────────────

fn make_request_with_headers(headers: Vec<(String, String)>) -> Request {
    Request {
        method: "GET".to_string(),
        path: "/".to_string(),
        http_version: "HTTP/1.1".to_string(),
        headers,
        body: None,
        peer_addr: None,
    }
}

#[test]
fn test_header_value_exact_match() {
    let req = make_request_with_headers(vec![("Content-Type".into(), "text/plain".into())]);
    assert_eq!(req.header_value("Content-Type"), Some("text/plain"));
}

#[test]
fn test_header_value_case_insensitive() {
    let req = make_request_with_headers(vec![("content-type".into(), "text/html".into())]);
    assert_eq!(req.header_value("Content-Type"), Some("text/html"));
    assert_eq!(req.header_value("CONTENT-TYPE"), Some("text/html"));
    assert_eq!(req.header_value("content-type"), Some("text/html"));
}

#[test]
fn test_header_value_missing() {
    let req = make_request_with_headers(vec![("Content-Type".into(), "text/plain".into())]);
    assert_eq!(req.header_value("Authorization"), None);
}

#[test]
fn test_header_value_empty_headers() {
    let req = make_request_with_headers(vec![]);
    assert_eq!(req.header_value("Anything"), None);
}

#[test]
fn test_header_value_returns_first_match() {
    let req = make_request_with_headers(vec![
        ("X-Custom".into(), "first".into()),
        ("x-custom".into(), "second".into()),
    ]);
    // the first match wins
    assert_eq!(req.header_value("X-Custom"), Some("first"));
}
