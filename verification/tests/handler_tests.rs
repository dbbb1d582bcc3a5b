use httpcore::handlers::dispatch;
use httpcore::handlers::file_response_head;
use httpcore::handlers::handle_echo;
use httpcore::handlers::handle_root;
use httpcore::handlers::handle_user_agent;
use httpcore::handlers::wants_close;
use httpcore::handlers::Action;
use httpcore::request::Request;

fn get_request(path: &str, headers: Vec<(String, String)>) -> Request {
    Request {
        method: "GET".to_string(),
        path: path.to_string(),
        http_version: "HTTP/1.1".to_string(),
        headers,
        body: None,
        peer_addr: None,
    }
}

// ── handle_root ──────────────────────────────────────────────────

#[test]
fn test_handle_root_returns_200() {
    let resp = handle_root();
    let raw = String::from_utf8(resp.build_raw()).unwrap();
    assert!(raw.starts_with("HTTP/1.1 200 OK\r\n"));
    assert!(raw.contains("Content-Type: text/plain\r\n"));
    assert!(raw.contains("Content-Length: 0\r\n"));
}

// ── handle_echo ──────────────────────────────────────────────────

#[test]
fn test_handle_echo_returns_body() {
    let resp = handle_echo("hello-world");
    let raw = String::from_utf8(resp.build_raw()).unwrap();
    assert!(raw.starts_with("HTTP/1.1 200 OK\r\n"));
    assert!(raw.contains("Content-Type: text/plain\r\n"));
    assert!(raw.contains("Content-Length: 11\r\n"));
    assert!(raw.ends_with("\r\n\r\nhello-world"));
}

#[test]
fn test_handle_echo_empty_string() {
    let resp = handle_echo("");
    let raw = String::from_utf8(resp.build_raw()).unwrap();
    assert!(raw.contains("Content-Length: 0\r\n"));
    assert!(raw.ends_with("\r\n\r\n"));
}

#[test]
fn test_handle_echo_special_characters() {
    let resp = handle_echo("hello world & foo=bar");
    let raw = String::from_utf8(resp.build_raw()).unwrap();
    assert!(raw.ends_with("\r\n\r\nhello world & foo=bar"));
}

// ── handle_user_agent ────────────────────────────────────────────

#[test]
fn test_handle_user_agent_present() {
    let req = Request {
        method: "GET".to_string(),
        path: "/user-agent".to_string(),
        http_version: "HTTP/1.1".to_string(),
        headers: vec![("User-Agent".into(), "curl/7.64.1".into())],
        body: None,
        peer_addr: None,
    };
    let resp = handle_user_agent(&req);
    let raw = String::from_utf8(resp.build_raw()).unwrap();
    assert!(raw.starts_with("HTTP/1.1 200 OK\r\n"));
    assert!(raw.ends_with("\r\n\r\ncurl/7.64.1"));
}

#[test]
fn test_handle_user_agent_case_insensitive() {
    let req = Request {
        method: "GET".to_string(),
        path: "/user-agent".to_string(),
        http_version: "HTTP/1.1".to_string(),
        headers: vec![("user-agent".into(), "MyBot/2.0".into())],
        body: None,
        peer_addr: None,
    };
    let resp = handle_user_agent(&req);
    let raw = String::from_utf8(resp.build_raw()).unwrap();
    assert!(raw.starts_with("HTTP/1.1 200 OK\r\n"));
    assert!(raw.ends_with("\r\n\r\nMyBot/2.0"));
}

#[test]
fn test_handle_user_agent_missing() {
    let req = Request {
        method: "GET".to_string(),
        path: "/user-agent".to_string(),
        http_version: "HTTP/1.1".to_string(),
        headers: vec![],
        body: None,
        peer_addr: None,
    };
    let resp = handle_user_agent(&req);
    let raw = String::from_utf8(resp.build_raw()).unwrap();
    assert!(raw.starts_with("HTTP/1.1 404 Not Found\r\n"));
}

// ── dispatch: route selection ────────────────────────────────────

#[test]
fn dispatch_root_returns_empty_200() {
    let req = get_request("/", vec![]);
    match dispatch(&req) {
        Action::Respond(r) => {
            let raw = String::from_utf8(r.build_raw()).unwrap();
            assert!(raw.starts_with("HTTP/1.1 200 OK\r\n"));
            assert!(raw.contains("Content-Length: 0\r\n"));
        }
        _ => panic!("root should yield a direct response"),
    }
}

#[test]
fn dispatch_echo_returns_suffix() {
    let req = get_request("/echo/foobar", vec![]);
    match dispatch(&req) {
        Action::Respond(r) => {
            let raw = String::from_utf8(r.build_raw()).unwrap();
            assert!(raw.starts_with("HTTP/1.1 200 OK\r\n"));
            assert!(raw.ends_with("\r\n\r\nfoobar"));
        }
        _ => panic!("echo should yield a direct response"),
    }
}

#[test]
fn dispatch_echo_empty_suffix() {
    let req = get_request("/echo/", vec![]);
    match dispatch(&req) {
        Action::Respond(r) => {
            let raw = String::from_utf8(r.build_raw()).unwrap();
            assert!(raw.starts_with("HTTP/1.1 200 OK\r\n"));
            assert!(raw.ends_with("\r\n\r\n"));
            assert!(raw.contains("Content-Length: 0\r\n"));
        }
        _ => panic!("echo should yield a direct response"),
    }
}

#[test]
fn dispatch_echo_multibyte_suffix() {
    let suffix = "héllo→wörld";
    let req = get_request(&format!("/echo/{}", suffix), vec![]);
    match dispatch(&req) {
        Action::Respond(r) => {
            let raw = r.build_raw();
            let text = String::from_utf8(raw).unwrap();
            assert!(text.ends_with(suffix));
            // Content-Length counts bytes, not characters
            assert!(text.contains(&format!("Content-Length: {}\r\n", suffix.len())));
        }
        _ => panic!("echo should yield a direct response"),
    }
}

#[test]
fn dispatch_unknown_path_returns_404() {
    let req = get_request("/nonexistent", vec![]);
    match dispatch(&req) {
        Action::Respond(r) => {
            let raw = String::from_utf8(r.build_raw()).unwrap();
            assert!(raw.starts_with("HTTP/1.1 404 Not Found\r\n"));
        }
        _ => panic!("unknown paths should yield a direct response"),
    }
}

#[test]
fn dispatch_file_get_serves_named_file() {
    let req = get_request("/files/data.bin", vec![]);
    match dispatch(&req) {
        Action::ServeFile(name) => assert_eq!(name, "data.bin"),
        _ => panic!("a valid GET file route should serve the file"),
    }
}

#[test]
fn dispatch_file_post_stores_body() {
    let body = vec![0x00u8, 0x01, 0xFF];
    let req = Request {
        method: "POST".to_string(),
        path: "/files/upload.bin".to_string(),
        http_version: "HTTP/1.1".to_string(),
        headers: vec![("Content-Length".into(), "3".into())],
        body: Some(body.clone()),
        peer_addr: None,
    };
    match dispatch(&req) {
        Action::StoreFile(name, bytes) => {
            assert_eq!(name, "upload.bin");
            assert_eq!(bytes, body);
        }
        _ => panic!("a valid POST file route should store the body"),
    }
}

#[test]
fn dispatch_file_post_without_body_stores_nothing() {
    let req = Request {
        method: "POST".to_string(),
        path: "/files/empty.txt".to_string(),
        http_version: "HTTP/1.1".to_string(),
        headers: vec![("Content-Length".into(), "0".into())],
        body: None,
        peer_addr: None,
    };
    match dispatch(&req) {
        Action::StoreFile(name, bytes) => {
            assert_eq!(name, "empty.txt");
            assert!(bytes.is_empty());
        }
        _ => panic!("a valid POST file route should store the body"),
    }
}

#[test]
fn dispatch_file_traversal_returns_404() {
    for bad in ["../etc/passwd", "..", ".", "", "a/b", "/etc/passwd", "sub/secret.txt"] {
        let req = get_request(&format!("/files/{}", bad), vec![]);
        match dispatch(&req) {
            Action::Respond(r) => {
                let raw = String::from_utf8(r.build_raw()).unwrap();
                assert!(
                    raw.starts_with("HTTP/1.1 404 Not Found\r\n"),
                    "name {:?} must be rejected",
                    bad
                );
            }
            _ => panic!("invalid name {:?} must never reach the filesystem", bad),
        }
    }
}

#[test]
fn dispatch_file_unsupported_method_returns_404() {
    let req = Request {
        method: "DELETE".to_string(),
        path: "/files/x.txt".to_string(),
        http_version: "HTTP/1.1".to_string(),
        headers: vec![],
        body: None,
        peer_addr: None,
    };
    match dispatch(&req) {
        Action::Respond(r) => assert_eq!(r.status_code, 404),
        _ => panic!("unsupported methods on files must yield 404"),
    }
}

// ── file_response_head ───────────────────────────────────────────

#[test]
fn file_response_head_has_exact_headers() {
    let head = file_response_head(18);
    let raw = String::from_utf8(head.build_headers_raw()).unwrap();
    assert!(raw.starts_with("HTTP/1.1 200 OK\r\n"));
    assert!(raw.contains("Content-Type: application/octet-stream\r\n"));
    assert!(raw.contains("Content-Length: 18\r\n"));
    assert!(raw.ends_with("\r\n\r\n"));
    // the explicit length must not be duplicated by the auto-injection
    assert_eq!(raw.matches("Content-Length").count(), 1);
}

// ── wants_close ──────────────────────────────────────────────────

#[test]
fn wants_close_on_close_header() {
    let req = get_request("/", vec![("Connection".into(), "close".into())]);
    assert!(wants_close(&req));
}

#[test]
fn wants_close_is_case_insensitive() {
    let req = get_request("/", vec![("connection".into(), "CLOSE".into())]);
    assert!(wants_close(&req));
}

#[test]
fn wants_close_absent_or_other() {
    let req = get_request("/", vec![]);
    assert!(!wants_close(&req));
    let req = get_request("/", vec![("Connection".into(), "keep-alive".into())]);
    assert!(!wants_close(&req));
}
