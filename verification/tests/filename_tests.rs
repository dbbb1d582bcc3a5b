use httpcore::handlers::is_valid_single_filename;

// ── is_valid_single_filename ─────────────────────────────────────

#[test]
fn test_valid_filename_simple() {
    assert!(is_valid_single_filename("hello.txt"));
}

#[test]
fn test_valid_filename_no_extension() {
    assert!(is_valid_single_filename("README"));
}

#[test]
fn test_valid_filename_dotfile() {
    assert!(is_valid_single_filename(".gitignore"));
}

#[test]
fn test_valid_filename_with_spaces() {
    assert!(is_valid_single_filename("my file.txt"));
}

#[test]
fn test_invalid_filename_empty() {
    assert!(!is_valid_single_filename(""));
}

#[test]
fn test_invalid_filename_dot_dot() {
    assert!(!is_valid_single_filename(".."));
}

#[test]
fn test_invalid_filename_traversal() {
    assert!(!is_valid_single_filename("../etc/passwd"));
}

#[test]
fn test_invalid_filename_nested_path() {
    assert!(!is_valid_single_filename("a/b"));
}

#[test]
fn test_invalid_filename_nested_deep() {
    assert!(!is_valid_single_filename("a/b/c.txt"));
}

#[test]
fn test_invalid_filename_absolute() {
    assert!(!is_valid_single_filename("/etc/passwd"));
}

#[test]
fn test_invalid_filename_dot() {
    assert!(!is_valid_single_filename("."));
}

#[test]
fn test_trailing_slash_normalized_by_os() {
    // Path normalization drops the trailing slash, yielding a single normal
    // component.  This is fine — the downstream regular-file check rejects
    // directories anyway.
    assert!(is_valid_single_filename("dir/"));
}
