//! URL parsing and resource-path handling.

use git_pr::github::{parse_pr_url, repo_from_resource_path};

#[test]
fn test_parse_pr_url_https() {
    let url = "https://github.com/owner/repo/pull/123";
    let result = parse_pr_url(url);
    assert_eq!(result, Some((123, "/owner/repo/pull/123".to_string())));
}

#[test]
fn test_parse_pr_url_http() {
    let url = "http://github.com/owner/repo/pull/456";
    let result = parse_pr_url(url);
    assert_eq!(result, Some((456, "/owner/repo/pull/456".to_string())));
}

#[test]
fn test_parse_pr_url_with_whitespace() {
    let url = "  https://github.com/owner/repo/pull/789  \n";
    let result = parse_pr_url(url);
    assert_eq!(result, Some((789, "/owner/repo/pull/789".to_string())));
}

#[test]
fn test_parse_pr_url_invalid_not_pull() {
    let url = "https://github.com/owner/repo/issues/123";
    let result = parse_pr_url(url);
    assert_eq!(result, None);
}

#[test]
fn test_parse_pr_url_invalid_no_number() {
    let url = "https://github.com/owner/repo/pull/abc";
    let result = parse_pr_url(url);
    assert_eq!(result, None);
}

#[test]
fn test_parse_pr_url_invalid_too_short() {
    let url = "https://github.com/owner";
    let result = parse_pr_url(url);
    assert_eq!(result, None);
}

#[test]
fn test_parse_pr_url_with_extra_path() {
    // URLs like https://github.com/owner/repo/pull/123/files should still work
    let url = "https://github.com/owner/repo/pull/123/files";
    let result = parse_pr_url(url);
    assert_eq!(result, Some((123, "/owner/repo/pull/123".to_string())));
}

#[test]
fn test_parse_pr_url_normalizes_number() {
    // a leading plus sign and leading zeros parse, and the resource path
    // carries the normalized number
    let url = "https://github.com/owner/repo/pull/+007";
    let result = parse_pr_url(url);
    assert_eq!(result, Some((7, "/owner/repo/pull/7".to_string())));
}

#[test]
fn test_parse_pr_url_rejects_overflow() {
    let url = "https://github.com/owner/repo/pull/4294967296";
    assert_eq!(parse_pr_url(url), None);
    let url = "https://github.com/owner/repo/pull/4294967295";
    assert_eq!(
        parse_pr_url(url),
        Some((4294967295, "/owner/repo/pull/4294967295".to_string()))
    );
}

#[test]
fn test_repo_from_resource_path() {
    assert_eq!(
        repo_from_resource_path("/owner/repo/pull/123"),
        Some("owner/repo".to_string())
    );
    assert_eq!(repo_from_resource_path("owner/repo"), None);
}
