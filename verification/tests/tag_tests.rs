//! Tag extraction and tag-history behaviour.

use git_pr::tags::{extract_from_str, extract_from_vec, is_valid_tag, Tags};

#[test]
fn test_extract_from_str() {
    assert_eq!(
        extract_from_str("[TRACK-123]: Add feature"),
        Some("TRACK-123".to_string())
    );
    assert_eq!(extract_from_str("No tag here"), None);
    assert_eq!(
        extract_from_str("[ABC]: Simple tag"),
        Some("ABC".to_string())
    );
}

#[test]
fn test_extract_from_vec() {
    let commits = vec![
        "No tag here".to_string(),
        "[TRACK-123]: Add feature".to_string(),
        "[TRACK-456]: Another".to_string(),
    ];
    let result = extract_from_vec(commits);
    assert!(result.is_some());
    let (tag, commit) = result.unwrap();
    assert_eq!(tag, "TRACK-123");
    assert_eq!(commit, "[TRACK-123]: Add feature");
}

#[test]
fn test_extract_rejects_unclosed_and_malformed() {
    assert_eq!(extract_from_str("[TRACK-123: no closing"), None);
    assert_eq!(extract_from_str("TRACK-123]: no opening"), None);
    assert_eq!(extract_from_str("[-leading]: hyphen"), None);
    assert_eq!(extract_from_str("[double--hyphen]"), None);
    // the first malformed candidate does not hide a later valid tag
    assert_eq!(
        extract_from_str("[-bad] then [GOOD-1]"),
        Some("GOOD-1".to_string())
    );
    // an empty pair of brackets matches with an empty body
    assert_eq!(extract_from_str("[]"), Some("".to_string()));
}

#[test]
fn test_extract_takes_leftmost() {
    assert_eq!(
        extract_from_str("see [A-1] and [B-2]"),
        Some("A-1".to_string())
    );
}

#[test]
fn test_is_valid_tag() {
    assert!(is_valid_tag("[TRACK-123]"));
    assert!(!is_valid_tag("TRACK-123"));
}

#[test]
fn test_tags_add_and_save() {
    let mut tags = Tags::from_contents("tags.txt".to_string(), "");

    tags.add("TRACK-123".to_string());
    tags.add("TRACK-123".to_string()); // Duplicate
    tags.add("TRACK-124".to_string());
    let contents = tags.save();

    let tags = Tags::from_contents("tags.txt".to_string(), contents.as_str());
    let list = tags.iter();
    assert_eq!(list.len(), 2);
    assert_eq!(list[0], "TRACK-124");
    assert_eq!(list[1], "TRACK-123");
}

#[test]
fn test_tags_max_limit() {
    let mut tags = Tags::from_contents("tags.txt".to_string(), "");
    for i in 0..15 {
        tags.add(format!("TAG-{}", i));
    }

    let list = tags.iter();
    assert_eq!(list.len(), 10);
    assert_eq!(list[0], "TAG-14"); // Most recent
}

#[test]
fn test_tags_order_most_recent_first() {
    let mut tags = Tags::from_contents("t".to_string(), "");
    tags.add("A-1".to_string());
    tags.add("B-2".to_string());
    tags.add("C-3".to_string());
    let list = tags.iter();
    assert_eq!(list, vec!["C-3", "B-2", "A-1"]);
}

#[test]
fn test_tags_from_contents_trims_and_skips_blank_lines() {
    let tags = Tags::from_contents("t".to_string(), "  TAG-1  \n\n\tTAG-2\r\n");
    let list = tags.iter();
    assert_eq!(list, vec!["TAG-1", "TAG-2"]);
    assert!(!tags.is_empty());
}

#[test]
fn test_tags_save_renders_one_per_line() {
    let mut tags = Tags::from_contents("t".to_string(), "");
    tags.add("B-2".to_string());
    let contents = tags.add_and_save("A-1".to_string());
    assert_eq!(contents, "A-1\nB-2\n");
}

#[test]
fn test_tags_suggestions_and_completion() {
    let tags = Tags::from_contents("t".to_string(), "TRACK-9\nTRACK-10\nJIRA-1\n");
    assert_eq!(tags.get_suggestions("TRACK"), vec!["TRACK-9", "TRACK-10"]);
    assert_eq!(tags.get_completion("JI"), Some("JIRA-1".to_string()));
    assert_eq!(tags.get_completion("X"), None);
}
