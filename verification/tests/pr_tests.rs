//! The pull-request draft builder.

use git_pr::pr::PullRequest;

#[test]
fn test_pr_builder_pattern() {
    let pr = PullRequest::new()
        .with_title("[TEST-123]: Test PR")
        .with_tag("TEST-123")
        .with_jira(true)
        .with_field("description", "This is a test")
        .with_field("notes", "Some notes")
        .with_reviewers(vec!["user1".into(), "user2".into()])
        .with_base("main");

    assert_eq!(pr.title, "[TEST-123]: Test PR");
    assert_eq!(pr.tag, "TEST-123");
    assert!(pr.is_jira);
    assert_eq!(pr.get_field("description"), Some("This is a test"));
    assert_eq!(pr.get_field("notes"), Some("Some notes"));
    assert_eq!(pr.reviewers, vec!["user1", "user2"]);
    assert_eq!(pr.base, "main");
}

#[test]
fn test_with_fields_hashmap() {
    let mut fields: Vec<(String, String)> = Vec::new();
    fields.push(("field1".to_string(), "value1".to_string()));
    fields.push(("field2".to_string(), "value2".to_string()));

    let pr = PullRequest::new().with_fields(fields);

    assert_eq!(pr.get_field("field1"), Some("value1"));
    assert_eq!(pr.get_field("field2"), Some("value2"));
    assert_eq!(pr.get_field("nonexistent"), None);
}

#[test]
fn test_with_field_overwrites_existing() {
    let pr = PullRequest::new()
        .with_field("description", "first")
        .with_field("description", "second");
    assert_eq!(pr.get_field("description"), Some("second"));
    assert_eq!(pr.fields.len(), 1);
}
