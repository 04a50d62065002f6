//! Body rendering and related-PR block rewriting.

use git_pr::config::{Config, FieldType, FormField};
use git_pr::github::PullRequest;
use git_pr::template::{
    make_body, remove_empty_placeholders, remove_placeholder_line, replace_related_prs,
};

fn test_config_with_jira() -> Config {
    let mut config = Config::default();
    config.jira.url = Some("https://jira.example.com/browse/".to_string());
    config
}

fn test_config_without_jira() -> Config {
    Config::default()
}

fn make_fields(pairs: &[(&str, &str)]) -> Vec<(String, String)> {
    pairs
        .iter()
        .map(|(k, v)| (k.to_string(), v.to_string()))
        .collect()
}

#[test]
fn test_make_body_with_jira() {
    let config = test_config_with_jira();
    let fields = make_fields(&[
        ("description", "Adds a new feature"),
        ("implementation", "Used library X"),
    ]);

    let body = make_body(&config, "TRACK-123", true, &fields);

    assert!(body.contains("Tracked by [TRACK-123](https://jira.example.com/browse/TRACK-123)"));
    assert!(body.contains("Adds a new feature"));
    assert!(body.contains("Used library X"));
}

#[test]
fn test_make_body_without_jira() {
    let config = test_config_without_jira();
    let fields = make_fields(&[
        ("description", "Bug fix"),
        ("implementation", "Fixed the issue"),
    ]);

    let body = make_body(&config, "TAG-456", false, &fields);

    assert!(!body.contains("Tracked by"));
    assert!(body.contains("Bug fix"));
    assert!(body.contains("Fixed the issue"));
}

#[test]
fn test_make_body_with_jira_flag_but_no_url() {
    let config = test_config_without_jira();
    let fields = make_fields(&[("description", "Some work")]);

    // Even if is_jira is true, no tracking line without URL
    let body = make_body(&config, "JIRA-123", true, &fields);

    assert!(!body.contains("Tracked by"));
}

#[test]
fn test_make_body_removes_empty_fields() {
    let config = test_config_without_jira();
    let fields = make_fields(&[("description", "Has description")]);
    // implementation is empty

    let body = make_body(&config, "TAG", false, &fields);

    assert!(body.contains("Has description"));
    // The implementation line should be removed
    assert!(!body.contains("{{implementation}}"));
    // But the section header might still be there (that's in the template)
}

#[test]
fn test_make_body_with_custom_template() {
    let mut config = test_config_with_jira();
    config.template.body = "## Summary\n{{summary}}\n\n## Details\n{{details}}\n".to_string();
    config.template.fields = vec![
        FormField {
            name: "summary".to_string(),
            prompt: "Summary:".to_string(),
            field_type: FieldType::Text,
            required: true,
            default: None,
        },
        FormField {
            name: "details".to_string(),
            prompt: "Details:".to_string(),
            field_type: FieldType::Editor,
            required: false,
            default: None,
        },
    ];

    let fields = make_fields(&[("summary", "Quick fix"), ("details", "Fixed a bug")]);

    let body = make_body(&config, "FIX-123", true, &fields);

    assert!(body.contains("Tracked by [FIX-123]"));
    assert!(body.contains("## Summary\nQuick fix"));
    assert!(body.contains("## Details\nFixed a bug"));
}

#[test]
fn test_make_body_removes_line_with_empty_optional_field() {
    let mut config = test_config_without_jira();
    config.template.body =
        "## Required\n{{required_field}}\n\n## Optional\n{{optional_field}}\n\n## Footer\n"
            .to_string();
    config.template.fields = vec![
        FormField {
            name: "required_field".to_string(),
            prompt: "Required:".to_string(),
            field_type: FieldType::Text,
            required: true,
            default: None,
        },
        FormField {
            name: "optional_field".to_string(),
            prompt: "Optional:".to_string(),
            field_type: FieldType::Text,
            required: false,
            default: None,
        },
    ];

    let fields = make_fields(&[("required_field", "I am here")]);

    let body = make_body(&config, "TAG", false, &fields);

    assert!(body.contains("## Required\nI am here"));
    assert!(body.contains("## Optional"));
    assert!(body.contains("## Footer"));
    // The placeholder line should be gone
    assert!(!body.contains("{{optional_field}}"));
}

fn related_pair() -> Vec<PullRequest> {
    vec![
        PullRequest {
            id: "1".into(),
            title: "PR 1".into(),
            resource_path: "/owner/repo/pull/1".into(),
            number: 1,
            body: String::new(),
        },
        PullRequest {
            id: "2".into(),
            title: "PR 2".into(),
            resource_path: "/owner/repo/pull/2".into(),
            number: 2,
            body: String::new(),
        },
    ]
}

#[test]
fn test_replace_related_prs() {
    let config = Config::default();

    let body = "Some text\n<!-- RELATED_PR -->\n- old/stuff\n<!-- /RELATED_PR -->\nMore text";

    let related_prs = related_pair();

    let result = replace_related_prs(&config, body, &1, &related_prs);

    assert!(result.contains("owner/repo/pull/1 - (this pr)"));
    assert!(result.contains("- owner/repo/pull/2"));
    assert!(!result.contains("old/stuff"));
}

#[test]
fn test_replace_related_prs_with_custom_markers() {
    let mut config = Config::default();
    config.template.markers.related_pr_start = "{{RELATED_START}}".to_string();
    config.template.markers.related_pr_end = "{{RELATED_END}}".to_string();

    let body = "Some text\n{{RELATED_START}}\n- old/stuff\n{{RELATED_END}}\nMore text";

    let related_prs = vec![PullRequest {
        id: "1".into(),
        title: "PR 1".into(),
        resource_path: "/owner/repo/pull/1".into(),
        number: 1,
        body: String::new(),
    }];

    let result = replace_related_prs(&config, body, &1, &related_prs);

    assert!(result.contains("{{RELATED_START}}"));
    assert!(result.contains("{{RELATED_END}}"));
    assert!(result.contains("owner/repo/pull/1 - (this pr)"));
    assert!(!result.contains("old/stuff"));
}

#[test]
fn test_replace_related_prs_is_idempotent() {
    let config = Config::default();
    let body = "Intro\n<!-- RELATED_PR -->\n- stale/entry\n<!-- /RELATED_PR -->\nOutro";
    let related_prs = related_pair();

    let first = replace_related_prs(&config, body, &2, &related_prs);
    let second = replace_related_prs(&config, first.as_str(), &2, &related_prs);

    assert_eq!(first, second);
    // exactly one marker pair is left
    assert_eq!(first.matches("<!-- RELATED_PR -->").count(), 1);
    assert_eq!(first.matches("<!-- /RELATED_PR -->").count(), 1);
}

#[test]
fn test_replace_related_prs_exact_block() {
    let config = Config::default();
    let body = "<!-- RELATED_PR -->\n<!-- /RELATED_PR -->";
    let related = vec![PullRequest {
        id: "1".into(),
        title: "PR 1".into(),
        resource_path: "/o/r/pull/1".into(),
        number: 1,
        body: String::new(),
    }];
    let result = replace_related_prs(&config, body, &1, &related);
    assert_eq!(
        result,
        "<!-- RELATED_PR -->\n- o/r/pull/1 - (this pr)\n<!-- /RELATED_PR -->"
    );
}

#[test]
fn test_make_body_exact_default_render() {
    let config = Config::default();
    let fields = make_fields(&[("description", "D"), ("implementation", "I")]);
    let body = make_body(&config, "TAG-1", false, &fields);
    assert_eq!(
        body,
        "Related PRs:\n<!-- RELATED_PR -->\n<!-- /RELATED_PR -->\n\n## This PR...\nD\n\n## Considerations and implementation\nI\n"
    );
}

#[test]
fn test_replace_related_prs_without_block_keeps_body() {
    let config = Config::default();
    let body = "No markers anywhere";
    let result = replace_related_prs(&config, body, &1, &related_pair());
    assert_eq!(result, body);
}

#[test]
fn test_remove_placeholder_line() {
    let body = "Line 1\nLine with {{placeholder}} here\nLine 3\n";
    let result = remove_placeholder_line(body, "{{placeholder}}");
    assert_eq!(result, "Line 1\nLine 3\n");
}

#[test]
fn test_remove_empty_placeholders() {
    let body = "Keep this\n{{unknown}} should go\nAnd this stays\n";
    let result = remove_empty_placeholders(body);
    assert!(result.contains("Keep this"));
    assert!(result.contains("And this stays"));
    assert!(!result.contains("{{unknown}}"));
}
