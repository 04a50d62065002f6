//! Configuration defaults, environment overrides and file paths.

use git_pr::cli::Args;
use git_pr::config::{get_tags_path_with_dir, Config};

#[test]
fn test_default_args() {
    let args = Args::default();
    assert!(!args.update_only);
    assert!(!args.dry_run);
}

#[test]
fn test_default_config() {
    let config = Config::default();
    assert!(config.jira.url.is_none());
    assert!(!config.template.body.is_empty());
    assert_eq!(config.template.fields.len(), 2);
    assert_eq!(config.template.fields[0].name, "description");
    assert_eq!(config.template.fields[1].name, "implementation");
}

#[test]
fn test_default_markers() {
    let config = Config::default();
    assert_eq!(
        config.template.markers.related_pr_start,
        "<!-- RELATED_PR -->"
    );
    assert_eq!(
        config.template.markers.related_pr_end,
        "<!-- /RELATED_PR -->"
    );
}

#[test]
fn test_tags_path_joins_directory() {
    assert_eq!(get_tags_path_with_dir("/home/u/.config/git-pr"), "/home/u/.config/git-pr/tags.txt");
    assert_eq!(get_tags_path_with_dir("dir/"), "dir/tags.txt");
    assert_eq!(get_tags_path_with_dir(""), "tags.txt");
    assert!(get_tags_path_with_dir("/tmp/x").ends_with("tags.txt"));
}

#[test]
fn test_env_overrides_fill_only_missing_values() {
    let mut config = Config::default();
    config.apply_env_overrides(
        Some("https://jira.example.com/browse/".to_string()),
        Some("".to_string()),
    );
    assert_eq!(
        config.jira.url.as_deref(),
        Some("https://jira.example.com/browse/")
    );
    // an empty environment value counts as absent
    assert!(config.github_user().is_none());

    let mut config = Config::default();
    config.jira.url = Some("configured".to_string());
    config.apply_env_overrides(Some("from-env".to_string()), Some("user".to_string()));
    assert_eq!(config.jira_url(), Some("configured"));
    assert_eq!(config.github_user(), Some("user".to_string()));
}
