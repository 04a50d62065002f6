//! Flow decisions: sibling matching, base selection, drafts, field
//! validation, update planning, and the end-to-end scenario.

use git_pr::config::Config;
use git_pr::error::Error;
use git_pr::flow::{
    filter_related_prs, plan_related_updates, pr_from_found_tag, pr_from_prompt,
    select_base_branch, validate_field_input,
};
use git_pr::git::{get_branch_bases_and_commits, Branch, Commit, Repo};
use git_pr::github::PullRequest;
use git_pr::tags::extract_from_vec;
use git_pr::template::make_body;

fn remote(title: &str, number: u32) -> PullRequest {
    PullRequest {
        id: format!("id-{}", number),
        title: title.to_string(),
        resource_path: format!("/o/r/pull/{}", number),
        number,
        body: String::new(),
    }
}

#[test]
fn test_filter_related_prs_matches_exact_tag_only() {
    let prs = vec![
        remote("[TRACK-12]: x", 12),
        remote("[TRACK-1]: y", 1),
        remote("unrelated", 3),
    ];
    let (matched, warned) = filter_related_prs(prs, "TRACK-1");
    assert_eq!(matched.len(), 1);
    assert_eq!(matched[0].number, 1);
    assert!(warned.is_empty());
}

#[test]
fn test_filter_related_prs_reports_malformed_titles() {
    let prs = vec![
        remote("TRACK-1 without brackets", 4),
        remote("[TRACK-1]: good", 5),
    ];
    let (matched, warned) = filter_related_prs(prs, "TRACK-1");
    assert_eq!(matched.len(), 1);
    assert_eq!(matched[0].number, 5);
    assert_eq!(warned, vec!["TRACK-1 without brackets"]);
}

#[test]
fn test_select_base_branch() {
    assert!(matches!(
        select_base_branch(&vec![]),
        Err(Error::NoBaseFound)
    ));
    assert_eq!(
        select_base_branch(&vec!["main".to_string()]).unwrap(),
        Some("main".to_string())
    );
    assert_eq!(
        select_base_branch(&vec!["a".to_string(), "b".to_string()]).unwrap(),
        None
    );
}

#[test]
fn test_pr_drafts() {
    let pr = pr_from_found_tag("AUTH-9", "[AUTH-9]: add login");
    assert_eq!(pr.tag, "AUTH-9");
    assert_eq!(pr.title, "[AUTH-9]: add login");
    assert!(pr.is_jira);

    let pr = pr_from_prompt("TRACK-7", "add search");
    assert_eq!(pr.title, "[TRACK-7]: add search");
    assert_eq!(pr.tag, "TRACK-7");
    assert!(!pr.is_jira);
}

#[test]
fn test_validate_field_input() {
    let config = Config::default();
    let required = &config.template.fields[0];
    let optional = &config.template.fields[1];

    let err = validate_field_input(required, "   ").unwrap_err();
    assert!(matches!(err, Error::Prompt(m)
        if m == "Field 'description' is required but was left empty"));
    assert_eq!(validate_field_input(optional, " \t").unwrap(), None);
    assert_eq!(
        validate_field_input(optional, "kept as typed ").unwrap(),
        Some("kept as typed ".to_string())
    );
}

#[test]
fn test_plan_related_updates_rewrites_each_body() {
    let config = Config::default();
    let mut a = remote("[T-1]: a", 1);
    a.body = "x\n<!-- RELATED_PR -->\nold\n<!-- /RELATED_PR -->\ny".to_string();
    let mut b = remote("[T-1]: b", 2);
    b.body = "<!-- RELATED_PR -->\n<!-- /RELATED_PR -->".to_string();
    let related = vec![a, b];

    let plan = plan_related_updates(&config, &related);
    assert_eq!(plan.len(), 2);
    assert_eq!(plan[0].0, 1);
    assert_eq!(plan[0].1, "/o/r/pull/1");
    assert!(plan[0].2.contains("- o/r/pull/1 - (this pr)"));
    assert!(plan[0].2.contains("- o/r/pull/2"));
    assert!(!plan[0].2.contains("old"));
    assert!(plan[1].2.contains("- o/r/pull/2 - (this pr)"));
}

#[test]
fn test_end_to_end_scenario() {
    // branch `feature/login`, two unique commits, base candidate `main`
    let repo = Repo {
        commits: vec![
            Commit { message: "wip".to_string(), parents: vec![1] },
            Commit { message: "[AUTH-9]: add login".to_string(), parents: vec![2] },
            Commit { message: "init".to_string(), parents: vec![] },
        ],
        branches: vec![
            Branch { name: "main".to_string(), tip: 2 },
            Branch { name: "feature/login".to_string(), tip: 0 },
        ],
    };

    let info = get_branch_bases_and_commits(&repo, "feature/login").unwrap();
    assert_eq!(info.commits, vec!["wip", "[AUTH-9]: add login"]);
    assert_eq!(info.bases, vec!["main"]);

    let (tag, commit) = extract_from_vec(info.commits.clone()).unwrap();
    assert_eq!(tag, "AUTH-9");
    assert_eq!(commit, "[AUTH-9]: add login");

    let mut config = Config::default();
    config.jira.url = Some("https://jira.example.com/browse/".to_string());
    let fields = vec![
        ("description".to_string(), "Adds login".to_string()),
        ("implementation".to_string(), "Sessions".to_string()),
    ];
    let body = make_body(&config, tag.as_str(), true, &fields);
    assert!(body.contains("Tracked by [AUTH-9](https://jira.example.com/browse/AUTH-9)"));
    assert!(!body.contains("{{"));
}
