//! Branch lineage resolution over commit-graph fixtures.

use git_pr::error::Error;
use git_pr::git::{get_branch_bases_and_commits, is_main, Branch, Commit, Repo};

fn commit(message: &str, parents: &[usize]) -> Commit {
    Commit {
        message: message.to_string(),
        parents: parents.to_vec(),
    }
}

fn branch(name: &str, tip: usize) -> Branch {
    Branch {
        name: name.to_string(),
        tip,
    }
}

/// `main` at the root, `feature/a` two commits ahead.
fn two_ahead_repo() -> Repo {
    Repo {
        commits: vec![
            commit("feat 2", &[1]),
            commit("feat 1", &[2]),
            commit("base", &[]),
        ],
        branches: vec![branch("main", 2), branch("feature/a", 0)],
    }
}

#[test]
fn test_lineage_two_ahead_of_main() {
    let repo = two_ahead_repo();
    let info = get_branch_bases_and_commits(&repo, "feature/a").unwrap();
    assert_eq!(info.bases, vec!["main"]);
    assert_eq!(info.commits.len(), 2);
    assert_eq!(info.commits, vec!["feat 2", "feat 1"]);
}

#[test]
fn test_lineage_is_deterministic() {
    let repo = two_ahead_repo();
    let a = get_branch_bases_and_commits(&repo, "feature/a").unwrap();
    let b = get_branch_bases_and_commits(&repo, "feature/a").unwrap();
    assert_eq!(a.bases, b.bases);
    assert_eq!(a.commits, b.commits);
}

#[test]
fn test_lineage_equal_branches_pick_lexicographic_first() {
    // `alpha` and `beta` both point at the fork commit
    let repo = Repo {
        commits: vec![commit("work", &[1]), commit("shared", &[])],
        branches: vec![
            branch("beta", 1),
            branch("alpha", 1),
            branch("feature/x", 0),
        ],
    };
    for _ in 0..3 {
        let info = get_branch_bases_and_commits(&repo, "feature/x").unwrap();
        assert_eq!(info.bases, vec!["alpha"]);
        assert_eq!(info.commits, vec!["work"]);
    }
}

#[test]
fn test_lineage_remote_branch_stops_walk_but_is_no_candidate() {
    // only `origin/main` reaches the fork commit: the walk stops there,
    // but a remote-tracking name is never offered as a base
    let repo = Repo {
        commits: vec![commit("w", &[1]), commit("shared", &[])],
        branches: vec![branch("origin/main", 1), branch("feature/y", 0)],
    };
    let info = get_branch_bases_and_commits(&repo, "feature/y").unwrap();
    assert!(info.bases.is_empty());
    assert_eq!(info.commits, vec!["w"]);
}

#[test]
fn test_lineage_own_remote_counterpart_is_skipped() {
    // the branch's own remote counterpart must not terminate the walk
    let repo = Repo {
        commits: vec![
            commit("feat 2", &[1]),
            commit("feat 1", &[2]),
            commit("base", &[]),
        ],
        branches: vec![
            branch("main", 2),
            branch("feature/a", 0),
            branch("origin/feature/a", 0),
        ],
    };
    let info = get_branch_bases_and_commits(&repo, "feature/a").unwrap();
    assert_eq!(info.bases, vec!["main"]);
    assert_eq!(info.commits, vec!["feat 2", "feat 1"]);
}

#[test]
fn test_lineage_no_other_branch_leaves_bases_empty() {
    let repo = Repo {
        commits: vec![commit("only", &[])],
        branches: vec![branch("feature/solo", 0)],
    };
    let info = get_branch_bases_and_commits(&repo, "feature/solo").unwrap();
    assert!(info.bases.is_empty());
    assert_eq!(info.commits, vec!["only"]);
}

#[test]
fn test_lineage_rejects_protected_branch() {
    let repo = two_ahead_repo();
    let err = get_branch_bases_and_commits(&repo, "main").unwrap_err();
    assert!(matches!(err, Error::CannotBeInMainBranch(m) if m == "main"));
}

#[test]
fn test_lineage_unknown_branch_is_a_repository_error() {
    let repo = two_ahead_repo();
    let err = get_branch_bases_and_commits(&repo, "feature/missing").unwrap_err();
    assert!(matches!(err, Error::Git(_)));
}

#[test]
fn test_is_main_matches_protected_names() {
    assert!(is_main("main"));
    assert!(is_main("master"));
    assert!(is_main("development"));
    assert!(is_main("stage"));
    assert!(is_main("production"));
    assert!(!is_main("feature/a"));
}

#[test]
fn test_branch_info_suggestions_and_completion() {
    let repo = two_ahead_repo();
    let info = get_branch_bases_and_commits(&repo, "feature/a").unwrap();
    // suggestions come oldest first and match ignoring ASCII case
    assert_eq!(info.get_suggestions("FEAT"), vec!["feat 1", "feat 2"]);
    assert_eq!(info.get_completion("feat"), Some("feat 2".to_string()));
    assert_eq!(info.get_completion("nothing"), None);
}
