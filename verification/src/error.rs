//! The closed set of error kinds the engine reports. Presentation (messages,
//! exit codes, colors) is left entirely to the caller at the outermost
//! boundary.

use vstd::prelude::*;

verus! {

/// Everything that can go wrong while preparing or updating pull requests.
/// Environment conditions are reported with a distinct variant each;
/// collaborator failures carry the collaborator's own text.
#[derive(Debug, Clone)]
pub enum Error {
    /// The working directory is not inside a repository.
    NotInGitRepo,
    /// The repository has uncommitted or unmerged state.
    BranchNotClean,
    /// The current branch is a protected branch and cannot carry a PR.
    CannotBeInMainBranch(String),
    /// The current branch has no commits of its own.
    NoCommits,
    /// No other branch reaches any ancestor of the current branch.
    NoBaseFound,
    /// A repository access failed; carries the underlying report.
    Git(String),
    /// Reading or writing a file failed; carries the underlying report.
    Io(String),
    /// A collaborator response could not be parsed.
    Json(String),
    /// The hosting-service collaborator failed.
    GitHubCli(String),
    /// A required environment variable is missing.
    EnvVar(String),
    /// The configuration file could not be used.
    Config(String),
    /// The user cancelled an interactive prompt: a clean, silent abort.
    Cancelled,
    /// Interactive input was rejected.
    InvalidInput(String),
    /// An interactive prompt failed.
    Prompt(String),
}

} // verus!
