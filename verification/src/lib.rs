//! A pull-request bookkeeping engine: branch lineage resolution over a commit
//! graph, tag extraction from commit messages, a bounded most-recently-used
//! tag history, and an idempotent template renderer that keeps a delimited
//! "related PRs" block synchronized across PR bodies.

pub mod cli;
pub mod config;
pub mod error;
pub mod flow;
pub mod git;
pub mod github;
pub mod pr;
pub mod tags;
pub mod template;
pub mod text;

pub use config::Config;
pub use error::Error;
pub use pr::PullRequest;
