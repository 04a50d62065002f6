//! The invocation options. Parsing a command line into them happens
//! outside the library; the values arrive here as plain data.

use vstd::prelude::*;

verus! {

/// Options of one invocation.
#[derive(Debug, Clone)]
pub struct Args {
    /// Only update related PRs; skip the creation flow.
    pub update_only: bool,
    /// Print the would-be service calls without issuing them.
    pub dry_run: bool,
    /// The configuration directory; the caller resolves the default.
    pub config: String,
}

impl Default for Args {
    /// No flag set, configuration directory left for the caller to fill.
    fn default() -> (r: Self)
        ensures
            r.update_only == false,
            r.dry_run == false,
            r.config@.len() == 0,
    {
        Args { update_only: false, dry_run: false, config: String::new() }
    }
}

} // verus!
