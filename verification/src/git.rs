//! The branch lineage resolver: given a repository's commit graph and its
//! current branch, compute which commits are unique to that branch and
//! which existing branch it forked from.
//!
//! The repository arrives as plain data: an arena of commit records indexed
//! by position, newest first, so that every parent stands at a strictly
//! larger index than its child; branches are named pointers into the arena.
//! Reading the actual repository and building this arena happens outside
//! the library.

use vstd::prelude::*;

use crate::error::Error;
use crate::text::{
    is_prefix, lemma_lex_le_antisymm, lemma_lex_le_total, lemma_lex_le_trans, lex_le,
    starts_with, str_eq, str_le, views,
};

verus! {

/// One commit record: its message and the arena indices of its parents.
#[derive(Debug, Clone)]
pub struct Commit {
    /// The commit message.
    pub message: String,
    /// Arena indices of the parents; each is strictly larger than the
    /// record's own index.
    pub parents: Vec<usize>,
}

/// One branch: a name and the arena index of its tip commit. Remote
/// tracking branches carry their usual `origin/` name prefix.
#[derive(Debug, Clone)]
pub struct Branch {
    /// The branch name (e.g. `main`, `feature/a`, `origin/main`).
    pub name: String,
    /// Arena index of the branch tip.
    pub tip: usize,
}

/// The repository model: the commit arena and the branch pointers.
#[derive(Debug, Clone)]
pub struct Repo {
    /// All commits reachable from any branch, newest first.
    pub commits: Vec<Commit>,
    /// All local and remote-tracking branches.
    pub branches: Vec<Branch>,
}

/// Well-formedness of the arena: every branch tip is a valid index, and
/// every parent index is strictly larger than its child's.
pub open spec fn repo_wf(repo: Repo) -> bool {
    &&& forall|b: int|
        0 <= b < repo.branches@.len() ==> (#[trigger] repo.branches@[b]).tip < repo.commits@.len()
    &&& forall|i: int, j: int|
        0 <= i < repo.commits@.len() && 0 <= j < repo.commits@[i].parents@.len() ==> i < (
        #[trigger] repo.commits@[i].parents@[j]) < repo.commits@.len()
}

/// Decide well-formedness of an arena the caller assembled: every branch
/// tip in range, every parent strictly deeper than its child.
pub fn check_repo_wf(repo: &Repo) -> (r: bool)
    ensures
        r == repo_wf(*repo),
{
    let n = repo.commits.len();
    let nb = repo.branches.len();
    let mut b: usize = 0;
    while b < nb
        invariant
            b <= nb,
            nb == repo.branches@.len(),
            n == repo.commits@.len(),
            forall|c: int| 0 <= c < b ==> (#[trigger] repo.branches@[c]).tip < n,
        decreases nb - b,
    {
        if repo.branches[b].tip >= n {
            return false;
        }
        b += 1;
    }
    let mut i: usize = 0;
    while i < n
        invariant
            i <= n,
            n == repo.commits@.len(),
            forall|c: int, j: int|
                0 <= c < i && 0 <= j < repo.commits@[c].parents@.len() ==> c < (
                #[trigger] repo.commits@[c].parents@[j]) < n,
        decreases n - i,
    {
        let np = repo.commits[i].parents.len();
        let mut j: usize = 0;
        while j < np
            invariant
                0 <= i < n,
                j <= np,
                n == repo.commits@.len(),
                np == repo.commits@[i as int].parents@.len(),
                forall|c: int, l: int|
                    0 <= c < i && 0 <= l < repo.commits@[c].parents@.len() ==> c < (
                    #[trigger] repo.commits@[c].parents@[l]) < n,
                forall|l: int|
                    0 <= l < j ==> i < (#[trigger] repo.commits@[i as int].parents@[l]) < n,
            decreases np - j,
        {
            let p = repo.commits[i].parents[j];
            if p <= i || p >= n {
                return false;
            }
            j += 1;
        }
        i += 1;
    }
    true
}

/// Commit `b` is `a` or an ancestor of `a`.
pub open spec fn reaches(repo: Repo, a: int, b: int) -> bool
    decreases repo.commits@.len() - a,
{
    if a < 0 || a >= repo.commits@.len() {
        false
    } else if a == b {
        true
    } else {
        exists|j: int|
            0 <= j < repo.commits@[a].parents@.len() && a < (#[trigger] repo.commits@[a].parents@[j])
                < repo.commits@.len() && reaches(repo, repo.commits@[a].parents@[j] as int, b)
    }
}

/// Reachability only runs toward larger indices.
proof fn lemma_reaches_bounds(repo: Repo, a: int, b: int)
    requires
        reaches(repo, a, b),
    ensures
        0 <= a <= b < repo.commits@.len(),
    decreases repo.commits@.len() - a,
{
    if a != b {
        let j = choose|j: int|
            0 <= j < repo.commits@[a].parents@.len() && a < (
            #[trigger] repo.commits@[a].parents@[j]) < repo.commits@.len() && reaches(
                repo,
                repo.commits@[a].parents@[j] as int,
                b,
            );
        lemma_reaches_bounds(repo, repo.commits@[a].parents@[j] as int, b);
    }
}

/// Reachability extends along a parent edge at its far end.
proof fn lemma_reaches_extend(repo: Repo, s: int, a: int, j: int)
    requires
        repo_wf(repo),
        reaches(repo, s, a),
        0 <= j < repo.commits@[a].parents@.len(),
    ensures
        reaches(repo, s, repo.commits@[a].parents@[j] as int),
    decreases repo.commits@.len() - s,
{
    lemma_reaches_bounds(repo, s, a);
    let p = repo.commits@[a].parents@[j] as int;
    if s == a {
        assert(0 <= j < repo.commits@[a].parents@.len() && a < (
        #[trigger] repo.commits@[a].parents@[j]) < repo.commits@.len() && reaches(repo, p, p));
    } else {
        let m = choose|m: int|
            0 <= m < repo.commits@[s].parents@.len() && s < (
            #[trigger] repo.commits@[s].parents@[m]) < repo.commits@.len() && reaches(
                repo,
                repo.commits@[s].parents@[m] as int,
                a,
            );
        lemma_reaches_extend(repo, repo.commits@[s].parents@[m] as int, a, j);
        assert(reaches(repo, repo.commits@[s].parents@[m] as int, p));
    }
}

/// In a forward-closed marking that holds some start, everything the start
/// reaches is marked.
proof fn lemma_closed_marked(repo: Repo, vis: Seq<bool>, a: int, k: int)
    requires
        repo_wf(repo),
        vis.len() == repo.commits@.len(),
        forall|c: int, j: int|
            0 <= c < repo.commits@.len() && vis[c] && 0 <= j < repo.commits@[c].parents@.len()
                ==> vis[#[trigger] repo.commits@[c].parents@[j] as int],
        0 <= a < vis.len(),
        vis[a],
        reaches(repo, a, k),
    ensures
        vis[k],
    decreases repo.commits@.len() - a,
{
    if a != k {
        let j = choose|j: int|
            0 <= j < repo.commits@[a].parents@.len() && a < (
            #[trigger] repo.commits@[a].parents@[j]) < repo.commits@.len() && reaches(
                repo,
                repo.commits@[a].parents@[j] as int,
                k,
            );
        assert(vis[repo.commits@[a].parents@[j] as int]);
        lemma_closed_marked(repo, vis, repo.commits@[a].parents@[j] as int, k);
    }
}

/// Mark every commit reachable from a marked seed: a single forward pass,
/// since parents always stand at larger indices.
fn mark_reachable(repo: &Repo, seeds: &Vec<bool>) -> (r: Vec<bool>)
    requires
        repo_wf(*repo),
        seeds@.len() == repo.commits@.len(),
    ensures
        r@.len() == repo.commits@.len(),
        forall|k: int|
            0 <= k < r@.len() ==> (r@[k] <==> exists|s: int|
                0 <= s < seeds@.len() && seeds@[s] && reaches(*repo, s, k)),
{
    let n = repo.commits.len();
    let mut vis: Vec<bool> = Vec::new();
    let mut i: usize = 0;
    while i < n
        invariant
            i <= n,
            n == repo.commits@.len(),
            seeds@.len() == n,
            vis@.len() == i,
            forall|k: int| 0 <= k < i ==> vis@[k] == seeds@[k],
        decreases n - i,
    {
        vis.push(seeds[i]);
        i += 1;
    }
    let mut j: usize = 0;
    while j < n
        invariant
            j <= n,
            n == repo.commits@.len(),
            seeds@.len() == n,
            vis@.len() == n,
            repo_wf(*repo),
            // soundness: marks are reachable from a seed
            forall|k: int|
                0 <= k < n && vis@[k] ==> exists|s: int|
                    0 <= s < n && seeds@[s] && reaches(*repo, s, k),
            // seeds stay marked
            forall|s: int| 0 <= s < n && seeds@[s] ==> vis@[s],
            // processed commits have their parents marked
            forall|c: int, l: int|
                0 <= c < j && vis@[c] && 0 <= l < repo.commits@[c].parents@.len() ==> vis@[
                    #[trigger] repo.commits@[c].parents@[l] as int
                ],
        decreases n - j,
    {
        if vis[j] {
            let ghost vis_at_j = vis@;
            let mut l: usize = 0;
            while l < repo.commits[j].parents.len()
                invariant
                    0 <= j < n,
                    l <= repo.commits@[j as int].parents@.len(),
                    n == repo.commits@.len(),
                    seeds@.len() == n,
                    vis@.len() == n,
                    repo_wf(*repo),
                    vis@[j as int],
                    forall|k: int|
                        0 <= k < n && vis@[k] ==> exists|s: int|
                            0 <= s < n && seeds@[s] && reaches(*repo, s, k),
                    forall|s: int| 0 <= s < n && seeds@[s] ==> vis@[s],
                    forall|c: int, m: int|
                        0 <= c < j && vis@[c] && 0 <= m < repo.commits@[c].parents@.len() ==> vis@[
                            #[trigger] repo.commits@[c].parents@[m] as int
                        ],
                    forall|m: int|
                        0 <= m < l ==> vis@[#[trigger] repo.commits@[j as int].parents@[m] as int],
                decreases repo.commits@[j as int].parents@.len() - l,
            {
                let p = repo.commits[j].parents[l];
                proof {
                    let s = choose|s: int|
                        0 <= s < n && seeds@[s] && reaches(*repo, s, j as int);
                    lemma_reaches_extend(*repo, s, j as int, l as int);
                    assert(reaches(*repo, s, p as int));
                }
                vis[p] = true;
                l += 1;
            }
        }
        j += 1;
    }
    proof {
        assert forall|k: int|
            0 <= k < n && (exists|s: int| 0 <= s < n && seeds@[s] && reaches(*repo, s, k))
            implies vis@[k] by {
            let s = choose|s: int| 0 <= s < n && seeds@[s] && reaches(*repo, s, k);
            lemma_closed_marked(*repo, vis@, s, k);
        }
    }
    vis
}

/// A vector of `n` cleared marks.
fn false_vec(n: usize) -> (r: Vec<bool>)
    ensures
        r@.len() == n,
        forall|k: int| 0 <= k < n ==> !r@[k],
{
    let mut v: Vec<bool> = Vec::new();
    let mut i: usize = 0;
    while i < n
        invariant
            i <= n,
            v@.len() == i,
            forall|k: int| 0 <= k < i ==> !v@[k],
        decreases n - i,
    {
        v.push(false);
        i += 1;
    }
    v
}

/// Every commit reachable from one start commit.
fn reach_set(repo: &Repo, start: usize) -> (r: Vec<bool>)
    requires
        repo_wf(*repo),
        start < repo.commits@.len(),
    ensures
        r@.len() == repo.commits@.len(),
        forall|k: int| 0 <= k < r@.len() ==> (r@[k] <==> reaches(*repo, start as int, k)),
{
    let n = repo.commits.len();
    let mut seeds = false_vec(n);
    seeds[start] = true;
    let vis = mark_reachable(repo, &seeds);
    proof {
        assert forall|k: int| 0 <= k < n implies (vis@[k] <==> reaches(
            *repo,
            start as int,
            k,
        )) by {
            if vis@[k] {
                let s = choose|s: int| 0 <= s < n && seeds@[s] && reaches(*repo, s, k);
                assert(s == start);
            }
            if reaches(*repo, start as int, k) {
                assert(seeds@[start as int] && reaches(*repo, start as int, k));
            }
        }
    }
    vis
}

/// A protected branch name, which cannot carry a feature PR.
pub open spec fn is_protected(name: Seq<char>) -> bool {
    name == "master"@ || name == "main"@ || name == "development"@ || name == "stage"@ || name
        == "production"@
}

/// Whether the given branch name is protected.
pub fn is_main(name: &str) -> (r: bool)
    ensures
        r == is_protected(name@),
{
    str_eq(name, "master") || str_eq(name, "main") || str_eq(name, "development") || str_eq(
        name,
        "stage",
    ) || str_eq(name, "production")
}

/// The first branch carrying the given name, or `-1` if there is none.
pub open spec fn branch_idx(branches: Seq<Branch>, name: Seq<char>) -> int
    decreases branches.len(),
{
    if branches.len() == 0 {
        -1
    } else if branches[0].name@ == name {
        0
    } else {
        let r = branch_idx(branches.drop_first(), name);
        if r < 0 {
            -1
        } else {
            r + 1
        }
    }
}

/// What `branch_idx` returns: the first index carrying the name, or a
/// negative value when no branch does.
proof fn lemma_branch_idx_bounds(branches: Seq<Branch>, name: Seq<char>)
    ensures
        branch_idx(branches, name) >= 0 ==> branch_idx(branches, name) < branches.len()
            && branches[branch_idx(branches, name)].name@ == name && (forall|m: int|
            0 <= m < branch_idx(branches, name) ==> (#[trigger] branches[m]).name@ != name),
        branch_idx(branches, name) < 0 ==> forall|m: int|
            0 <= m < branches.len() ==> (#[trigger] branches[m]).name@ != name,
    decreases branches.len(),
{
    if branches.len() > 0 && branches[0].name@ != name {
        let t = branches.drop_first();
        lemma_branch_idx_bounds(t, name);
        if branch_idx(t, name) >= 0 {
            assert forall|m: int|
                0 <= m < branch_idx(branches, name) implies (#[trigger] branches[m]).name@
                != name by {
                if m > 0 {
                    assert(t[m - 1].name@ != name);
                }
            }
        } else {
            assert forall|m: int|
                0 <= m < branches.len() implies (#[trigger] branches[m]).name@ != name by {
                if m > 0 {
                    assert(t[m - 1].name@ != name);
                }
            }
        }
    }
}

/// The first matching index, as computed, pins `branch_idx`.
proof fn lemma_branch_idx_is(branches: Seq<Branch>, name: Seq<char>, n: int)
    requires
        0 <= n < branches.len(),
        branches[n].name@ == name,
        forall|m: int| 0 <= m < n ==> (#[trigger] branches[m]).name@ != name,
    ensures
        branch_idx(branches, name) == n,
{
    lemma_branch_idx_bounds(branches, name);
}

/// The two names the resolver never counts as another branch: the current
/// branch itself and its own remote-tracking counterpart.
pub open spec fn skip_name(cur: Seq<char>, name: Seq<char>) -> bool {
    name == cur || name == "origin/"@ + cur
}

/// Some branch other than the current one (or its remote counterpart)
/// reaches commit `k`.
pub open spec fn other_reaches(repo: Repo, cur: Seq<char>, k: int) -> bool {
    exists|b: int|
        0 <= b < repo.branches@.len() && !skip_name(cur, (#[trigger] repo.branches@[b]).name@)
            && reaches(repo, repo.branches@[b].tip as int, k)
}

/// A commit of the current branch that no other branch reaches.
pub open spec fn is_unique_commit(repo: Repo, cur: Seq<char>, tip: int, k: int) -> bool {
    reaches(repo, tip, k) && !other_reaches(repo, cur, k)
}

/// A commit of the current branch that another branch reaches too: a fork
/// point candidate.
pub open spec fn is_fork(repo: Repo, cur: Seq<char>, tip: int, k: int) -> bool {
    reaches(repo, tip, k) && other_reaches(repo, cur, k)
}

/// The messages of the unique commits among the first `n` arena entries,
/// in arena order: tip first, root last.
pub open spec fn msgs_prefix(repo: Repo, cur: Seq<char>, tip: int, n: int) -> Seq<Seq<char>>
    decreases n,
{
    if n <= 0 {
        Seq::empty()
    } else {
        msgs_prefix(repo, cur, tip, n - 1) + (if is_unique_commit(repo, cur, tip, n - 1) {
            seq![repo.commits@[n - 1].message@]
        } else {
            Seq::empty()
        })
    }
}

/// A branch that first owns the fork commit and is eligible as a base:
/// not the current branch or its remote counterpart, not remote-tracking,
/// and it reaches the fork commit.
pub open spec fn owner_base(repo: Repo, cur: Seq<char>, f: int, b: int) -> bool {
    &&& 0 <= b < repo.branches@.len()
    &&& !skip_name(cur, repo.branches@[b].name@)
    &&& !is_prefix(repo.branches@[b].name@, "origin/"@)
    &&& reaches(repo, repo.branches@[b].tip as int, f)
}

/// The resolver's output: candidate base branches and the messages of the
/// commits unique to the current branch, tip first.
#[derive(Debug, Clone)]
pub struct BranchInfo {
    /// Candidate base branches: the lexicographically first eligible owner
    /// of the fork commit, or empty when no base was found.
    pub bases: Vec<String>,
    /// Messages of the commits unique to the current branch, tip to root.
    pub commits: Vec<String>,
}

impl BranchInfo {
    /// The commit messages that hold the input, ignoring ASCII case, newest
    /// entries last in the stored order and so offered first here; used for
    /// title autocompletion.
    pub fn get_suggestions(&self, input: &str) -> (r: Vec<String>)
        ensures
            views(r@) == views(self.commits@).reverse().filter(
                |c: Seq<char>| crate::text::ci_contains(c, input@),
            ),
    {
        let ghost pred = |c: Seq<char>| crate::text::ci_contains(c, input@);
        let ghost rev = views(self.commits@).reverse();
        let n = self.commits.len();
        let mut out: Vec<String> = Vec::new();
        let mut i: usize = 0;
        proof {
            assert(views(out@) =~= rev.subrange(0, 0).filter(pred));
        }
        while i < n
            invariant
                i <= n,
                n == self.commits@.len(),
                pred == (|c: Seq<char>| crate::text::ci_contains(c, input@)),
                rev == views(self.commits@).reverse(),
                rev.len() == n,
                views(out@) == rev.subrange(0, i as int).filter(pred),
            decreases n - i,
        {
            let idx = n - 1 - i;
            let take = crate::text::contains_ci(self.commits[idx].as_str(), input);
            proof {
                assert(rev[i as int] == views(self.commits@)[idx as int]);
                assert(views(self.commits@)[idx as int] == self.commits@[idx as int]@);
                crate::text::lemma_filter_push(rev.subrange(0, i as int), rev[i as int], pred);
                assert(rev.subrange(0, i as int).push(rev[i as int]) =~= rev.subrange(0, i + 1));
            }
            if take {
                let t = self.commits[idx].clone();
                proof {
                    crate::text::lemma_views_push(out@, t);
                }
                out.push(t);
            }
            i += 1;
        }
        proof {
            assert(rev.subrange(0, n as int) =~= rev);
        }
        out
    }

    /// The first commit message that holds the input exactly, if any; used
    /// to complete a partially typed title.
    pub fn get_completion(&self, input: &str) -> (r: Option<String>)
        ensures
            match r {
                Some(t) => exists|j: int|
                    {
                        &&& 0 <= j < self.commits@.len()
                        &&& crate::text::contains_seq(#[trigger] self.commits@[j]@, input@)
                        &&& (forall|l: int|
                            0 <= l < j ==> !crate::text::contains_seq(
                                #[trigger] self.commits@[l]@,
                                input@,
                            ))
                        &&& t@ == self.commits@[j]@
                    },
                None => forall|j: int|
                    0 <= j < self.commits@.len() ==> !crate::text::contains_seq(
                        #[trigger] self.commits@[j]@,
                        input@,
                    ),
            },
    {
        let mut idx: usize = 0;
        while idx < self.commits.len()
            invariant
                idx <= self.commits@.len(),
                forall|l: int|
                    0 <= l < idx ==> !crate::text::contains_seq(
                        #[trigger] self.commits@[l]@,
                        input@,
                    ),
            decreases self.commits@.len() - idx,
        {
            if crate::text::contains_sub(self.commits[idx].as_str(), input) {
                return Some(self.commits[idx].clone());
            }
            idx += 1;
        }
        None
    }
}

/// The base choice is deterministic: any two branch names that are both
/// lexicographically least among the eligible owners of the fork commit
/// are the same name, so repeated runs on an unchanged repository always
/// propose the same base.
pub proof fn lemma_base_choice_unique(repo: Repo, cur: Seq<char>, f: int, b1: int, b2: int)
    requires
        owner_base(repo, cur, f, b1),
        owner_base(repo, cur, f, b2),
        forall|b: int|
            owner_base(repo, cur, f, b) ==> lex_le(
                repo.branches@[b1].name@,
                (#[trigger] repo.branches@[b]).name@,
            ),
        forall|b: int|
            owner_base(repo, cur, f, b) ==> lex_le(
                repo.branches@[b2].name@,
                (#[trigger] repo.branches@[b]).name@,
            ),
    ensures
        repo.branches@[b1].name@ == repo.branches@[b2].name@,
{
    assert(lex_le(repo.branches@[b1].name@, repo.branches@[b2].name@));
    assert(lex_le(repo.branches@[b2].name@, repo.branches@[b1].name@));
    lemma_lex_le_antisymm(repo.branches@[b1].name@, repo.branches@[b2].name@);
}

/// Resolve the lineage of the current branch: reject protected branches,
/// then walk the commit graph to find the commits unique to the current
/// branch and the branch it forked from.
///
/// The fork commit is the first commit of the current branch, tip to root
/// in arena order, that another branch reaches; the base candidate is the
/// lexicographically first local branch owning it. An empty candidate list
/// means no base was found, which the caller must surface.
pub fn get_branch_bases_and_commits(repo: &Repo, current: &str) -> (r: Result<BranchInfo, Error>)
    requires
        repo_wf(*repo),
    ensures
        match r {
            Ok(info) => {
                let cur = current@;
                let bi = branch_idx(repo.branches@, cur);
                let tip = repo.branches@[bi].tip as int;
                let n = repo.commits@.len() as int;
                &&& !is_protected(cur)
                &&& bi >= 0
                &&& views(info.commits@) == msgs_prefix(*repo, cur, tip, n)
                &&& (forall|k: int| !is_fork(*repo, cur, tip, k)) ==> info.bases@.len() == 0
                &&& (exists|k: int| is_fork(*repo, cur, tip, k)) ==> (exists|f: int|
                    {
                        &&& is_fork(*repo, cur, tip, f)
                        &&& (forall|g: int| 0 <= g < f ==> !is_fork(*repo, cur, tip, g))
                        &&& ((forall|b: int| !owner_base(*repo, cur, f, b)) ==> info.bases@.len()
                            == 0)
                        &&& ((exists|b: int| owner_base(*repo, cur, f, b)) ==> {
                            &&& info.bases@.len() == 1
                            &&& (exists|b0: int|
                                owner_base(*repo, cur, f, b0) && info.bases@[0]@
                                    == repo.branches@[b0].name@)
                            &&& (forall|b: int|
                                owner_base(*repo, cur, f, b) ==> lex_le(
                                    info.bases@[0]@,
                                    (#[trigger] repo.branches@[b]).name@,
                                ))
                        })
                    })
            },
            Err(e) => match e {
                Error::CannotBeInMainBranch(nm) => is_protected(current@) && nm@ == current@,
                Error::Git(_) => !is_protected(current@) && branch_idx(repo.branches@, current@)
                    < 0,
                _ => false,
            },
        },
{
    let ghost cur = current@;
    let n = repo.commits.len();
    if is_main(current) {
        return Err(Error::CannotBeInMainBranch(current.to_owned()));
    }
    // find the current branch
    let nb = repo.branches.len();
    let mut bi: usize = 0;
    let mut found = false;
    while bi < nb && !found
        invariant
            bi <= nb,
            nb == repo.branches@.len(),
            cur == current@,
            !found ==> forall|m: int| 0 <= m < bi ==> (#[trigger] repo.branches@[m]).name@ != cur,
            found ==> bi < nb && repo.branches@[bi as int].name@ == cur && (forall|m: int|
                0 <= m < bi ==> (#[trigger] repo.branches@[m]).name@ != cur),
        decreases nb - bi, (if found { 0int } else { 1int }),
    {
        if str_eq(repo.branches[bi].name.as_str(), current) {
            found = true;
        } else {
            bi += 1;
        }
    }
    if !found {
        proof {
            lemma_branch_idx_bounds(repo.branches@, cur);
        }
        return Err(Error::Git("current branch not found".to_owned()));
    }
    proof {
        lemma_branch_idx_is(repo.branches@, cur, bi as int);
    }
    let tip = repo.branches[bi].tip;
    let ghost tipg = tip as int;
    // the remote-tracking counterpart's name
    let mut origin_current = String::new();
    origin_current.append("origin/");
    origin_current.append(current);
    proof {
        assert(origin_current@ == "origin/"@ + cur);
    }
    // mark everything reachable from any other branch
    let mut seeds = false_vec(n);
    let mut b: usize = 0;
    while b < nb
        invariant
            b <= nb,
            nb == repo.branches@.len(),
            n == repo.commits@.len(),
            cur == current@,
            origin_current@ == "origin/"@ + cur,
            repo_wf(*repo),
            seeds@.len() == n,
            forall|k: int|
                0 <= k < n ==> (seeds@[k] <==> exists|c: int|
                    0 <= c < b && !skip_name(cur, (#[trigger] repo.branches@[c]).name@)
                        && repo.branches@[c].tip == k),
        decreases nb - b,
    {
        let ghost seeds0 = seeds@;
        let name = repo.branches[b].name.as_str();
        if !str_eq(name, current) && !str_eq(name, origin_current.as_str()) {
            let t = repo.branches[b].tip;
            seeds[t] = true;
            proof {
                assert forall|k: int|
                    0 <= k < n implies (seeds@[k] <==> exists|c: int|
                        0 <= c < b + 1 && !skip_name(cur, (#[trigger] repo.branches@[c]).name@)
                            && repo.branches@[c].tip == k) by {
                    if seeds@[k] {
                        if k == t {
                            assert(!skip_name(cur, repo.branches@[b as int].name@)
                                && repo.branches@[b as int].tip == k);
                        } else {
                            assert(seeds0[k]);
                        }
                    }
                    if exists|c: int|
                        0 <= c < b + 1 && !skip_name(cur, (#[trigger] repo.branches@[c]).name@)
                            && repo.branches@[c].tip == k {
                        let c = choose|c: int|
                            0 <= c < b + 1 && !skip_name(
                                cur,
                                (#[trigger] repo.branches@[c]).name@,
                            ) && repo.branches@[c].tip == k;
                        if c < b {
                            assert(seeds0[k]);
                            assert(seeds@[k]);
                        } else {
                            assert(k == t);
                        }
                    }
                }
            }
        } else {
            proof {
                assert(skip_name(cur, repo.branches@[b as int].name@));
                assert forall|k: int|
                    0 <= k < n implies (seeds@[k] <==> exists|c: int|
                        0 <= c < b + 1 && !skip_name(cur, (#[trigger] repo.branches@[c]).name@)
                            && repo.branches@[c].tip == k) by {
                    if exists|c: int|
                        0 <= c < b + 1 && !skip_name(cur, (#[trigger] repo.branches@[c]).name@)
                            && repo.branches@[c].tip == k {
                        let c = choose|c: int|
                            0 <= c < b + 1 && !skip_name(
                                cur,
                                (#[trigger] repo.branches@[c]).name@,
                            ) && repo.branches@[c].tip == k;
                        assert(c < b);
                    }
                }
            }
        }
        b += 1;
    }
    let other = mark_reachable(repo, &seeds);
    proof {
        assert forall|k: int| 0 <= k < n implies (other@[k] <==> other_reaches(*repo, cur, k)) by {
            if other@[k] {
                let s = choose|s: int| 0 <= s < n && seeds@[s] && reaches(*repo, s, k);
                let c = choose|c: int|
                    0 <= c < nb && !skip_name(cur, (#[trigger] repo.branches@[c]).name@)
                        && repo.branches@[c].tip == s;
                assert(reaches(*repo, repo.branches@[c].tip as int, k));
            }
            if other_reaches(*repo, cur, k) {
                let c = choose|c: int|
                    0 <= c < nb && !skip_name(cur, (#[trigger] repo.branches@[c]).name@)
                        && reaches(*repo, (#[trigger] repo.branches@[c]).tip as int, k);
                let s = repo.branches@[c].tip as int;
                assert(seeds@[s] && reaches(*repo, s, k));
                assert(0 <= s < n && seeds@[s] && reaches(*repo, s, k));
            }
        }
    }
    let curv = reach_set(repo, tip);
    // collect the unique commits, tip to root
    let mut commits: Vec<String> = Vec::new();
    let mut k: usize = 0;
    proof {
        assert(views(commits@) =~= msgs_prefix(*repo, cur, tipg, 0));
    }
    while k < n
        invariant
            k <= n,
            n == repo.commits@.len(),
            cur == current@,
            tipg < n,
            repo_wf(*repo),
            curv@.len() == n,
            other@.len() == n,
            forall|m: int| 0 <= m < n ==> (curv@[m] <==> reaches(*repo, tipg, m)),
            forall|m: int| 0 <= m < n ==> (other@[m] <==> other_reaches(*repo, cur, m)),
            views(commits@) == msgs_prefix(*repo, cur, tipg, k as int),
        decreases n - k,
    {
        let ghost commits0 = commits@;
        if curv[k] && !other[k] {
            let msg = repo.commits[k].message.clone();
            proof {
                crate::text::lemma_views_push(commits@, msg);
            }
            commits.push(msg);
            proof {
                assert(is_unique_commit(*repo, cur, tipg, k as int));
                assert(views(commits@) =~= msgs_prefix(*repo, cur, tipg, k as int) + seq![
                    repo.commits@[k as int].message@,
                ]);
            }
        } else {
            proof {
                assert(!is_unique_commit(*repo, cur, tipg, k as int));
                assert(views(commits@) =~= msgs_prefix(*repo, cur, tipg, k as int)
                    + Seq::<Seq<char>>::empty());
            }
        }
        k += 1;
    }
    // find the fork commit: the first commit, in arena order, that the
    // current branch and some other branch both reach
    let mut fork: Option<usize> = None;
    let mut k2: usize = 0;
    while k2 < n && fork.is_none()
        invariant
            k2 <= n,
            n == repo.commits@.len(),
            cur == current@,
            tipg < n,
            repo_wf(*repo),
            curv@.len() == n,
            other@.len() == n,
            forall|m: int| 0 <= m < n ==> (curv@[m] <==> reaches(*repo, tipg, m)),
            forall|m: int| 0 <= m < n ==> (other@[m] <==> other_reaches(*repo, cur, m)),
            fork is None ==> forall|g: int| 0 <= g < k2 ==> !is_fork(*repo, cur, tipg, g),
            fork matches Some(f) ==> k2 < n && f == k2 && is_fork(*repo, cur, tipg, f as int) && (
            forall|g: int| 0 <= g < f ==> !is_fork(*repo, cur, tipg, g)),
        decreases n - k2, (if fork is None { 1int } else { 0int }),
    {
        if curv[k2] && other[k2] {
            fork = Some(k2);
        } else {
            k2 += 1;
        }
    }
    match fork {
        None => {
            proof {
                assert forall|g: int| !is_fork(*repo, cur, tipg, g) by {
                    if is_fork(*repo, cur, tipg, g) {
                        lemma_reaches_bounds(*repo, tipg, g);
                    }
                }
            }
            Ok(BranchInfo { bases: Vec::new(), commits })
        },
        Some(f) => {
            // the lexicographically first eligible owner of the fork commit
            let mut best: Option<String> = None;
            let mut b2: usize = 0;
            while b2 < nb
                invariant
                    b2 <= nb,
                    nb == repo.branches@.len(),
                    n == repo.commits@.len(),
                    cur == current@,
                    origin_current@ == "origin/"@ + cur,
                    repo_wf(*repo),
                    f < n,
                    match best {
                        None => forall|c: int| 0 <= c < b2 ==> !owner_base(*repo, cur, f as int, c),
                        Some(m) => {
                            &&& (exists|b0: int|
                                owner_base(*repo, cur, f as int, b0) && m@
                                    == repo.branches@[b0].name@)
                            &&& (forall|c: int|
                                0 <= c < b2 && owner_base(*repo, cur, f as int, c) ==> lex_le(
                                    m@,
                                    (#[trigger] repo.branches@[c]).name@,
                                ))
                        },
                    },
                decreases nb - b2,
            {
                let name = repo.branches[b2].name.as_str();
                let eligible = !str_eq(name, current) && !str_eq(name, origin_current.as_str())
                    && !starts_with(name, "origin/");
                if eligible {
                    let rv = reach_set(repo, repo.branches[b2].tip);
                    if rv[f] {
                        proof {
                            assert(owner_base(*repo, cur, f as int, b2 as int));
                        }
                        match &best {
                            None => {
                                proof {
                                    lemma_lex_le_total(
                                        repo.branches@[b2 as int].name@,
                                        repo.branches@[b2 as int].name@,
                                    );
                                }
                                best = Some(repo.branches[b2].name.clone());
                            },
                            Some(m) => {
                                if str_le(repo.branches[b2].name.as_str(), m.as_str()) {
                                    proof {
                                        let ghost mold = m@;
                                        assert forall|c: int|
                                            0 <= c < b2 + 1 && owner_base(*repo, cur, f as int, c)
                                            implies lex_le(
                                            repo.branches@[b2 as int].name@,
                                            (#[trigger] repo.branches@[c]).name@,
                                        ) by {
                                            if c < b2 {
                                                lemma_lex_le_trans(
                                                    repo.branches@[b2 as int].name@,
                                                    mold,
                                                    repo.branches@[c].name@,
                                                );
                                            } else {
                                                lemma_lex_le_total(
                                                    repo.branches@[b2 as int].name@,
                                                    repo.branches@[b2 as int].name@,
                                                );
                                            }
                                        }
                                    }
                                    best = Some(repo.branches[b2].name.clone());
                                } else {
                                    proof {
                                        lemma_lex_le_total(
                                            repo.branches@[b2 as int].name@,
                                            m@,
                                        );
                                    }
                                }
                            },
                        }
                    } else {
                        proof {
                            assert(!reaches(*repo, repo.branches@[b2 as int].tip as int, f as int));
                        }
                    }
                } else {
                    proof {
                        if !skip_name(cur, repo.branches@[b2 as int].name@) {
                            assert(is_prefix(repo.branches@[b2 as int].name@, "origin/"@));
                        }
                    }
                }
                b2 += 1;
            }
            let mut bases: Vec<String> = Vec::new();
            match best {
                None => {
                    proof {
                        assert forall|c: int| !owner_base(*repo, cur, f as int, c) by {}
                    }
                },
                Some(m) => {
                    bases.push(m);
                },
            }
            Ok(BranchInfo { bases, commits })
        },
    }
}

} // verus!
