//! The decisions of one invocation, freed of their surrounding prompts and
//! service calls: building a draft from the resolved branch, choosing the
//! base, matching sibling PRs by tag, validating gathered field input, and
//! planning the per-PR body rewrites.

use vstd::prelude::*;

use crate::config::{Config, FormField};
use crate::error::Error;
use crate::github;
use crate::pr::PullRequest;
use crate::tags::{extract_from_str, first_tag, has_tag, is_blank, trim_spec};
use crate::template::{replace_related_prs, replace_related_spec};
use crate::text::{contains_seq, contains_sub, lemma_filter_push, lemma_views_push, str_eq, views};

verus! {

/// A matched sibling: its title holds the tag and its extracted tag equals
/// the tag exactly.
pub open spec fn matches_tag(pr: github::PullRequest, tag: Seq<char>) -> bool {
    contains_seq(pr.title@, tag) && has_tag(pr.title@) && first_tag(pr.title@) == tag
}

/// A malformed sibling: its title holds the tag but no tag can be
/// extracted from it; reported, never cross-linked.
pub open spec fn malformed_title(pr: github::PullRequest, tag: Seq<char>) -> bool {
    contains_seq(pr.title@, tag) && !has_tag(pr.title@)
}

/// Keep the PRs whose title carries exactly the given tag; titles that
/// hold the tag substring but no extractable tag come back separately as
/// warnings.
pub fn filter_related_prs(prs: Vec<github::PullRequest>, tag: &str) -> (r: (
    Vec<github::PullRequest>,
    Vec<String>,
))
    ensures
        r.0@ == prs@.filter(|pr: github::PullRequest| matches_tag(pr, tag@)),
        views(r.1@) == prs@.filter(|pr: github::PullRequest| malformed_title(pr, tag@)).map_values(
            |pr: github::PullRequest| pr.title@,
        ),
{
    let ghost orig = prs@;
    let ghost p1 = |pr: github::PullRequest| matches_tag(pr, tag@);
    let ghost p2 = |pr: github::PullRequest| malformed_title(pr, tag@);
    let mut rest = prs;
    let mut matched: Vec<github::PullRequest> = Vec::new();
    let mut warned: Vec<String> = Vec::new();
    let mut done: usize = 0;
    let total = rest.len();
    proof {
        assert(rest@ =~= orig.subrange(0, orig.len() as int));
        assert(matched@ =~= orig.subrange(0, 0).filter(p1));
        assert(views(warned@) =~= orig.subrange(0, 0).filter(p2).map_values(
            |pr: github::PullRequest| pr.title@,
        ));
    }
    while rest.len() > 0
        invariant
            done <= orig.len(),
            orig.len() == total,
            rest@ == orig.subrange(done as int, orig.len() as int),
            p1 == (|pr: github::PullRequest| matches_tag(pr, tag@)),
            p2 == (|pr: github::PullRequest| malformed_title(pr, tag@)),
            matched@ == orig.subrange(0, done as int).filter(p1),
            views(warned@) == orig.subrange(0, done as int).filter(p2).map_values(
                |pr: github::PullRequest| pr.title@,
            ),
        decreases rest@.len(),
    {
        let ghost matched0 = matched@;
        let ghost warned0 = views(warned@);
        let pr = rest.remove(0);
        proof {
            assert(pr == orig[done as int]);
            assert(rest@ =~= orig.subrange(done + 1, orig.len() as int));
            lemma_filter_push(orig.subrange(0, done as int), orig[done as int], p1);
            lemma_filter_push(orig.subrange(0, done as int), orig[done as int], p2);
            assert(orig.subrange(0, done as int).push(orig[done as int]) =~= orig.subrange(
                0,
                done + 1,
            ));
        }
        let keep = contains_sub(pr.title.as_str(), tag);
        if keep {
            match extract_from_str(pr.title.as_str()) {
                Some(t) => {
                    if str_eq(t.as_str(), tag) {
                        proof {
                            assert(p1(pr));
                        }
                        matched.push(pr);
                    } else {
                        proof {
                            assert(!p1(pr) && !p2(pr));
                        }
                    }
                },
                None => {
                    let title = pr.title.clone();
                    proof {
                        assert(p2(pr) && !p1(pr));
                        lemma_views_push(warned@, title);
                    }
                    warned.push(title);
                    proof {
                        assert(views(warned@) =~= warned0.push(pr.title@));
                        assert(orig.subrange(0, done + 1).filter(p2).map_values(
                            |x: github::PullRequest| x.title@,
                        ) =~= warned0.push(pr.title@));
                    }
                },
            }
        } else {
            proof {
                assert(!p1(pr) && !p2(pr));
            }
        }
        proof {
            if !p2(pr) {
                assert(orig.subrange(0, done + 1).filter(p2).map_values(
                    |x: github::PullRequest| x.title@,
                ) =~= views(warned@));
            }
        }
        done += 1;
    }
    proof {
        assert(orig.subrange(0, orig.len() as int) =~= orig);
        assert(done == orig.len());
    }
    (matched, warned)
}

/// Decide the base branch from the resolver's candidates: none found is a
/// reported condition, a single candidate is taken, several leave the
/// choice to the caller.
pub fn select_base_branch(bases: &Vec<String>) -> (r: Result<Option<String>, Error>)
    ensures
        match r {
            Ok(o) => match o {
                Some(b) => bases@.len() == 1 && b@ == bases@[0]@,
                None => bases@.len() > 1,
            },
            Err(e) => bases@.len() == 0 && (e matches Error::NoBaseFound),
        },
{
    if bases.len() == 0 {
        Err(Error::NoBaseFound)
    } else if bases.len() == 1 {
        Ok(Some(bases[0].clone()))
    } else {
        Ok(None)
    }
}

/// The draft built when a tag was found in a commit message: that message
/// becomes the title, the tag is kept, and the PR counts as tracked.
pub fn pr_from_found_tag(tag: &str, commit: &str) -> (r: PullRequest)
    ensures
        r.title@ == commit@,
        r.tag@ == tag@,
        r.is_jira == true,
        r.fields@.len() == 0,
        r.reviewers@.len() == 0,
        r.base@.len() == 0,
{
    PullRequest::new().with_tag(tag).with_title(commit).with_jira(true)
}

/// The draft built from prompted input: the title is prefixed with the
/// bracketed tag, and the PR does not count as tracked.
pub fn pr_from_prompt(tag: &str, title: &str) -> (r: PullRequest)
    ensures
        r.title@ == "["@ + tag@ + "]: "@ + title@,
        r.tag@ == tag@,
        r.is_jira == false,
        r.fields@.len() == 0,
        r.reviewers@.len() == 0,
        r.base@.len() == 0,
{
    let mut full = String::new();
    full.append("[");
    full.append(tag);
    full.append("]: ");
    full.append(title);
    let r = PullRequest::new().with_tag(tag).with_jira(false).with_title(full.as_str());
    r
}

/// Check one gathered field value: blank input is an error for a required
/// field and an omission for an optional one; anything else is kept as
/// typed.
pub fn validate_field_input(field: &FormField, input: &str) -> (r: Result<Option<String>, Error>)
    ensures
        match r {
            Ok(o) => match o {
                Some(v) => trim_spec(input@).len() > 0 && v@ == input@,
                None => trim_spec(input@).len() == 0 && !field.required,
            },
            Err(e) => trim_spec(input@).len() == 0 && field.required && (e matches Error::Prompt(m)
                && m@ == "Field '"@ + field.name@ + "' is required but was left empty"@),
        },
{
    if is_blank(input) {
        if field.required {
            let mut msg = String::new();
            msg.append("Field '");
            msg.append(field.name.as_str());
            msg.append("' is required but was left empty");
            Err(Error::Prompt(msg))
        } else {
            Ok(None)
        }
    } else {
        Ok(Some(input.to_owned()))
    }
}

/// Plan the cross-reference updates of all sibling PRs: for each, the PR
/// number, its repository resource path, and the body with its related-PR
/// block rewritten from the full sibling list. Executing the updates, each
/// in isolation, is the caller's task.
pub fn plan_related_updates(config: &Config, related: &Vec<github::PullRequest>) -> (r: Vec<
    (u32, String, String),
>)
    ensures
        r@.len() == related@.len(),
        forall|j: int|
            0 <= j < r@.len() ==> {
                &&& (#[trigger] r@[j]).0 == related@[j].number
                &&& r@[j].1@ == related@[j].resource_path@
                &&& r@[j].2@ == replace_related_spec(
                    related@[j].body@,
                    config.template.markers.related_pr_start@,
                    config.template.markers.related_pr_end@,
                    related@,
                    related@[j].number,
                )
            },
{
    let mut out: Vec<(u32, String, String)> = Vec::new();
    let mut j: usize = 0;
    while j < related.len()
        invariant
            j <= related@.len(),
            out@.len() == j,
            forall|l: int|
                0 <= l < j ==> {
                    &&& (#[trigger] out@[l]).0 == related@[l].number
                    &&& out@[l].1@ == related@[l].resource_path@
                    &&& out@[l].2@ == replace_related_spec(
                        related@[l].body@,
                        config.template.markers.related_pr_start@,
                        config.template.markers.related_pr_end@,
                        related@,
                        related@[l].number,
                    )
                },
        decreases related@.len() - j,
    {
        let number = related[j].number;
        let path = related[j].resource_path.clone();
        let body = replace_related_prs(config, related[j].body.as_str(), &number, related);
        out.push((number, path, body));
        j += 1;
    }
    out
}

} // verus!
