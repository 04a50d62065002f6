//! The in-memory draft of a pull request being created, built up through a
//! chain of `with_` calls.

use vstd::prelude::*;

use crate::text::str_eq;


verus! {

/// The value stored under a field name, if any: the first pair whose key
/// matches decides.
pub open spec fn lookup_opt(pairs: Seq<(String, String)>, name: Seq<char>) -> Option<Seq<char>>
    decreases pairs.len(),
{
    if pairs.len() == 0 {
        None
    } else if pairs[0].0@ == name {
        Some(pairs[0].1@)
    } else {
        lookup_opt(pairs.drop_first(), name)
    }
}

/// The value stored under a field name, or empty text when absent.
pub open spec fn lookup(pairs: Seq<(String, String)>, name: Seq<char>) -> Seq<char> {
    match lookup_opt(pairs, name) {
        Some(v) => v,
        None => Seq::empty(),
    }
}

/// A pull-request draft: title, tag, tracking flag, gathered form fields,
/// approvers and base branch. It exists only for one invocation and is
/// never persisted.
#[derive(Debug, Clone)]
pub struct PullRequest {
    /// The title (e.g. `[TRACK-123]: Add new feature`).
    pub title: String,
    /// The tag (e.g. `TRACK-123`).
    pub tag: String,
    /// Whether the tag was found in a commit and so is tracked.
    pub is_jira: bool,
    /// Gathered form fields, as name/value pairs with distinct names.
    pub fields: Vec<(String, String)>,
    /// Logins whose approval is requested.
    pub reviewers: Vec<String>,
    /// The base branch to merge into.
    pub base: String,
}

impl Default for PullRequest {
    /// An empty draft.
    fn default() -> (r: Self)
        ensures
            r.title@.len() == 0,
            r.tag@.len() == 0,
            r.is_jira == false,
            r.fields@.len() == 0,
            r.reviewers@.len() == 0,
            r.base@.len() == 0,
    {
        PullRequest {
            title: String::new(),
            tag: String::new(),
            is_jira: false,
            fields: Vec::new(),
            reviewers: Vec::new(),
            base: String::new(),
        }
    }
}

impl PullRequest {
    /// An empty draft.
    pub fn new() -> (r: Self)
        ensures
            r.title@.len() == 0,
            r.tag@.len() == 0,
            r.is_jira == false,
            r.fields@.len() == 0,
            r.reviewers@.len() == 0,
            r.base@.len() == 0,
    {
        Self::default()
    }

    /// The draft with its title set.
    pub fn with_title(self, title: &str) -> (r: Self)
        ensures
            r.title@ == title@,
            r.tag == self.tag,
            r.is_jira == self.is_jira,
            r.fields == self.fields,
            r.reviewers == self.reviewers,
            r.base == self.base,
    {
        let mut s = self;
        s.title = title.to_owned();
        s
    }

    /// The draft with its tag set.
    pub fn with_tag(self, tag: &str) -> (r: Self)
        ensures
            r.tag@ == tag@,
            r.title == self.title,
            r.is_jira == self.is_jira,
            r.fields == self.fields,
            r.reviewers == self.reviewers,
            r.base == self.base,
    {
        let mut s = self;
        s.tag = tag.to_owned();
        s
    }

    /// The draft with its tracking flag set.
    pub fn with_jira(self, is_jira: bool) -> (r: Self)
        ensures
            r.is_jira == is_jira,
            r.title == self.title,
            r.tag == self.tag,
            r.fields == self.fields,
            r.reviewers == self.reviewers,
            r.base == self.base,
    {
        let mut s = self;
        s.is_jira = is_jira;
        s
    }

    /// The draft with one form field set: an existing pair under the same
    /// name is overwritten in place, otherwise the pair is appended.
    pub fn with_field(self, name: &str, value: &str) -> (r: Self)
        ensures
            r.title == self.title,
            r.tag == self.tag,
            r.is_jira == self.is_jira,
            r.reviewers == self.reviewers,
            r.base == self.base,
            forall|k: Seq<char>|
                #[trigger] lookup_opt(r.fields@, k) == if k == name@ {
                    Some(value@)
                } else {
                    lookup_opt(self.fields@, k)
                },
    {
        let mut s = self;
        let mut idx: usize = 0;
        while idx < s.fields.len()
            invariant
                idx <= s.fields@.len(),
                s == self,
                forall|j: int| 0 <= j < idx ==> (#[trigger] s.fields@[j]).0@ != name@,
            decreases s.fields@.len() - idx,
        {
            if str_eq(s.fields[idx].0.as_str(), name) {
                let ghost fields0 = s.fields@;
                s.fields.remove(idx);
                s.fields.insert(idx, (name.to_owned(), value.to_owned()));
                proof {
                    lemma_lookup_update(fields0, s.fields@, idx as int, name@, value@);
                }
                return s;
            }
            idx += 1;
        }
        let ghost fields0 = s.fields@;
        s.fields.push((name.to_owned(), value.to_owned()));
        proof {
            lemma_lookup_append(fields0, s.fields@, name@, value@);
        }
        s
    }

    /// The draft with all form fields replaced by the given pairs.
    pub fn with_fields(self, fields: Vec<(String, String)>) -> (r: Self)
        ensures
            r.fields == fields,
            r.title == self.title,
            r.tag == self.tag,
            r.is_jira == self.is_jira,
            r.reviewers == self.reviewers,
            r.base == self.base,
    {
        let mut s = self;
        s.fields = fields;
        s
    }

    /// The draft with its requested approvers set.
    pub fn with_reviewers(self, reviewers: Vec<String>) -> (r: Self)
        ensures
            r.reviewers == reviewers,
            r.title == self.title,
            r.tag == self.tag,
            r.is_jira == self.is_jira,
            r.fields == self.fields,
            r.base == self.base,
    {
        let mut s = self;
        s.reviewers = reviewers;
        s
    }

    /// The draft with its base branch set.
    pub fn with_base(self, base: &str) -> (r: Self)
        ensures
            r.base@ == base@,
            r.title == self.title,
            r.tag == self.tag,
            r.is_jira == self.is_jira,
            r.fields == self.fields,
            r.reviewers == self.reviewers,
    {
        let mut s = self;
        s.base = base.to_owned();
        s
    }

    /// The value gathered under a field name, if any.
    pub fn get_field(&self, name: &str) -> (r: Option<&str>)
        ensures
            match r {
                Some(v) => lookup_opt(self.fields@, name@) matches Some(x) && x == v@,
                None => lookup_opt(self.fields@, name@) is None,
            },
    {
        lookup_value(&self.fields, name)
    }
}

/// The value stored under a field name among the given pairs, if any: the
/// first pair whose key matches decides.
pub fn lookup_value<'a>(pairs: &'a Vec<(String, String)>, name: &str) -> (r: Option<&'a str>)
    ensures
        match r {
            Some(v) => lookup_opt(pairs@, name@) matches Some(x) && x == v@,
            None => lookup_opt(pairs@, name@) is None,
        },
{
    let mut idx: usize = 0;
    while idx < pairs.len()
        invariant
            idx <= pairs@.len(),
            forall|j: int| 0 <= j < idx ==> (#[trigger] pairs@[j]).0@ != name@,
        decreases pairs@.len() - idx,
    {
        if str_eq(pairs[idx].0.as_str(), name) {
            proof {
                lemma_lookup_first(pairs@, idx as int, name@);
            }
            return Some(pairs[idx].1.as_str());
        }
        idx += 1;
    }
    proof {
        lemma_lookup_miss(pairs@, name@);
    }
    None
}

/// `lookup_opt` finds the first pair whose key matches.
proof fn lemma_lookup_first(pairs: Seq<(String, String)>, j: int, name: Seq<char>)
    requires
        0 <= j < pairs.len(),
        pairs[j].0@ == name,
        forall|l: int| 0 <= l < j ==> (#[trigger] pairs[l]).0@ != name,
    ensures
        lookup_opt(pairs, name) == Some(pairs[j].1@),
    decreases j,
{
    if j > 0 {
        lemma_lookup_first(pairs.drop_first(), j - 1, name);
    }
}

/// `lookup_opt` misses when no pair's key matches.
proof fn lemma_lookup_miss(pairs: Seq<(String, String)>, name: Seq<char>)
    requires
        forall|l: int| 0 <= l < pairs.len() ==> (#[trigger] pairs[l]).0@ != name,
    ensures
        lookup_opt(pairs, name) is None,
    decreases pairs.len(),
{
    if pairs.len() > 0 {
        lemma_lookup_miss(pairs.drop_first(), name);
    }
}

/// Overwriting the value of the first matching pair changes exactly that
/// name's lookup.
proof fn lemma_lookup_update(
    before: Seq<(String, String)>,
    after: Seq<(String, String)>,
    j: int,
    name: Seq<char>,
    value: Seq<char>,
)
    requires
        0 <= j < before.len(),
        after.len() == before.len(),
        before[j].0@ == name,
        forall|l: int| 0 <= l < j ==> (#[trigger] before[l]).0@ != name,
        after[j].0@ == name,
        after[j].1@ == value,
        forall|l: int| 0 <= l < before.len() && l != j ==> after[l] == before[l],
    ensures
        forall|k: Seq<char>|
            #[trigger] lookup_opt(after, k) == if k == name {
                Some(value)
            } else {
                lookup_opt(before, k)
            },
    decreases j,
{
    assert forall|k: Seq<char>| #[trigger] lookup_opt(after, k) == (if k == name {
        Some(value)
    } else {
        lookup_opt(before, k)
    }) by {
        lemma_lookup_pointwise(before, after, j, name, value, k);
    }
}

/// Pointwise form of [`lemma_lookup_update`].
proof fn lemma_lookup_pointwise(
    before: Seq<(String, String)>,
    after: Seq<(String, String)>,
    j: int,
    name: Seq<char>,
    value: Seq<char>,
    k: Seq<char>,
)
    requires
        0 <= j < before.len(),
        after.len() == before.len(),
        before[j].0@ == name,
        forall|l: int| 0 <= l < j ==> (#[trigger] before[l]).0@ != name,
        after[j].0@ == name,
        after[j].1@ == value,
        forall|l: int| 0 <= l < before.len() && l != j ==> after[l] == before[l],
    ensures
        lookup_opt(after, k) == if k == name {
            Some(value)
        } else {
            lookup_opt(before, k)
        },
    decreases j,
{
    if j == 0 {
        if k != name && before.len() > 1 {
            assert(after.drop_first() =~= before.drop_first());
        } else if k != name {
            assert(after.drop_first() =~= before.drop_first());
        }
    } else {
        assert(after[0] == before[0]);
        if k == before[0].0@ {
        } else {
            lemma_lookup_pointwise(
                before.drop_first(),
                after.drop_first(),
                j - 1,
                name,
                value,
                k,
            );
        }
    }
}

/// Appending a pair under a fresh name changes exactly that name's lookup.
proof fn lemma_lookup_append(
    before: Seq<(String, String)>,
    after: Seq<(String, String)>,
    name: Seq<char>,
    value: Seq<char>,
)
    requires
        after.len() == before.len() + 1,
        forall|l: int| 0 <= l < before.len() ==> (#[trigger] before[l]).0@ != name,
        forall|l: int| 0 <= l < before.len() ==> after[l] == before[l],
        after[before.len() as int].0@ == name,
        after[before.len() as int].1@ == value,
    ensures
        forall|k: Seq<char>|
            #[trigger] lookup_opt(after, k) == if k == name {
                Some(value)
            } else {
                lookup_opt(before, k)
            },
    decreases before.len(),
{
    assert forall|k: Seq<char>| #[trigger] lookup_opt(after, k) == (if k == name {
        Some(value)
    } else {
        lookup_opt(before, k)
    }) by {
        lemma_lookup_append_pointwise(before, after, name, value, k);
    }
}

/// Pointwise form of [`lemma_lookup_append`].
proof fn lemma_lookup_append_pointwise(
    before: Seq<(String, String)>,
    after: Seq<(String, String)>,
    name: Seq<char>,
    value: Seq<char>,
    k: Seq<char>,
)
    requires
        after.len() == before.len() + 1,
        forall|l: int| 0 <= l < before.len() ==> (#[trigger] before[l]).0@ != name,
        forall|l: int| 0 <= l < before.len() ==> after[l] == before[l],
        after[before.len() as int].0@ == name,
        after[before.len() as int].1@ == value,
    ensures
        lookup_opt(after, k) == if k == name {
            Some(value)
        } else {
            lookup_opt(before, k)
        },
    decreases before.len(),
{
    if before.len() == 0 {
        if k != name {
            assert(after.drop_first() =~= before);
            assert(lookup_opt(after.drop_first(), k) is None);
        }
    } else {
        assert(after[0] == before[0]);
        if k == before[0].0@ {
        } else {
            assert forall|l: int|
                0 <= l < before.drop_first().len() implies after.drop_first()[l]
                == before.drop_first()[l] by {
                assert(after[l + 1] == before[l + 1]);
            }
            assert(after.drop_first()[before.len() - 1] == after[before.len() as int]);
            lemma_lookup_append_pointwise(
                before.drop_first(),
                after.drop_first(),
                name,
                value,
                k,
            );
        }
    }
}

} // verus!
