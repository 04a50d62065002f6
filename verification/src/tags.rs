//! Tag extraction and the bounded most-recently-used tag history.
//!
//! A tag is a short classification token such as `TRACK-123`. In source text
//! it is always wrapped in square brackets: the body between the brackets is
//! made of word characters and hyphens, where every hyphen must directly
//! follow a word character. Extraction returns the body of the leftmost such
//! delimited tag, brackets stripped.

use vstd::prelude::*;

use crate::text::{
    find_nl, first_nl, is_prefix, lemma_filter_push, lemma_first_nl_bounds, lemma_first_nl_is,
    lemma_views_push, starts_with, str_eq, views,
};

verus! {

/// A word character of the tag grammar: ASCII letter, digit or underscore.
pub open spec fn is_word_char(c: char) -> bool {
    ('a' <= c && c <= 'z') || ('A' <= c && c <= 'Z') || ('0' <= c && c <= '9') || c == '_'
}

/// A tag-body character: word character or hyphen.
pub open spec fn is_body_char(c: char) -> bool {
    is_word_char(c) || c == '-'
}

/// The delimited-tag body grammar: only body characters, and every hyphen
/// directly preceded by a word character.
pub open spec fn valid_body(s: Seq<char>) -> bool {
    forall|p: int|
        0 <= p < s.len() ==> is_body_char(#[trigger] s[p]) && (s[p] == '-' ==> p > 0
            && is_word_char(s[p - 1]))
}

/// A delimited tag spans positions `i..=k` of `s`: `[` at `i`, `]` at `k`,
/// and a valid body in between.
pub open spec fn tag_at(s: Seq<char>, i: int, k: int) -> bool {
    &&& 0 <= i < k < s.len()
    &&& s[i] == '['
    &&& s[k] == ']'
    &&& valid_body(s.subrange(i + 1, k))
}

/// A delimited tag starts at position `i` of `s`.
pub open spec fn tag_starts_at(s: Seq<char>, i: int) -> bool {
    exists|k: int| tag_at(s, i, k)
}

/// The text holds a delimited tag somewhere.
pub open spec fn has_tag(s: Seq<char>) -> bool {
    exists|i: int| tag_starts_at(s, i)
}

/// The body of the leftmost delimited tag of `s`.
pub open spec fn first_tag(s: Seq<char>) -> Seq<char>
    recommends
        has_tag(s),
{
    let i = choose|i: int|
        tag_starts_at(s, i) && (forall|j: int| 0 <= j < i ==> !tag_starts_at(s, j));
    let k = choose|k: int| tag_at(s, i, k);
    s.subrange(i + 1, k)
}

/// The closing bracket of a tag at a given start is unique.
proof fn lemma_tag_end_unique(s: Seq<char>, i: int, k1: int, k2: int)
    requires
        tag_at(s, i, k1),
        tag_at(s, i, k2),
    ensures
        k1 == k2,
{
    if k1 < k2 {
        assert(is_body_char(s.subrange(i + 1, k2)[k1 - i - 1]));
    }
    if k2 < k1 {
        assert(is_body_char(s.subrange(i + 1, k1)[k2 - i - 1]));
    }
}

/// A tag start whose every earlier position is no tag start pins `first_tag`.
proof fn lemma_first_tag(s: Seq<char>, i: int, k: int)
    requires
        tag_at(s, i, k),
        forall|j: int| 0 <= j < i ==> !tag_starts_at(s, j),
    ensures
        has_tag(s),
        first_tag(s) == s.subrange(i + 1, k),
{
    assert(tag_starts_at(s, i));
    let i0 = choose|i0: int|
        tag_starts_at(s, i0) && (forall|j: int| 0 <= j < i0 ==> !tag_starts_at(s, j));
    assert(tag_starts_at(s, i) && (forall|j: int| 0 <= j < i ==> !tag_starts_at(s, j)));
    assert(i0 == i);
    let k0 = choose|k0: int| tag_at(s, i0, k0);
    lemma_tag_end_unique(s, i, k0, k);
}

/// No tag starts strictly inside a run of body characters.
proof fn lemma_body_no_start(s: Seq<char>, i: int, k: int)
    requires
        forall|p: int| i < p < k ==> is_body_char(#[trigger] s[p]),
    ensures
        forall|j: int| i < j < k ==> !tag_starts_at(s, j),
{
    assert forall|j: int| i < j < k implies !tag_starts_at(s, j) by {
        if tag_starts_at(s, j) {
            let ke = choose|ke: int| tag_at(s, j, ke);
            assert(tag_at(s, j, ke));
            assert(is_body_char(s[j]));
        }
    }
}

/// An opening bracket followed by body characters up to a position where the
/// scan is blocked starts no tag.
proof fn lemma_open_no_end(s: Seq<char>, i: int, k: int)
    requires
        0 <= i < s.len(),
        s[i] == '[',
        i + 1 <= k <= s.len(),
        forall|p: int| i < p < k ==> is_body_char(#[trigger] s[p]),
        k < s.len() ==> s[k] != ']',
        k < s.len() ==> (is_body_char(s[k]) ==> (s[k] == '-' && !(k > i + 1 && is_word_char(
            s[k - 1],
        )))),
    ensures
        !tag_starts_at(s, i),
{
    if tag_starts_at(s, i) {
        let ke = choose|ke: int| tag_at(s, i, ke);
        assert(tag_at(s, i, ke));
        if ke < k {
            assert(is_body_char(s[ke]));
        } else if ke == k {
            assert(s[k] == ']');
        } else {
            let body = s.subrange(i + 1, ke);
            assert(body[k - i - 1] == s[k]);
            assert(is_body_char(s[k]));
            assert(body[k - i - 1] == '-');
            assert(k - i - 1 > 0 && is_word_char(body[k - i - 2]));
            assert(body[k - i - 2] == s[k - 1]);
        }
    }
}

/// Exec mirror of [`is_word_char`].
fn word_char(c: char) -> (r: bool)
    ensures
        r == is_word_char(c),
{
    ('a' <= c && c <= 'z') || ('A' <= c && c <= 'Z') || ('0' <= c && c <= '9') || c == '_'
}

/// Scan the body of a candidate tag whose opening bracket stands at `i`:
/// either the closing bracket of a valid tag is found, or a position is
/// returned before which no tag can start.
fn scan_at_open(message: &str, i: usize) -> (r: Result<usize, usize>)
    requires
        i < message@.len(),
        message@[i as int] == '[',
    ensures
        match r {
            Ok(k) => i < k < message@.len() && tag_at(message@, i as int, k as int),
            Err(next) => i < next <= message@.len() && forall|j: int|
                i <= j < next ==> !tag_starts_at(message@, j),
        },
{
    let ghost s = message@;
    let slen = message.unicode_len();
    let mut k: usize = i + 1;
    let mut prev_word = false;
    loop
        invariant
            i < slen,
            i + 1 <= k <= slen,
            slen == s.len(),
            s == message@,
            s[i as int] == '[',
            forall|p: int| i < p < k ==> is_body_char(#[trigger] s[p]),
            forall|p: int|
                i < p < k ==> (#[trigger] s[p] == '-' ==> p > i + 1 && is_word_char(s[p - 1])),
            prev_word == (k > i + 1 && is_word_char(s[k - 1])),
        decreases slen - k,
    {
        if k == slen {
            proof {
                lemma_open_no_end(s, i as int, k as int);
                lemma_body_no_start(s, i as int, k as int);
            }
            return Err(k);
        }
        let c = message.get_char(k);
        if c == ']' {
            proof {
                let body = s.subrange(i + 1, k as int);
                assert forall|q: int| 0 <= q < body.len() implies is_body_char(
                    #[trigger] body[q],
                ) && (body[q] == '-' ==> q > 0 && is_word_char(body[q - 1])) by {
                    assert(body[q] == s[i + 1 + q]);
                    if body[q] == '-' {
                        assert(s[i + 1 + q] == '-');
                        if q > 0 {
                            assert(body[q - 1] == s[i + q]);
                        }
                    }
                }
                assert(tag_at(s, i as int, k as int));
            }
            return Ok(k);
        }
        let w = word_char(c);
        if w {
            prev_word = true;
            k += 1;
        } else if c == '-' && prev_word {
            prev_word = false;
            k += 1;
        } else {
            // the scan is blocked: `c` is a hyphen with no word character
            // before it, or no body character at all
            proof {
                lemma_open_no_end(s, i as int, k as int);
                lemma_body_no_start(s, i as int, k as int);
            }
            return Err(k);
        }
    }
}

/// Extract the leftmost delimited tag from a text, brackets stripped
/// (e.g. `"[TRACK-123]: message"` yields `"TRACK-123"`).
pub fn extract_from_str(message: &str) -> (r: Option<String>)
    ensures
        r is Some <==> has_tag(message@),
        r matches Some(t) ==> t@ == first_tag(message@),
{
    let ghost s = message@;
    let slen = message.unicode_len();
    let mut i: usize = 0;
    while i < slen
        invariant
            i <= slen,
            slen == s.len(),
            s == message@,
            forall|j: int| 0 <= j < i ==> !tag_starts_at(s, j),
        decreases slen - i,
    {
        if message.get_char(i) == '[' {
            match scan_at_open(message, i) {
                Ok(k) => {
                    proof {
                        lemma_first_tag(s, i as int, k as int);
                    }
                    let inner = message.substring_char(i + 1, k);
                    return Some(inner.to_owned());
                },
                Err(next) => {
                    i = next;
                },
            }
        } else {
            i += 1;
        }
    }
    proof {
        if has_tag(s) {
            let j = choose|j: int| tag_starts_at(s, j);
            let ke = choose|ke: int| tag_at(s, j, ke);
            assert(tag_at(s, j, ke));
            assert(false);
        }
    }
    None
}

/// Extract a tag from a list of commit messages: the first message holding a
/// delimited tag yields that tag, paired with the full message.
pub fn extract_from_vec(commits: Vec<String>) -> (r: Option<(String, String)>)
    ensures
        match r {
            Some(p) => exists|j: int|
                {
                    &&& 0 <= j < commits@.len()
                    &&& has_tag(#[trigger] commits@[j]@)
                    &&& (forall|l: int| 0 <= l < j ==> !has_tag(#[trigger] commits@[l]@))
                    &&& p.0@ == first_tag(commits@[j]@)
                    &&& p.1@ == commits@[j]@
                },
            None => forall|j: int| 0 <= j < commits@.len() ==> !has_tag(#[trigger] commits@[j]@),
        },
{
    let mut idx: usize = 0;
    while idx < commits.len()
        invariant
            idx <= commits@.len(),
            forall|l: int| 0 <= l < idx ==> !has_tag(#[trigger] commits@[l]@),
        decreases commits@.len() - idx,
    {
        if let Some(tag) = extract_from_str(commits[idx].as_str()) {
            let commit = commits[idx].clone();
            return Some((tag, commit));
        }
        idx += 1;
    }
    None
}

/// Whether a text holds a delimited tag at all; used to validate tag input.
pub fn is_valid_tag(text: &str) -> (r: bool)
    ensures
        r == has_tag(text@),
{
    match extract_from_str(text) {
        Some(_) => true,
        None => false,
    }
}

/// The history without any copy of the given tag, order kept.
pub open spec fn remove_tag(tags: Seq<Seq<char>>, tag: Seq<char>) -> Seq<Seq<char>>
    decreases tags.len(),
{
    if tags.len() == 0 {
        Seq::empty()
    } else if tags[0] == tag {
        remove_tag(tags.drop_first(), tag)
    } else {
        seq![tags[0]] + remove_tag(tags.drop_first(), tag)
    }
}

/// The most-recently-used insertion rule of the tag history: the new tag
/// moves to the front, an existing copy is dropped, and the history is capped
/// at ten entries by dropping the last.
pub open spec fn add_spec(tags: Seq<Seq<char>>, tag: Seq<char>) -> Seq<Seq<char>> {
    let inserted = seq![tag] + remove_tag(tags, tag);
    if inserted.len() > 10 {
        inserted.drop_last()
    } else {
        inserted
    }
}

/// `remove_tag` over a pushed element keeps the element exactly when it is
/// not the removed tag.
proof fn lemma_remove_tag_push(s: Seq<Seq<char>>, x: Seq<char>, tag: Seq<char>)
    ensures
        remove_tag(s.push(x), tag) == if x == tag {
            remove_tag(s, tag)
        } else {
            remove_tag(s, tag).push(x)
        },
    decreases s.len(),
{
    if s.len() == 0 {
        reveal_with_fuel(remove_tag, 3);
        assert(s.push(x).drop_first() =~= Seq::<Seq<char>>::empty());
        assert(s.push(x)[0] == x);
        assert(s =~= Seq::<Seq<char>>::empty());
        if x != tag {
            assert(remove_tag(s.push(x), tag) =~= remove_tag(s, tag).push(x));
        }
    } else {
        assert(s.push(x)[0] == s[0]);
        assert(s.push(x).drop_first() =~= s.drop_first().push(x));
        lemma_remove_tag_push(s.drop_first(), x, tag);
        if s[0] != tag && x != tag {
            assert(remove_tag(s.push(x), tag) =~= remove_tag(s, tag).push(x));
        }
    }
}

/// `remove_tag` never keeps the removed tag, never grows the history, and
/// keeps everything else as it stands.
proof fn lemma_remove_tag_props(s: Seq<Seq<char>>, tag: Seq<char>)
    ensures
        remove_tag(s, tag).len() <= s.len(),
        forall|i: int| 0 <= i < remove_tag(s, tag).len() ==> #[trigger] remove_tag(s, tag)[i]
            != tag,
    decreases s.len(),
{
    if s.len() > 0 {
        lemma_remove_tag_props(s.drop_first(), tag);
        if s[0] != tag {
            assert forall|i: int|
                0 <= i < remove_tag(s, tag).len() implies #[trigger] remove_tag(s, tag)[i]
                != tag by {
                if i > 0 {
                    assert(remove_tag(s, tag)[i] == remove_tag(s.drop_first(), tag)[i - 1]);
                }
            }
        }
    }
}

/// Peeling the front entry off a removal.
proof fn lemma_remove_tag_cons(x: Seq<char>, rest: Seq<Seq<char>>, tag: Seq<char>)
    ensures
        remove_tag(seq![x] + rest, tag) == if x == tag {
            remove_tag(rest, tag)
        } else {
            seq![x] + remove_tag(rest, tag)
        },
{
    let s = seq![x] + rest;
    assert(s.len() > 0);
    assert(s[0] == x);
    assert(s.drop_first() =~= rest);
}

/// `remove_tag` leaves a history without the tag untouched.
proof fn lemma_remove_tag_absent(s: Seq<Seq<char>>, tag: Seq<char>)
    requires
        forall|i: int| 0 <= i < s.len() ==> #[trigger] s[i] != tag,
    ensures
        remove_tag(s, tag) == s,
    decreases s.len(),
{
    if s.len() > 0 {
        assert forall|i: int|
            0 <= i < s.drop_first().len() implies #[trigger] s.drop_first()[i] != tag by {
            assert(s.drop_first()[i] == s[i + 1]);
        }
        lemma_remove_tag_absent(s.drop_first(), tag);
        assert(seq![s[0]] + s.drop_first() =~= s);
    }
}

/// Inserting the new tag always puts it in front: the history is ordered
/// most recently used first.
pub proof fn lemma_add_front(tags: Seq<Seq<char>>, tag: Seq<char>)
    ensures
        add_spec(tags, tag).len() >= 1,
        add_spec(tags, tag)[0] == tag,
        tags.len() <= 10 ==> add_spec(tags, tag).len() <= 10,
{
    lemma_remove_tag_props(tags, tag);
    let inserted = seq![tag] + remove_tag(tags, tag);
    assert(inserted[0] == tag);
    if inserted.len() > 10 {
        assert(inserted.drop_last()[0] == tag);
    }
}

/// After an insertion only the front entry carries the inserted tag: a
/// tag never appears twice.
pub proof fn lemma_add_no_duplicate(tags: Seq<Seq<char>>, tag: Seq<char>)
    ensures
        add_spec(tags, tag)[0] == tag,
        forall|i: int| 1 <= i < add_spec(tags, tag).len() ==> add_spec(tags, tag)[i] != tag,
{
    let f = remove_tag(tags, tag);
    let inserted = seq![tag] + f;
    lemma_remove_tag_props(tags, tag);
    let once = add_spec(tags, tag);
    let g = if inserted.len() > 10 {
        f.drop_last()
    } else {
        f
    };
    if inserted.len() > 10 {
        assert(once =~= seq![tag] + g);
    }
    assert(once == seq![tag] + g);
    assert forall|i: int| 1 <= i < once.len() implies once[i] != tag by {
        assert(once[i] == g[i - 1]);
        assert(g[i - 1] == f[i - 1]);
    }
}

/// On a history the cap has already bounded, inserting the same tag twice
/// leaves it exactly as one insertion does.
pub proof fn lemma_add_twice(tags: Seq<Seq<char>>, tag: Seq<char>, once: Seq<Seq<char>>)
    requires
        tags.len() <= 10,
        once == add_spec(tags, tag),
    ensures
        add_spec(once, tag) == once,
{
    let f = remove_tag(tags, tag);
    let inserted = seq![tag] + f;
    lemma_remove_tag_props(tags, tag);
    let g = if inserted.len() > 10 {
        f.drop_last()
    } else {
        f
    };
    if inserted.len() > 10 {
        assert(once =~= seq![tag] + g);
    }
    assert(once == seq![tag] + g);
    assert forall|i: int| 0 <= i < g.len() implies #[trigger] g[i] != tag by {
        assert(g[i] == f[i]);
    }
    // removing the tag from the once-inserted history drops exactly the
    // front entry
    assert(once[0] == tag);
    assert(once.drop_first() =~= g);
    lemma_remove_tag_absent(g, tag);
    lemma_remove_tag_cons(tag, g, tag);
    assert(remove_tag(once, tag) == remove_tag(seq![tag] + g, tag));
    assert(remove_tag(seq![tag] + g, tag) == remove_tag(g, tag));
    assert(remove_tag(g, tag) == g);
    assert(remove_tag(once, tag) == g);
    assert(seq![tag] + remove_tag(once, tag) =~= once);
    assert(once.len() <= 10);
}

/// When a full history of ten other tags receives a new one, the new tag
/// enters in front and the oldest entry is dropped; the history stays at
/// ten.
pub proof fn lemma_add_caps(tags: Seq<Seq<char>>, tag: Seq<char>)
    requires
        tags.len() == 10,
        !tags.contains(tag),
    ensures
        add_spec(tags, tag) == (seq![tag] + tags).drop_last(),
        add_spec(tags, tag).len() == 10,
{
    assert forall|i: int| 0 <= i < tags.len() implies #[trigger] tags[i] != tag by {
        if tags[i] == tag {
            assert(tags.contains(tag));
        }
    }
    lemma_remove_tag_absent(tags, tag);
    assert((seq![tag] + tags).drop_last() =~= add_spec(tags, tag));
}

/// A bounded, deduplicated, most-recently-used list of tags, backed by a
/// file with one tag per line. The store itself never touches the file: it
/// parses contents handed to it and renders contents for the caller to write.
#[derive(Debug, Clone)]
pub struct Tags {
    file: String,
    tags: Vec<String>,
}

impl Tags {
    /// The path of the backing file.
    pub closed spec fn file_spec(&self) -> Seq<char> {
        self.file@
    }

    /// The held tags, most recent first.
    pub closed spec fn tags_spec(&self) -> Seq<Seq<char>> {
        views(self.tags@)
    }

    /// An empty history, as loaded from a missing file.
    pub fn new(file: String) -> (r: Tags)
        ensures
            r.file_spec() == file@,
            r.tags_spec() == Seq::<Seq<char>>::empty(),
    {
        let r = Tags { file, tags: Vec::new() };
        proof {
            assert(views(r.tags@) =~= Seq::<Seq<char>>::empty());
        }
        r
    }

    /// The held tags as a list, most recent first.
    pub fn iter(&self) -> (r: Vec<String>)
        ensures
            views(r@) == self.tags_spec(),
    {
        let mut out: Vec<String> = Vec::new();
        let mut idx: usize = 0;
        while idx < self.tags.len()
            invariant
                idx <= self.tags@.len(),
                views(out@) == views(self.tags@).subrange(0, idx as int),
            decreases self.tags@.len() - idx,
        {
            let t = self.tags[idx].clone();
            proof {
                lemma_views_push(out@, t);
                assert(views(self.tags@).subrange(0, idx as int).push(self.tags@[idx as int]@)
                    =~= views(self.tags@).subrange(0, idx + 1));
            }
            out.push(t);
            idx += 1;
        }
        proof {
            assert(views(self.tags@).subrange(0, self.tags@.len() as int) =~= views(self.tags@));
        }
        out
    }

    /// Whether the history holds no tag.
    pub fn is_empty(&self) -> (r: bool)
        ensures
            r == (self.tags_spec().len() == 0),
    {
        self.tags.len() == 0
    }

    /// Insert a tag at the front: an existing copy is removed first, and the
    /// history is capped at ten entries by dropping the last.
    pub fn add(&mut self, tag: String)
        ensures
            final(self).tags_spec() == add_spec(old(self).tags_spec(), tag@),
            final(self).file_spec() == old(self).file_spec(),
    {
        let mut kept: Vec<String> = Vec::new();
        let mut idx: usize = 0;
        proof {
            assert(views(self.tags@).subrange(0, 0) =~= Seq::<Seq<char>>::empty());
            assert(views(kept@) =~= remove_tag(views(self.tags@).subrange(0, 0), tag@));
        }
        while idx < self.tags.len()
            invariant
                idx <= self.tags@.len(),
                views(kept@) == remove_tag(views(self.tags@).subrange(0, idx as int), tag@),
            decreases self.tags@.len() - idx,
        {
            let keep = !str_eq(self.tags[idx].as_str(), tag.as_str());
            proof {
                lemma_remove_tag_push(
                    views(self.tags@).subrange(0, idx as int),
                    self.tags@[idx as int]@,
                    tag@,
                );
                assert(views(self.tags@).subrange(0, idx as int).push(self.tags@[idx as int]@)
                    =~= views(self.tags@).subrange(0, idx + 1));
            }
            if keep {
                let t = self.tags[idx].clone();
                proof {
                    lemma_views_push(kept@, t);
                }
                kept.push(t);
            }
            idx += 1;
        }
        proof {
            assert(views(self.tags@).subrange(0, self.tags@.len() as int) =~= views(self.tags@));
        }
        kept.insert(0, tag);
        proof {
            assert(views(kept@) =~= seq![tag@] + remove_tag(views(old(self).tags@), tag@));
        }
        if kept.len() > 10 {
            kept.pop();
            proof {
                assert(views(kept@) =~= (seq![tag@] + remove_tag(
                    views(old(self).tags@),
                    tag@,
                )).drop_last());
            }
        }
        self.tags = kept;
    }

    /// Render the backing-file contents: one tag per line, most recent
    /// first, each line newline-terminated. The caller writes them to
    /// the backing file.
    pub fn save(&self) -> (r: String)
        ensures
            r@ == render_spec(self.tags_spec()),
    {
        let mut out = String::new();
        let mut idx: usize = 0;
        proof {
            reveal_strlit("\n");
            assert(render_prefix(self.tags_spec(), 0) =~= Seq::<char>::empty());
        }
        while idx < self.tags.len()
            invariant
                idx <= self.tags@.len(),
                out@ == render_prefix(views(self.tags@), idx as int),
            decreases self.tags@.len() - idx,
        {
            out.append(self.tags[idx].as_str());
            out.append("\n");
            proof {
                reveal_strlit("\n");
                assert(out@ =~= render_prefix(views(self.tags@), idx + 1));
            }
            idx += 1;
        }
        out
    }

    /// Insert a tag and render the updated backing-file contents in one step.
    pub fn add_and_save(&mut self, tag: String) -> (r: String)
        ensures
            final(self).tags_spec() == add_spec(old(self).tags_spec(), tag@),
            final(self).file_spec() == old(self).file_spec(),
            r@ == render_spec(final(self).tags_spec()),
    {
        self.add(tag);
        self.save()
    }

    /// The stored tags that begin with the given input, in history order;
    /// used for autocompletion.
    pub fn get_suggestions(&self, input: &str) -> (r: Vec<String>)
        ensures
            views(r@) == self.tags_spec().filter(|t: Seq<char>| is_prefix(t, input@)),
    {
        let ghost pred = |t: Seq<char>| is_prefix(t, input@);
        let mut out: Vec<String> = Vec::new();
        let mut idx: usize = 0;
        proof {
            assert(views(out@) =~= views(self.tags@).subrange(0, 0).filter(pred));
        }
        while idx < self.tags.len()
            invariant
                idx <= self.tags@.len(),
                views(out@) == views(self.tags@).subrange(0, idx as int).filter(pred),
                pred == (|t: Seq<char>| is_prefix(t, input@)),
            decreases self.tags@.len() - idx,
        {
            let take = starts_with(self.tags[idx].as_str(), input);
            proof {
                lemma_filter_push(views(self.tags@).subrange(0, idx as int), self.tags@[idx as int]@, pred);
                assert(views(self.tags@).subrange(0, idx as int).push(self.tags@[idx as int]@)
                    =~= views(self.tags@).subrange(0, idx + 1));
            }
            if take {
                let t = self.tags[idx].clone();
                proof {
                    lemma_views_push(out@, t);
                }
                out.push(t);
            }
            idx += 1;
        }
        proof {
            assert(views(self.tags@).subrange(0, self.tags@.len() as int) =~= views(self.tags@));
        }
        out
    }

    /// The first stored tag that begins with the given input, if any;
    /// used to complete a partial tag.
    pub fn get_completion(&self, input: &str) -> (r: Option<String>)
        ensures
            match r {
                Some(t) => exists|j: int|
                    {
                        &&& 0 <= j < self.tags_spec().len()
                        &&& is_prefix(#[trigger] self.tags_spec()[j], input@)
                        &&& (forall|l: int|
                            0 <= l < j ==> !is_prefix(#[trigger] self.tags_spec()[l], input@))
                        &&& t@ == self.tags_spec()[j]
                    },
                None => forall|j: int|
                    0 <= j < self.tags_spec().len() ==> !is_prefix(
                        #[trigger] self.tags_spec()[j],
                        input@,
                    ),
            },
    {
        let mut idx: usize = 0;
        while idx < self.tags.len()
            invariant
                idx <= self.tags@.len(),
                forall|l: int|
                    0 <= l < idx ==> !is_prefix(#[trigger] views(self.tags@)[l], input@),
            decreases self.tags@.len() - idx,
        {
            if starts_with(self.tags[idx].as_str(), input) {
                proof {
                    assert(views(self.tags@)[idx as int] == self.tags@[idx as int]@);
                    assert(is_prefix(self.tags_spec()[idx as int], input@));
                }
                return Some(self.tags[idx].clone());
            }
            idx += 1;
        }
        None
    }
}

/// An ASCII whitespace character, as stripped from the ends of a stored line.
pub open spec fn is_space(c: char) -> bool {
    c == ' ' || c == '\t' || c == '\r' || c == '\n' || c == '\u{b}' || c == '\u{c}'
}

/// `s` with leading whitespace removed.
pub open spec fn trim_front(s: Seq<char>) -> Seq<char>
    decreases s.len(),
{
    if s.len() > 0 && is_space(s[0]) {
        trim_front(s.drop_first())
    } else {
        s
    }
}

/// `s` with trailing whitespace removed.
pub open spec fn trim_back(s: Seq<char>) -> Seq<char>
    decreases s.len(),
{
    if s.len() > 0 && is_space(s.last()) {
        trim_back(s.drop_last())
    } else {
        s
    }
}

/// `s` with whitespace removed from both ends.
pub open spec fn trim_spec(s: Seq<char>) -> Seq<char> {
    trim_back(trim_front(s))
}

/// The tag contributed by one stored line: its trimmed text, unless empty.
pub open spec fn maybe_line(l: Seq<char>) -> Seq<Seq<char>> {
    if trim_spec(l).len() == 0 {
        Seq::empty()
    } else {
        seq![trim_spec(l)]
    }
}

/// The tags parsed from backing-file contents: one line per tag, each
/// trimmed, empty lines dropped.
pub open spec fn parse_spec(s: Seq<char>) -> Seq<Seq<char>>
    decreases s.len(),
    via parse_spec_dec
{
    if s.len() == 0 {
        Seq::empty()
    } else if first_nl(s) >= 0 {
        let n = first_nl(s);
        maybe_line(s.subrange(0, n)) + parse_spec(s.subrange(n + 1, s.len() as int))
    } else {
        maybe_line(s)
    }
}

#[via_fn]
proof fn parse_spec_dec(s: Seq<char>) {
    lemma_first_nl_bounds(s);
}

/// Trimming from the back keeps a text whose first character is no
/// whitespace nonempty.
proof fn lemma_trim_back_keeps(x: Seq<char>)
    requires
        x.len() > 0,
        !is_space(x[0]),
    ensures
        trim_back(x).len() > 0,
    decreases x.len(),
{
    if is_space(x.last()) {
        assert(x.drop_last()[0] == x[0]);
        lemma_trim_back_keeps(x.drop_last());
    }
}

/// Whether a text is empty after trimming whitespace from both ends.
pub fn is_blank(s: &str) -> (r: bool)
    ensures
        r == (trim_spec(s@).len() == 0),
{
    let slen = s.unicode_len();
    let mut j: usize = 0;
    proof {
        assert(s@.skip(0) =~= s@);
    }
    while j < slen && space_char(s.get_char(j))
        invariant
            j <= slen,
            slen == s@.len(),
            trim_front(s@) == trim_front(s@.skip(j as int)),
        decreases slen - j,
    {
        proof {
            assert(s@.skip(j as int).drop_first() =~= s@.skip(j + 1));
        }
        j += 1;
    }
    if j == slen {
        proof {
            assert(s@.skip(j as int).len() == 0);
            assert(trim_front(s@) == s@.skip(j as int));
        }
        true
    } else {
        proof {
            assert(s@.skip(j as int)[0] == s@[j as int]);
            assert(trim_front(s@) == s@.skip(j as int));
            lemma_trim_back_keeps(s@.skip(j as int));
        }
        false
    }
}

/// Exec mirror of [`is_space`].
pub fn space_char(c: char) -> (r: bool)
    ensures
        r == is_space(c),
{
    c == ' ' || c == '\t' || c == '\r' || c == '\n' || c == '\u{b}' || c == '\u{c}'
}

impl Tags {
    /// Load a history from the contents of its backing file: one tag per
    /// line, trimmed, empty lines dropped.
    pub fn from_contents(file: String, contents: &str) -> (r: Tags)
        ensures
            r.file_spec() == file@,
            r.tags_spec() == parse_spec(contents@),
    {
        let ghost s = contents@;
        let slen = contents.unicode_len();
        let mut tags: Vec<String> = Vec::new();
        let mut pos: usize = 0;
        proof {
            assert(views(tags@) =~= Seq::<Seq<char>>::empty());
            assert(s.subrange(0, slen as int) =~= s);
            assert(views(tags@) + parse_spec(s) =~= parse_spec(s));
        }
        while pos < slen
            invariant
                pos <= slen,
                slen == s.len(),
                s == contents@,
                views(tags@) + parse_spec(s.subrange(pos as int, slen as int)) == parse_spec(s),
            decreases slen - pos,
        {
            let ghost rest = s.subrange(pos as int, slen as int);
            let nl = find_nl(contents, pos);
            let end: usize = match nl {
                Some(n) => n,
                None => slen,
            };
            let ghost line = s.subrange(pos as int, end as int);
            // trim the line in place
            let mut lo: usize = pos;
            while lo < end && space_char(contents.get_char(lo))
                invariant
                    pos <= lo <= end,
                    end <= slen,
                    slen == s.len(),
                    s == contents@,
                    trim_front(s.subrange(pos as int, end as int)) == trim_front(
                        s.subrange(lo as int, end as int),
                    ),
                decreases end - lo,
            {
                proof {
                    assert(s.subrange(lo as int, end as int).drop_first() =~= s.subrange(
                        lo + 1,
                        end as int,
                    ));
                }
                lo += 1;
            }
            proof {
                assert(trim_front(line) == s.subrange(lo as int, end as int));
            }
            let mut hi: usize = end;
            while hi > lo && space_char(contents.get_char(hi - 1))
                invariant
                    lo <= hi <= end,
                    end <= slen,
                    slen == s.len(),
                    s == contents@,
                    trim_back(s.subrange(lo as int, end as int)) == trim_back(
                        s.subrange(lo as int, hi as int),
                    ),
                decreases hi,
            {
                proof {
                    assert(s.subrange(lo as int, hi as int).drop_last() =~= s.subrange(
                        lo as int,
                        hi - 1,
                    ));
                }
                hi -= 1;
            }
            proof {
                assert(trim_spec(line) == s.subrange(lo as int, hi as int));
            }
            let ghost tags0 = views(tags@);
            if lo < hi {
                let t = contents.substring_char(lo, hi).to_owned();
                proof {
                    lemma_views_push(tags@, t);
                }
                tags.push(t);
            }
            let next: usize = match nl {
                Some(n) => n + 1,
                None => slen,
            };
            proof {
                // unfold the parse of the remaining suffix by one line
                let tail = s.subrange(next as int, slen as int);
                match nl {
                    Some(n) => {
                        assert(rest[n - pos] == '\n');
                        assert forall|m: int| 0 <= m < n - pos implies rest[m] != '\n' by {
                            assert(rest[m] == s[pos + m]);
                        }
                        lemma_first_nl_is(rest, n - pos);
                        assert(rest.subrange(0, n - pos) =~= line);
                        assert(rest.subrange(n - pos + 1, rest.len() as int) =~= tail);
                        assert(parse_spec(rest) == maybe_line(line) + parse_spec(tail));
                    },
                    None => {
                        assert(rest.len() > 0);
                        assert forall|m: int| 0 <= m < rest.len() implies rest[m] != '\n' by {
                            assert(rest[m] == s[pos + m]);
                        }
                        lemma_first_nl_bounds(rest);
                        assert(rest =~= line);
                        assert(parse_spec(tail) =~= Seq::<Seq<char>>::empty());
                        assert(parse_spec(rest) == maybe_line(line));
                        assert(maybe_line(line) + parse_spec(tail) =~= maybe_line(line));
                    },
                }
                if lo < hi {
                    assert(trim_spec(line).len() > 0);
                    assert(views(tags@) =~= tags0 + seq![trim_spec(line)]);
                } else {
                    assert(trim_spec(line).len() == 0);
                    assert(views(tags@) =~= tags0 + maybe_line(line));
                }
                assert(views(tags@) + parse_spec(tail) =~= tags0 + (maybe_line(line)
                    + parse_spec(tail)));
                assert(views(tags@) + parse_spec(s.subrange(next as int, slen as int))
                    == parse_spec(s));
            }
            pos = next;
        }
        proof {
            assert(s.subrange(slen as int, slen as int).len() == 0);
            assert(parse_spec(s.subrange(pos as int, slen as int)) =~= Seq::<Seq<char>>::empty());
            assert(views(tags@) =~= parse_spec(s));
        }
        Tags { file, tags }
    }
}

/// The rendered form of a tag list: each tag followed by a newline.
pub open spec fn render_spec(tags: Seq<Seq<char>>) -> Seq<char> {
    render_prefix(tags, tags.len() as int)
}

/// The rendered form of the first `n` tags.
pub open spec fn render_prefix(tags: Seq<Seq<char>>, n: int) -> Seq<char>
    decreases n,
{
    if n <= 0 {
        Seq::empty()
    } else {
        render_prefix(tags, n - 1) + tags[n - 1] + seq!['\n']
    }
}

} // verus!



