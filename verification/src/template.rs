//! The body template renderer: placeholder substitution, removal of lines
//! whose placeholder has no value, and the tracking-link prefix.
//!
//! Matching is per line: a placeholder holding a newline never matches, so
//! such a call leaves the body unchanged.

use vstd::prelude::*;

use crate::config::Config;
use crate::pr::{lookup, lookup_value};
use crate::text::{
    contains_at, contains_seq, find_nl, first_nl, lemma_first_nl_bounds, lemma_first_nl_is,
    match_at,
};

verus! {

/// Every occurrence of `pat` in `s` replaced by `val`, scanning left to
/// right without overlap; an empty pattern replaces nothing.
pub open spec fn replace_spec(s: Seq<char>, pat: Seq<char>, val: Seq<char>) -> Seq<char>
    decreases s.len(),
{
    if pat.len() == 0 || s.len() < pat.len() {
        s
    } else if s.subrange(0, pat.len() as int) == pat {
        val + replace_spec(s.skip(pat.len() as int), pat, val)
    } else {
        seq![s[0]] + replace_spec(s.drop_first(), pat, val)
    }
}

/// Every occurrence of `pat` in `s` replaced by `val`.
pub fn replace_all(s: &str, pat: &str, val: &str) -> (r: String)
    ensures
        r@ == replace_spec(s@, pat@, val@),
{
    let slen = s.unicode_len();
    let plen = pat.unicode_len();
    if plen == 0 {
        return s.to_owned();
    }
    let mut out = String::new();
    let mut i: usize = 0;
    proof {
        assert(s@.skip(0) =~= s@);
        assert(out@ + replace_spec(s@, pat@, val@) =~= replace_spec(s@, pat@, val@));
    }
    while i < slen
        invariant
            i <= slen,
            slen == s@.len(),
            plen == pat@.len(),
            plen >= 1,
            out@ + replace_spec(s@.skip(i as int), pat@, val@) == replace_spec(s@, pat@, val@),
        decreases slen - i,
    {
        let ghost rest = s@.skip(i as int);
        let ghost goal = replace_spec(s@, pat@, val@);
        let is_match = if plen <= slen - i {
            match_at(s, pat, i)
        } else {
            false
        };
        if is_match {
            let ghost out0 = out@;
            out.append(val);
            proof {
                assert(rest.subrange(0, plen as int) =~= s@.subrange(i as int, i + plen));
                assert(rest.skip(plen as int) =~= s@.skip(i + plen));
                assert(replace_spec(rest, pat@, val@) == val@ + replace_spec(
                    s@.skip(i + plen),
                    pat@,
                    val@,
                ));
                assert(out@ + replace_spec(s@.skip(i + plen), pat@, val@) =~= out0 + (val@
                    + replace_spec(s@.skip(i + plen), pat@, val@)));
            }
            i += plen;
        } else {
            let ghost out0 = out@;
            let piece = s.substring_char(i, i + 1);
            out.append(piece);
            proof {
                assert(piece@ =~= seq![s@[i as int]]);
                assert(rest.drop_first() =~= s@.skip(i + 1));
                if plen <= slen - i {
                    assert(rest.subrange(0, plen as int) =~= s@.subrange(i as int, i + plen));
                    assert(rest.subrange(0, plen as int) != pat@);
                    assert(replace_spec(rest, pat@, val@) == seq![rest[0]] + replace_spec(
                        s@.skip(i + 1),
                        pat@,
                        val@,
                    ));
                } else {
                    assert(rest.len() < plen);
                    assert(replace_spec(rest, pat@, val@) == rest);
                    assert(s@.skip(i + 1).len() < plen);
                    assert(replace_spec(s@.skip(i + 1), pat@, val@) == s@.skip(i + 1));
                    assert(rest =~= seq![rest[0]] + s@.skip(i + 1));
                }
                assert(rest[0] == s@[i as int]);
                assert(out@ + replace_spec(s@.skip(i + 1), pat@, val@) =~= out0 + (seq![
                    s@[i as int],
                ] + replace_spec(s@.skip(i + 1), pat@, val@)));
            }
            i += 1;
        }
    }
    proof {
        assert(s@.skip(slen as int).len() == 0);
        assert(replace_spec(s@.skip(i as int), pat@, val@) == s@.skip(i as int));
        assert(out@ + s@.skip(slen as int) =~= out@);
    }
    out
}

/// `s` with every line the predicate rejects removed, each together with
/// its terminating newline.
pub open spec fn remove_lines(s: Seq<char>, dead: spec_fn(Seq<char>) -> bool) -> Seq<char>
    decreases s.len(),
    via remove_lines_dec
{
    if s.len() == 0 {
        Seq::empty()
    } else if first_nl(s) >= 0 {
        let n = first_nl(s);
        let line = s.subrange(0, n);
        let rest = s.subrange(n + 1, s.len() as int);
        if dead(line) {
            remove_lines(rest, dead)
        } else {
            line + seq!['\n'] + remove_lines(rest, dead)
        }
    } else {
        if dead(s) {
            Seq::empty()
        } else {
            s
        }
    }
}

#[via_fn]
proof fn remove_lines_dec(s: Seq<char>, dead: spec_fn(Seq<char>) -> bool) {
    lemma_first_nl_bounds(s);
}

/// The line predicate of [`remove_placeholder_line`]: the line holds the
/// placeholder.
pub open spec fn line_holds(pat: Seq<char>) -> spec_fn(Seq<char>) -> bool {
    |line: Seq<char>| contains_seq(line, pat)
}

/// Whether `pat` occurs inside `s[lo..hi)`.
fn contains_in_range(s: &str, pat: &str, lo: usize, hi: usize) -> (r: bool)
    requires
        lo <= hi <= s@.len(),
    ensures
        r == contains_seq(s@.subrange(lo as int, hi as int), pat@),
{
    let ghost sub = s@.subrange(lo as int, hi as int);
    let plen = pat.unicode_len();
    if plen > hi - lo {
        proof {
            assert forall|t: int| !contains_at(sub, pat@, t) by {}
        }
        return false;
    }
    if plen == 0 {
        proof {
            assert(sub.subrange(0, 0) =~= pat@);
            assert(contains_at(sub, pat@, 0));
        }
        return true;
    }
    let mut i: usize = lo;
    while i <= hi - plen
        invariant
            lo <= i,
            i <= hi - plen + 1,
            lo <= hi <= s@.len(),
            plen == pat@.len(),
            1 <= plen <= hi - lo,
            sub == s@.subrange(lo as int, hi as int),
            forall|t: int| 0 <= t < i - lo ==> !contains_at(sub, pat@, t),
        decreases hi - plen - i + 1,
    {
        if match_at(s, pat, i) {
            proof {
                assert(sub.subrange(i - lo, i - lo + plen) =~= s@.subrange(i as int, i + plen));
                assert(contains_at(sub, pat@, i - lo));
            }
            return true;
        }
        proof {
            assert forall|t: int| 0 <= t < i + 1 - lo implies !contains_at(sub, pat@, t) by {
                if t == i - lo {
                    assert(sub.subrange(t, t + plen) =~= s@.subrange(i as int, i + plen));
                }
            }
        }
        i += 1;
    }
    proof {
        assert forall|t: int| !contains_at(sub, pat@, t) by {
            if 0 <= t && t + plen <= sub.len() {
                assert(t < i - lo);
            }
        }
    }
    false
}

/// `body` with every line holding `placeholder` removed, together with its
/// terminating newline; used when a field's value is empty, so that the
/// whole optional section vanishes.
pub fn remove_placeholder_line(body: &str, placeholder: &str) -> (r: String)
    ensures
        r@ == remove_lines(body@, line_holds(placeholder@)),
{
    let ghost s = body@;
    let ghost dead = line_holds(placeholder@);
    let slen = body.unicode_len();
    let mut out = String::new();
    let mut pos: usize = 0;
    proof {
        assert(s.subrange(0, slen as int) =~= s);
        assert(out@ + remove_lines(s, dead) =~= remove_lines(s, dead));
    }
    while pos < slen
        invariant
            pos <= slen,
            slen == s.len(),
            s == body@,
            dead == line_holds(placeholder@),
            out@ + remove_lines(s.subrange(pos as int, slen as int), dead) == remove_lines(
                s,
                dead,
            ),
        decreases slen - pos,
    {
        let ghost rest = s.subrange(pos as int, slen as int);
        let ghost out0 = out@;
        let nl = find_nl(body, pos);
        let end: usize = match nl {
            Some(n) => n,
            None => slen,
        };
        let ghost line = s.subrange(pos as int, end as int);
        let keep = !contains_in_range(body, placeholder, pos, end);
        proof {
            assert(rest.subrange(0, end - pos) =~= line);
        }
        if keep {
            let piece = body.substring_char(pos, end);
            out.append(piece);
            if end < slen {
                out.append("\n");
            }
        }
        let next: usize = match nl {
            Some(n) => n + 1,
            None => slen,
        };
        proof {
            reveal_strlit("\n");
            let tail = s.subrange(next as int, slen as int);
            match nl {
                Some(n) => {
                    assert(rest[n - pos] == '\n');
                    assert forall|m: int| 0 <= m < n - pos implies rest[m] != '\n' by {
                        assert(rest[m] == s[pos + m]);
                    }
                    lemma_first_nl_is(rest, n - pos);
                    assert(rest.subrange(n - pos + 1, rest.len() as int) =~= tail);
                    if dead(line) {
                        assert(remove_lines(rest, dead) == remove_lines(tail, dead));
                        assert(out@ == out0);
                    } else {
                        assert(remove_lines(rest, dead) == line + seq!['\n'] + remove_lines(
                            tail,
                            dead,
                        ));
                        assert(out@ =~= out0 + line + seq!['\n']);
                    }
                },
                None => {
                    assert(rest.len() > 0);
                    assert forall|m: int| 0 <= m < rest.len() implies rest[m] != '\n' by {
                        assert(rest[m] == s[pos + m]);
                    }
                    lemma_first_nl_bounds(rest);
                    assert(rest =~= line);
                    assert(tail.len() == 0);
                    if dead(line) {
                        assert(remove_lines(rest, dead) =~= Seq::<char>::empty());
                        assert(out@ == out0);
                    } else {
                        assert(remove_lines(rest, dead) == rest);
                        assert(out@ =~= out0 + line);
                    }
                    assert(remove_lines(tail, dead) =~= Seq::<char>::empty());
                },
            }
            assert(out@ + remove_lines(tail, dead) =~= out0 + remove_lines(rest, dead));
        }
        pos = next;
    }
    proof {
        assert(s.subrange(pos as int, slen as int).len() == 0);
        assert(remove_lines(s.subrange(pos as int, slen as int), dead) =~= Seq::<char>::empty());
        assert(out@ + Seq::<char>::empty() =~= out@);
    }
    out
}

/// A complete placeholder spans `a..b+2` of `line`: double opening braces,
/// a nonempty brace-free body, double closing braces.
pub open spec fn placeholder_span(line: Seq<char>, a: int, b: int) -> bool {
    &&& 0 <= a
    &&& a + 3 <= b
    &&& b + 2 <= line.len()
    &&& line[a] == '{'
    &&& line[a + 1] == '{'
    &&& line[b] == '}'
    &&& line[b + 1] == '}'
    &&& forall|q: int| a + 2 <= q < b ==> line[q] != '}'
}

/// The line holds a complete `{{...}}` placeholder.
pub open spec fn has_placeholder(line: Seq<char>) -> bool {
    exists|a: int, b: int| placeholder_span(line, a, b)
}

/// Whether `s[lo..hi)` holds a complete placeholder.
fn placeholder_in_range(s: &str, lo: usize, hi: usize) -> (r: bool)
    requires
        lo <= hi <= s@.len(),
    ensures
        r == has_placeholder(s@.subrange(lo as int, hi as int)),
{
    let ghost sub = s@.subrange(lo as int, hi as int);
    let mut a: usize = lo;
    while a < hi
        invariant
            lo <= a <= hi <= s@.len(),
            sub == s@.subrange(lo as int, hi as int),
            forall|a0: int, b0: int| a0 < a - lo ==> !#[trigger] placeholder_span(sub, a0, b0),
        decreases hi - a,
    {
        let open_here = a + 1 < hi && s.get_char(a) == '{' && s.get_char(a + 1) == '{';
        if open_here {
            // find the first closing brace after the body start
            let mut q: usize = a + 2;
            while q < hi && s.get_char(q) != '}'
                invariant
                    a + 2 <= q <= hi <= s@.len(),
                    forall|p: int| a + 2 <= p < q ==> s@[p] != '}',
                decreases hi - q,
            {
                q += 1;
            }
            if q < hi && q > a + 2 && q + 1 < hi && s.get_char(q + 1) == '}' {
                proof {
                    assert forall|p: int|
                        a - lo + 2 <= p < q - lo implies sub[p] != '}' by {
                        assert(sub[p] == s@[lo + p]);
                    }
                    assert(placeholder_span(sub, a - lo, q - lo));
                }
                return true;
            }
            proof {
                assert forall|b0: int| !#[trigger] placeholder_span(sub, a - lo, b0) by {
                    if placeholder_span(sub, a - lo, b0) {
                        let babs = b0 + lo;
                        assert(sub[b0] == s@[babs]);
                        assert(sub[b0 + 1] == s@[babs + 1]);
                        if babs < q {
                            assert(sub[b0] == '}' && s@[babs] != '}');
                        } else if babs > q {
                            assert(q < hi && s@[q as int] == '}');
                            assert(sub[q - lo] != '}') by {
                                assert(a - lo + 2 <= q - lo < b0);
                            }
                            assert(sub[q - lo] == s@[q as int]);
                        } else {
                            // babs == q: the body is nonempty and brace-free,
                            // and the character after must close too
                            assert(q > a + 2 || sub[a - lo + 2] != '}');
                            assert(sub[a - lo + 2] == s@[a + 2]);
                            assert(q + 1 < hi ==> s@[q + 1] != '}');
                        }
                    }
                }
                assert forall|a0: int, b0: int|
                    a0 < a + 1 - lo implies !#[trigger] placeholder_span(sub, a0, b0) by {
                    if a0 == a - lo {
                        assert(!placeholder_span(sub, a - lo, b0));
                    }
                }
            }
            a += 1;
        } else {
            proof {
                assert forall|a0: int, b0: int|
                    a0 < a + 1 - lo implies !#[trigger] placeholder_span(sub, a0, b0) by {
                    if a0 == a - lo && placeholder_span(sub, a0, b0) {
                        assert(sub[a0] == s@[a as int]);
                        assert(sub[a0 + 1] == s@[a + 1]);
                        assert(a + 1 < hi);
                    }
                }
            }
            a += 1;
        }
    }
    proof {
        assert forall|a0: int, b0: int| !#[trigger] placeholder_span(sub, a0, b0) by {
            if placeholder_span(sub, a0, b0) {
                assert(a0 + 3 <= b0 && b0 + 2 <= sub.len());
                assert(a0 < a - lo);
            }
        }
    }
    false
}

/// `body` with every line holding a complete `{{...}}` placeholder removed:
/// whatever placeholders no field claimed vanish with their lines.
pub fn remove_empty_placeholders(body: &str) -> (r: String)
    ensures
        r@ == remove_lines(body@, |line: Seq<char>| has_placeholder(line)),
{
    let ghost s = body@;
    let ghost dead = |line: Seq<char>| has_placeholder(line);
    let slen = body.unicode_len();
    let mut out = String::new();
    let mut pos: usize = 0;
    proof {
        assert(s.subrange(0, slen as int) =~= s);
        assert(out@ + remove_lines(s, dead) =~= remove_lines(s, dead));
    }
    while pos < slen
        invariant
            pos <= slen,
            slen == s.len(),
            s == body@,
            dead == (|line: Seq<char>| has_placeholder(line)),
            out@ + remove_lines(s.subrange(pos as int, slen as int), dead) == remove_lines(
                s,
                dead,
            ),
        decreases slen - pos,
    {
        let ghost rest = s.subrange(pos as int, slen as int);
        let ghost out0 = out@;
        let nl = find_nl(body, pos);
        let end: usize = match nl {
            Some(n) => n,
            None => slen,
        };
        let ghost line = s.subrange(pos as int, end as int);
        let keep = !placeholder_in_range(body, pos, end);
        proof {
            assert(rest.subrange(0, end - pos) =~= line);
        }
        if keep {
            let piece = body.substring_char(pos, end);
            out.append(piece);
            if end < slen {
                out.append("\n");
            }
        }
        let next: usize = match nl {
            Some(n) => n + 1,
            None => slen,
        };
        proof {
            reveal_strlit("\n");
            let tail = s.subrange(next as int, slen as int);
            match nl {
                Some(n) => {
                    assert(rest[n - pos] == '\n');
                    assert forall|m: int| 0 <= m < n - pos implies rest[m] != '\n' by {
                        assert(rest[m] == s[pos + m]);
                    }
                    lemma_first_nl_is(rest, n - pos);
                    assert(rest.subrange(n - pos + 1, rest.len() as int) =~= tail);
                    if dead(line) {
                        assert(remove_lines(rest, dead) == remove_lines(tail, dead));
                        assert(out@ == out0);
                    } else {
                        assert(remove_lines(rest, dead) == line + seq!['\n'] + remove_lines(
                            tail,
                            dead,
                        ));
                        assert(out@ =~= out0 + line + seq!['\n']);
                    }
                },
                None => {
                    assert(rest.len() > 0);
                    assert forall|m: int| 0 <= m < rest.len() implies rest[m] != '\n' by {
                        assert(rest[m] == s[pos + m]);
                    }
                    lemma_first_nl_bounds(rest);
                    assert(rest =~= line);
                    assert(tail.len() == 0);
                    if dead(line) {
                        assert(remove_lines(rest, dead) =~= Seq::<char>::empty());
                        assert(out@ == out0);
                    } else {
                        assert(remove_lines(rest, dead) == rest);
                        assert(out@ =~= out0 + line);
                    }
                    assert(remove_lines(tail, dead) =~= Seq::<char>::empty());
                },
            }
            assert(out@ + remove_lines(tail, dead) =~= out0 + remove_lines(rest, dead));
        }
        pos = next;
    }
    proof {
        assert(s.subrange(pos as int, slen as int).len() == 0);
        assert(remove_lines(s.subrange(pos as int, slen as int), dead) =~= Seq::<char>::empty());
        assert(out@ + Seq::<char>::empty() =~= out@);
    }
    out
}

/// The `{{name}}` placeholder of a field name.
pub open spec fn placeholder_of(name: Seq<char>) -> Seq<char> {
    seq!['{', '{'] + name + seq!['}', '}']
}

/// One field applied to a body: an empty value removes every line holding
/// the placeholder, a non-empty value substitutes in place.
pub open spec fn field_step(body: Seq<char>, name: Seq<char>, value: Seq<char>) -> Seq<char> {
    if value.len() == 0 {
        remove_lines(body, line_holds(placeholder_of(name)))
    } else {
        replace_spec(body, placeholder_of(name), value)
    }
}

/// The first `n` configured fields applied to a body in order.
pub open spec fn apply_fields(
    body: Seq<char>,
    fields: Seq<crate::config::FormField>,
    values: Seq<(String, String)>,
    n: int,
) -> Seq<char>
    decreases n,
{
    if n <= 0 {
        body
    } else {
        field_step(
            apply_fields(body, fields, values, n - 1),
            fields[n - 1].name@,
            lookup(values, fields[n - 1].name@),
        )
    }
}

/// The tracking line placed before a tracked body.
pub open spec fn tracking_line(tag: Seq<char>, url: Seq<char>) -> Seq<char> {
    "Tracked by ["@ + tag + "]("@ + url + tag + ")\n\n"@
}

/// What `make_body` renders: each configured field applied in order, lines
/// of unclaimed placeholders removed, and — only when the PR is tracked and
/// a base URL is configured — the tracking line in front.
pub open spec fn make_body_spec(
    config: Config,
    tag: Seq<char>,
    is_jira: bool,
    values: Seq<(String, String)>,
) -> Seq<char> {
    let applied = apply_fields(
        config.template.body@,
        config.template.fields@,
        values,
        config.template.fields@.len() as int,
    );
    let cleaned = remove_lines(applied, |line: Seq<char>| has_placeholder(line));
    if is_jira {
        match config.jira.url {
            Some(u) => tracking_line(tag, u@) + cleaned,
            None => cleaned,
        }
    } else {
        cleaned
    }
}

/// Render the PR body: substitute each configured field's value, drop the
/// lines of empty or unclaimed placeholders, and put the tracking line in
/// front when the PR is tracked and a base URL is configured.
pub fn make_body(config: &Config, tag: &str, is_jira: bool, fields: &Vec<(String, String)>) -> (r:
    String)
    ensures
        r@ == make_body_spec(*config, tag@, is_jira, fields@),
{
    let mut body: String = config.template.body.clone();
    let mut n: usize = 0;
    while n < config.template.fields.len()
        invariant
            n <= config.template.fields@.len(),
            body@ == apply_fields(
                config.template.body@,
                config.template.fields@,
                fields@,
                n as int,
            ),
        decreases config.template.fields@.len() - n,
    {
        let f = &config.template.fields[n];
        let mut ph = String::new();
        ph.append("{{");
        ph.append(f.name.as_str());
        ph.append("}}");
        proof {
            reveal_strlit("{{");
            reveal_strlit("}}");
            assert(ph@ =~= placeholder_of(f.name@));
        }
        let val_opt = lookup_value(fields, f.name.as_str());
        let empty_val = match val_opt {
            Some(v) => v.unicode_len() == 0,
            None => true,
        };
        if empty_val {
            body = remove_placeholder_line(body.as_str(), ph.as_str());
        } else {
            let v = match val_opt {
                Some(v) => v,
                None => "",
            };
            body = replace_all(body.as_str(), ph.as_str(), v);
        }
        n += 1;
    }
    body = remove_empty_placeholders(body.as_str());
    if is_jira {
        // the tracking line goes in front only when a base URL is configured
        match config.jira_url() {
            Some(url) => {
                let ghost cleaned = body@;
                let mut t = String::new();
                t.append("Tracked by [");
                t.append(tag);
                t.append("](");
                t.append(url);
                t.append(tag);
                t.append(")\n\n");
                t.append(body.as_str());
                proof {
                    assert(t@ =~= tracking_line(tag@, url@) + cleaned);
                }
                return t;
            },
            None => {},
        }
    }
    body
}

/// Position `i` begins a line of `s`.
pub open spec fn line_start(s: Seq<char>, i: int) -> bool {
    i == 0 || s[i - 1] == '\n'
}

/// The start marker occurs at a line start.
pub open spec fn start_match(s: Seq<char>, m: Seq<char>, i: int) -> bool {
    line_start(s, i) && contains_at(s, m, i)
}

/// The end marker occurs and its last character ends a line.
pub open spec fn end_match(s: Seq<char>, m: Seq<char>, k: int) -> bool {
    contains_at(s, m, k) && (k + m.len() == s.len() || s[k + m.len()] == '\n')
}

/// `s` with every leading slash removed.
pub open spec fn strip_slashes(s: Seq<char>) -> Seq<char>
    decreases s.len(),
{
    if s.len() > 0 && s[0] == '/' {
        strip_slashes(s.drop_first())
    } else {
        s
    }
}

/// The list entry of one related PR: its resource path without leading
/// slashes, the current PR annotated.
pub open spec fn entry_of(pr: crate::github::PullRequest, this: u32) -> Seq<char> {
    "- "@ + strip_slashes(pr.resource_path@) + (if pr.number == this {
        " - (this pr)"@
    } else {
        Seq::empty()
    })
}

/// The first `n` entries, each on a line of its own.
pub open spec fn entries_prefix(prs: Seq<crate::github::PullRequest>, this: u32, n: int) -> Seq<
    char,
>
    decreases n,
{
    if n <= 0 {
        Seq::empty()
    } else {
        entries_prefix(prs, this, n - 1) + "\n"@ + entry_of(prs[n - 1], this)
    }
}

/// The freshly generated related-PR block: start marker, one entry per
/// line, end marker.
pub open spec fn block_spec(
    startm: Seq<char>,
    endm: Seq<char>,
    prs: Seq<crate::github::PullRequest>,
    this: u32,
) -> Seq<char> {
    startm + entries_prefix(prs, this, prs.len() as int) + "\n"@ + endm
}

/// What `replace_related_prs` returns: the span from the first start
/// marker at a line start through the last end marker at a line end is
/// replaced by the freshly generated block; a body without such a span is
/// returned unchanged.
pub open spec fn replace_related_spec(
    s: Seq<char>,
    startm: Seq<char>,
    endm: Seq<char>,
    prs: Seq<crate::github::PullRequest>,
    this: u32,
) -> Seq<char> {
    if exists|i: int| start_match(s, startm, i) {
        let i = choose|i: int|
            start_match(s, startm, i) && (forall|j: int| 0 <= j < i ==> !start_match(s, startm, j));
        if exists|k: int| end_match(s, endm, k) && k >= i + startm.len() {
            let k = choose|k: int|
                end_match(s, endm, k) && k >= i + startm.len() && (forall|k2: int|
                    end_match(s, endm, k2) && k2 >= i + startm.len() ==> k2 <= k);
            s.subrange(0, i) + block_spec(startm, endm, prs, this) + s.skip(k + endm.len() as int)
        } else {
            s
        }
    } else {
        s
    }
}

/// Rendering with tracking enabled but no base URL configured emits no
/// tracking line: the body reads exactly as for an untracked PR.
pub proof fn lemma_no_url_no_tracking(
    config: Config,
    tag: Seq<char>,
    values: Seq<(String, String)>,
)
    requires
        config.jira.url is None,
    ensures
        make_body_spec(config, tag, true, values) == make_body_spec(config, tag, false, values),
{
}

/// Removing the lines that hold a placeholder removes the placeholder
/// entirely: it cannot survive anywhere in the result, since it spans no
/// line break.
pub proof fn lemma_removed_placeholder_gone(s: Seq<char>, pat: Seq<char>)
    requires
        pat.len() > 0,
        forall|q: int| 0 <= q < pat.len() ==> pat[q] != '\n',
    ensures
        !contains_seq(remove_lines(s, line_holds(pat)), pat),
    decreases s.len(),
{
    let dead = line_holds(pat);
    let out = remove_lines(s, dead);
    lemma_first_nl_bounds(s);
    if s.len() == 0 {
        assert forall|t: int| !contains_at(out, pat, t) by {}
    } else if first_nl(s) >= 0 {
        let n = first_nl(s);
        let line = s.subrange(0, n);
        let rest = s.subrange(n + 1, s.len() as int);
        lemma_removed_placeholder_gone(rest, pat);
        let sub = remove_lines(rest, dead);
        if dead(line) {
            assert(out == sub);
        } else {
            assert(out == line + seq!['\n'] + sub);
            assert forall|t: int| !contains_at(out, pat, t) by {
                if contains_at(out, pat, t) {
                    if t + pat.len() <= n {
                        assert(line.subrange(t, t + pat.len() as int) =~= out.subrange(
                            t,
                            t + pat.len() as int,
                        ));
                        assert(contains_at(line, pat, t));
                        assert(contains_seq(line, pat));
                    } else if t <= n {
                        assert(out[n] == '\n');
                        assert(out.subrange(t, t + pat.len() as int)[n - t] == out[n]);
                        assert(pat[n - t] == '\n');
                    } else {
                        assert(sub.subrange(t - n - 1, t - n - 1 + pat.len() as int)
                            =~= out.subrange(t, t + pat.len() as int));
                        assert(contains_at(sub, pat, t - n - 1));
                        assert(contains_seq(sub, pat));
                    }
                }
            }
        }
    } else {
        if dead(s) {
            assert(out.len() == 0);
            assert forall|t: int| !contains_at(out, pat, t) by {}
        } else {
            assert(out == s);
            assert(!contains_seq(s, pat));
        }
    }
}

/// A start-match position admits a least one.
proof fn lemma_min_start_exists(s: Seq<char>, m: Seq<char>, i: int)
    requires
        start_match(s, m, i),
    ensures
        exists|im: int|
            start_match(s, m, im) && (forall|j: int| 0 <= j < im ==> !start_match(s, m, j)),
    decreases i,
{
    if exists|j: int| 0 <= j < i && start_match(s, m, j) {
        let j = choose|j: int| 0 <= j < i && start_match(s, m, j);
        lemma_min_start_exists(s, m, j);
    } else {
        assert(start_match(s, m, i) && (forall|j: int| 0 <= j < i ==> !start_match(s, m, j)));
    }
}

/// An end-match position at or after `lo` admits a greatest one.
proof fn lemma_max_end_exists(s: Seq<char>, m: Seq<char>, lo: int, k: int)
    requires
        end_match(s, m, k),
        k >= lo,
    ensures
        exists|km: int|
            end_match(s, m, km) && km >= lo && (forall|k2: int|
                end_match(s, m, k2) && k2 >= lo ==> k2 <= km),
    decreases s.len() - k,
{
    if exists|k2: int| end_match(s, m, k2) && k2 >= lo && k2 > k {
        let k2 = choose|k2: int| end_match(s, m, k2) && k2 >= lo && k2 > k;
        lemma_max_end_exists(s, m, lo, k2);
    } else {
        assert(end_match(s, m, k) && k >= lo && (forall|k2: int|
            end_match(s, m, k2) && k2 >= lo ==> k2 <= k));
    }
}

/// The minimal start and maximal end, as found, pin the rewrite.
proof fn lemma_rewrite_pins(
    s: Seq<char>,
    startm: Seq<char>,
    endm: Seq<char>,
    prs: Seq<crate::github::PullRequest>,
    this: u32,
    i: int,
    k: int,
)
    requires
        start_match(s, startm, i),
        forall|j: int| 0 <= j < i ==> !start_match(s, startm, j),
        end_match(s, endm, k),
        k >= i + startm.len(),
        forall|k2: int| end_match(s, endm, k2) && k2 >= i + startm.len() ==> k2 <= k,
    ensures
        replace_related_spec(s, startm, endm, prs, this) == s.subrange(0, i) + block_spec(
            startm,
            endm,
            prs,
            this,
        ) + s.skip(k + endm.len() as int),
{
    assert(exists|i2: int| start_match(s, startm, i2));
    let i0 = choose|i0: int|
        start_match(s, startm, i0) && (forall|j: int| 0 <= j < i0 ==> !start_match(s, startm, j));
    assert(start_match(s, startm, i) && (forall|j: int| 0 <= j < i ==> !start_match(s, startm, j)));
    assert(i0 == i);
    assert(exists|k2: int| end_match(s, endm, k2) && k2 >= i0 + startm.len());
    let k0 = choose|k0: int|
        end_match(s, endm, k0) && k0 >= i0 + startm.len() && (forall|k2: int|
            end_match(s, endm, k2) && k2 >= i0 + startm.len() ==> k2 <= k0);
    assert(end_match(s, endm, k) && k >= i0 + startm.len() && (forall|k2: int|
        end_match(s, endm, k2) && k2 >= i0 + startm.len() ==> k2 <= k));
    assert(k0 <= k && k <= k0);
}

/// How the rewritten body reads around the fresh block.
#[verifier::rlimit(100)]
#[verifier::spinoff_prover]
proof fn lemma_rewritten_layout(
    s: Seq<char>,
    startm: Seq<char>,
    endm: Seq<char>,
    prs: Seq<crate::github::PullRequest>,
    this: u32,
    i: int,
    k: int,
    once: Seq<char>,
)
    requires
        start_match(s, startm, i),
        end_match(s, endm, k),
        k >= i + startm.len(),
        once == s.subrange(0, i) + block_spec(startm, endm, prs, this) + s.skip(
            k + endm.len() as int,
        ),
    ensures
        ({
            let b = block_spec(startm, endm, prs, this);
            let q = i + b.len() - endm.len();
            &&& b.len() >= startm.len() + endm.len() + 1
            &&& once.len() == q + endm.len() + (s.len() - k - endm.len())
            &&& (forall|m: int| 0 <= m < i ==> once[m] == s[m])
            &&& (forall|m: int| i <= m < i + b.len() ==> once[m] == b[m - i])
            &&& (forall|t: int| 0 <= t < startm.len() ==> b[t] == startm[t])
            &&& (forall|t: int| 0 <= t < endm.len() ==> b[q - i + t] == endm[t])
            &&& (forall|m: int| q <= m < once.len() ==> once[m] == s[k + (m - q)])
        }),
{
    reveal_strlit("\n");
    let b = block_spec(startm, endm, prs, this);
    let sl = startm.len() as int;
    let el = endm.len() as int;
    let e = entries_prefix(prs, this, prs.len() as int).len() as int;
    let q = i + b.len() - el;
    assert(b.len() == sl + e + 1 + el);
    assert(q == i + sl + e + 1);
    assert forall|t: int| 0 <= t < sl implies b[t] == startm[t] by {
        assert(b.subrange(0, sl) =~= startm);
        assert(b.subrange(0, sl)[t] == b[t]);
    }
    assert forall|t: int| 0 <= t < el implies b[q - i + t] == endm[t] by {
        assert(b.subrange(sl + e + 1, b.len() as int) =~= endm);
        assert(b.subrange(sl + e + 1, b.len() as int)[t] == b[sl + e + 1 + t]);
    }
    assert forall|m: int| q <= m < once.len() implies once[m] == s[k + (m - q)] by {
        if m < q + el {
            assert(once[m] == b[m - i]);
            assert(b[m - i] == endm[m - q]);
            assert(s.subrange(k, k + el) == endm);
            assert(s.subrange(k, k + el)[m - q] == s[k + (m - q)]);
        } else {
            assert(once[m] == s.skip(k + el)[m - (i + b.len())]);
        }
    }
}

/// In the rewritten body, the first start marker stands where it stood.
#[verifier::rlimit(100)]
#[verifier::spinoff_prover]
proof fn lemma_rewritten_start(
    s: Seq<char>,
    startm: Seq<char>,
    endm: Seq<char>,
    prs: Seq<crate::github::PullRequest>,
    this: u32,
    i: int,
    k: int,
    once: Seq<char>,
)
    requires
        start_match(s, startm, i),
        forall|j: int| 0 <= j < i ==> !start_match(s, startm, j),
        end_match(s, endm, k),
        k >= i + startm.len(),
        once == s.subrange(0, i) + block_spec(startm, endm, prs, this) + s.skip(
            k + endm.len() as int,
        ),
    ensures
        start_match(once, startm, i),
        forall|j: int| 0 <= j < i ==> !start_match(once, startm, j),
{
    lemma_rewritten_layout(s, startm, endm, prs, this, i, k, once);
    let b = block_spec(startm, endm, prs, this);
    let sl = startm.len() as int;
    assert(once.subrange(i, i + sl) =~= startm);
    assert(start_match(once, startm, i)) by {
        if i > 0 {
            assert(once[i - 1] == s[i - 1]);
        }
    }
    assert forall|j: int| 0 <= j < i implies !start_match(once, startm, j) by {
        if start_match(once, startm, j) {
            assert forall|m: int| j <= m < j + sl implies once[m] == s[m] by {
                if m >= i {
                    assert(once[m] == b[m - i]);
                    assert(b[m - i] == startm[m - i]);
                    assert(s.subrange(i, i + sl) == startm);
                    assert(s.subrange(i, i + sl)[m - i] == s[m]);
                }
            }
            assert(s.subrange(j, j + sl) =~= once.subrange(j, j + sl));
            assert(contains_at(s, startm, j));
            if j > 0 {
                assert(s[j - 1] == once[j - 1]);
            }
            assert(start_match(s, startm, j));
        }
    }
}

/// In the rewritten body, the last end marker closes the fresh block.
#[verifier::rlimit(100)]
#[verifier::spinoff_prover]
proof fn lemma_rewritten_end(
    s: Seq<char>,
    startm: Seq<char>,
    endm: Seq<char>,
    prs: Seq<crate::github::PullRequest>,
    this: u32,
    i: int,
    k: int,
    once: Seq<char>,
)
    requires
        start_match(s, startm, i),
        end_match(s, endm, k),
        k >= i + startm.len(),
        forall|k2: int| end_match(s, endm, k2) && k2 >= i + startm.len() ==> k2 <= k,
        once == s.subrange(0, i) + block_spec(startm, endm, prs, this) + s.skip(
            k + endm.len() as int,
        ),
    ensures
        ({
            let q = i + block_spec(startm, endm, prs, this).len() - endm.len();
            &&& end_match(once, endm, q)
            &&& q >= i + startm.len()
            &&& (forall|k2: int| end_match(once, endm, k2) && k2 >= i + startm.len() ==> k2 <= q)
        }),
{
    lemma_rewritten_layout(s, startm, endm, prs, this, i, k, once);
    let b = block_spec(startm, endm, prs, this);
    let sl = startm.len() as int;
    let el = endm.len() as int;
    let q = i + b.len() - el;
    assert(once.subrange(q, q + el) =~= endm);
    assert(end_match(once, endm, q)) by {
        if q + el < once.len() {
            assert(once[q + el] == s[k + el]);
        }
    }
    assert forall|k2: int| end_match(once, endm, k2) && k2 >= i + sl implies k2 <= q by {
        if k2 > q {
            let d = k2 - q;
            assert forall|m: int| k2 <= m < k2 + el implies once[m] == s[k + (m - q)] by {}
            assert(s.subrange(k + d, k + d + el) =~= once.subrange(k2, k2 + el));
            assert(contains_at(s, endm, k + d));
            if k2 + el < once.len() {
                assert(once[k2 + el] == s[k + d + el]);
                assert(end_match(s, endm, k + d));
            } else {
                assert(k + d + el == s.len());
                assert(end_match(s, endm, k + d));
            }
            assert(k + d <= k);
            assert(false);
        }
    }
}

/// Rewriting the related-PR block is idempotent: rewriting a body a second
/// time with the same PR list returns it byte for byte, with no leftover
/// or duplicated markers.
#[verifier::rlimit(100)]
#[verifier::spinoff_prover]
pub proof fn lemma_rewrite_idempotent(
    s: Seq<char>,
    startm: Seq<char>,
    endm: Seq<char>,
    prs: Seq<crate::github::PullRequest>,
    this: u32,
    once: Seq<char>,
)
    requires
        once == replace_related_spec(s, startm, endm, prs, this),
    ensures
        replace_related_spec(once, startm, endm, prs, this) == once,
{
    let sl = startm.len() as int;
    let el = endm.len() as int;
    if !(exists|i: int| start_match(s, startm, i)) {
        assert(once == s);
    } else {
        let iw = choose|i: int| start_match(s, startm, i);
        lemma_min_start_exists(s, startm, iw);
        let i = choose|i: int|
            start_match(s, startm, i) && (forall|j: int| 0 <= j < i ==> !start_match(s, startm, j));
        if !(exists|k: int| end_match(s, endm, k) && k >= i + sl) {
            assert(once == s);
        } else {
            let kw = choose|k: int| end_match(s, endm, k) && k >= i + sl;
            lemma_max_end_exists(s, endm, i + sl, kw);
            let k = choose|k: int|
                end_match(s, endm, k) && k >= i + sl && (forall|k2: int|
                    end_match(s, endm, k2) && k2 >= i + sl ==> k2 <= k);
            lemma_rewrite_pins(s, startm, endm, prs, this, i, k);
            let b = block_spec(startm, endm, prs, this);
            let q = i + b.len() - el;
            lemma_rewritten_layout(s, startm, endm, prs, this, i, k, once);
            lemma_rewritten_start(s, startm, endm, prs, this, i, k, once);
            lemma_rewritten_end(s, startm, endm, prs, this, i, k, once);
            lemma_rewrite_pins(once, startm, endm, prs, this, i, q);
            assert(once.subrange(0, i) =~= s.subrange(0, i));
            assert(once.skip(q + el) =~= s.skip(k + el));
            assert(once.subrange(0, i) + b + once.skip(q + el) == once);
        }
    }
}

/// The first start-marker occurrence at a line start, if any.
fn find_first_start(s: &str, m: &str) -> (r: Option<usize>)
    ensures
        match r {
            Some(i) => start_match(s@, m@, i as int) && (forall|j: int|
                0 <= j < i ==> !start_match(s@, m@, j)),
            None => forall|j: int| !start_match(s@, m@, j),
        },
{
    let slen = s.unicode_len();
    let ml = m.unicode_len();
    if ml > slen {
        proof {
            assert forall|j: int| !start_match(s@, m@, j) by {}
        }
        return None;
    }
    if ml == 0 {
        proof {
            assert(s@.subrange(0, 0) =~= m@);
            assert(start_match(s@, m@, 0));
        }
        return Some(0);
    }
    let mut i: usize = 0;
    while i <= slen - ml
        invariant
            0 <= i,
            i <= slen - ml + 1,
            slen == s@.len(),
            ml == m@.len(),
            1 <= ml <= slen,
            forall|j: int| 0 <= j < i ==> !start_match(s@, m@, j),
        decreases slen - ml - i + 1,
    {
        let at_line_start = i == 0 || s.get_char(i - 1) == '\n';
        if at_line_start && match_at(s, m, i) {
            return Some(i);
        }
        i += 1;
    }
    proof {
        assert forall|j: int| !start_match(s@, m@, j) by {
            if start_match(s@, m@, j) {
                assert(j + ml <= slen);
                assert(j < i);
            }
        }
    }
    None
}

/// The last end-marker occurrence at a line end at or after `lo`, if any.
fn find_last_end(s: &str, m: &str, lo: usize) -> (r: Option<usize>)
    requires
        lo <= s@.len(),
    ensures
        match r {
            Some(k) => end_match(s@, m@, k as int) && lo <= k && (forall|k2: int|
                end_match(s@, m@, k2) && k2 >= lo ==> k2 <= k),
            None => forall|k2: int| k2 >= lo ==> !end_match(s@, m@, k2),
        },
{
    let slen = s.unicode_len();
    let ml = m.unicode_len();
    if ml > slen {
        proof {
            assert forall|k2: int| k2 >= lo implies !end_match(s@, m@, k2) by {}
        }
        return None;
    }
    if ml == 0 {
        proof {
            assert(s@.subrange(slen as int, slen as int) =~= m@);
            assert(end_match(s@, m@, slen as int));
        }
        return Some(slen);
    }
    if ml > slen - lo {
        proof {
            assert forall|k2: int| k2 >= lo implies !end_match(s@, m@, k2) by {}
        }
        return None;
    }
    let mut best: Option<usize> = None;
    let mut k: usize = lo;
    while k <= slen - ml
        invariant
            lo <= k,
            k <= slen - ml + 1,
            slen == s@.len(),
            ml == m@.len(),
            1 <= ml,
            ml <= slen - lo,
            match best {
                Some(bk) => end_match(s@, m@, bk as int) && lo <= bk && bk < k && (forall|k2: int|
                    end_match(s@, m@, k2) && lo <= k2 < k ==> k2 <= bk),
                None => forall|k2: int| lo <= k2 < k ==> !end_match(s@, m@, k2),
            },
        decreases slen - ml - k + 1,
    {
        if match_at(s, m, k) {
            let at_line_end = k + ml == slen || s.get_char(k + ml) == '\n';
            if at_line_end {
                best = Some(k);
            }
        }
        k += 1;
    }
    proof {
        match best {
            Some(bk) => {
                assert forall|k2: int| end_match(s@, m@, k2) && k2 >= lo implies k2 <= bk by {
                    assert(k2 + ml <= slen);
                    assert(k2 < k);
                }
            },
            None => {
                assert forall|k2: int| k2 >= lo implies !end_match(s@, m@, k2) by {
                    if end_match(s@, m@, k2) {
                        assert(k2 + ml <= slen);
                        assert(k2 < k);
                    }
                }
            },
        }
    }
    best
}

/// A resource path without its leading slashes.
fn strip_leading_slashes(s: &str) -> (r: String)
    ensures
        r@ == strip_slashes(s@),
{
    let slen = s.unicode_len();
    let mut j: usize = 0;
    proof {
        assert(s@.skip(0) =~= s@);
    }
    while j < slen && s.get_char(j) == '/'
        invariant
            j <= slen,
            slen == s@.len(),
            strip_slashes(s@) == strip_slashes(s@.skip(j as int)),
        decreases slen - j,
    {
        proof {
            assert(s@.skip(j as int).drop_first() =~= s@.skip(j + 1));
        }
        j += 1;
    }
    proof {
        if j < slen {
            assert(s@.skip(j as int)[0] == s@[j as int]);
        }
        assert(strip_slashes(s@) == s@.skip(j as int));
        assert(s@.subrange(j as int, slen as int) =~= s@.skip(j as int));
    }
    s.substring_char(j, slen).to_owned()
}

/// Build the fresh related-PR block for the given markers and PR list.
fn build_block(
    startm: &str,
    endm: &str,
    prs: &Vec<crate::github::PullRequest>,
    this: u32,
) -> (r: String)
    ensures
        r@ == block_spec(startm@, endm@, prs@, this),
{
    let mut out = startm.to_owned();
    let mut idx: usize = 0;
    proof {
        assert(out@ =~= startm@ + entries_prefix(prs@, this, 0));
    }
    while idx < prs.len()
        invariant
            idx <= prs@.len(),
            out@ == startm@ + entries_prefix(prs@, this, idx as int),
        decreases prs@.len() - idx,
    {
        let ghost out0 = out@;
        out.append("\n");
        out.append("- ");
        let stripped = strip_leading_slashes(prs[idx].resource_path.as_str());
        out.append(stripped.as_str());
        if prs[idx].number == this {
            out.append(" - (this pr)");
        }
        proof {
            assert(out@ =~= startm@ + entries_prefix(prs@, this, idx + 1));
        }
        idx += 1;
    }
    out.append("\n");
    out.append(endm);
    proof {
        assert(out@ =~= block_spec(startm@, endm@, prs@, this));
    }
    out
}

/// Rewrite the related-PR block of a body: the span from the first start
/// marker at a line start through the last end marker at a line end is
/// replaced, markers included, by a freshly generated list; each entry is
/// a normalized resource path and the entry of `this_pr_number` is
/// annotated. A body without such a span is returned unchanged.
pub fn replace_related_prs(
    config: &Config,
    body: &str,
    this_pr_number: &u32,
    related_prs: &Vec<crate::github::PullRequest>,
) -> (r: String)
    ensures
        r@ == replace_related_spec(
            body@,
            config.template.markers.related_pr_start@,
            config.template.markers.related_pr_end@,
            related_prs@,
            *this_pr_number,
        ),
{
    let ghost s = body@;
    let startm = config.template.markers.related_pr_start.as_str();
    let endm = config.template.markers.related_pr_end.as_str();
    let ghost sm = startm@;
    let ghost em = endm@;
    match find_first_start(body, startm) {
        None => {
            proof {
                assert(!(exists|i: int| start_match(s, sm, i)));
            }
            body.to_owned()
        },
        Some(i) => {
            let sl = startm.unicode_len();
            let slen = body.unicode_len();
            proof {
                assert(i + sl <= slen);
                assert(start_match(s, sm, i as int));
                let i0 = choose|i0: int|
                    start_match(s, sm, i0) && (forall|j: int|
                        0 <= j < i0 ==> !start_match(s, sm, j));
                assert(start_match(s, sm, i as int) && (forall|j: int|
                    0 <= j < i ==> !start_match(s, sm, j)));
                assert(i0 == i);
            }
            match find_last_end(body, endm, i + sl) {
                None => {
                    proof {
                        assert(!(exists|k: int| end_match(s, em, k) && k >= i + sm.len()));
                    }
                    body.to_owned()
                },
                Some(k) => {
                    let el = endm.unicode_len();
                    proof {
                        assert(k + el <= slen);
                        assert(end_match(s, em, k as int) && k >= i + sm.len());
                        let k0 = choose|k0: int|
                            end_match(s, em, k0) && k0 >= i + sm.len() && (forall|k2: int|
                                end_match(s, em, k2) && k2 >= i + sm.len() ==> k2 <= k0);
                        assert(end_match(s, em, k as int) && k >= i + sm.len() && (forall|k2: int|
                            end_match(s, em, k2) && k2 >= i + sm.len() ==> k2 <= k));
                        assert(k0 <= k && k <= k0);
                    }
                    let mut out = body.substring_char(0, i).to_owned();
                    let blk = build_block(startm, endm, related_prs, *this_pr_number);
                    out.append(blk.as_str());
                    let tail = body.substring_char(k + el, slen);
                    out.append(tail);
                    proof {
                        assert(tail@ =~= s.skip(k + em.len() as int));
                        assert(out@ =~= s.subrange(0, i as int) + block_spec(
                            sm,
                            em,
                            related_prs@,
                            *this_pr_number,
                        ) + s.skip(k + em.len() as int));
                    }
                    out
                },
            }
        },
    }
}

} // verus!
