//! The remote pull-request handle and the parsing of hosting-service URLs
//! into PR numbers and resource paths.

use vstd::prelude::*;

use crate::tags::{space_char, trim_back, trim_front, trim_spec};
use crate::text::{
    find_char_in, first_idx, is_prefix, lemma_first_idx_bounds, lemma_first_idx_is,
    lemma_split_nonempty, lemma_split_step, lemma_split_whole, match_at, split_spec, str_eq,
};

verus! {

/// A pull request already known to the hosting service; only its `body` is
/// ever rewritten.
#[derive(Debug, Clone)]
pub struct PullRequest {
    /// The stable node id.
    pub id: String,
    /// The title.
    pub title: String,
    /// The resource path (e.g. `/owner/repo/pull/123`).
    pub resource_path: String,
    /// The PR number.
    pub number: u32,
    /// The current body text.
    pub body: String,
}

/// An ASCII decimal digit.
pub open spec fn is_digit(c: char) -> bool {
    '0' <= c && c <= '9'
}

/// The numeric value of a digit character.
pub open spec fn digit_val(c: char) -> int {
    c as int - 48
}

/// Every character is a digit.
pub open spec fn all_digits(s: Seq<char>) -> bool {
    forall|q: int| 0 <= q < s.len() ==> is_digit(#[trigger] s[q])
}

/// The value of a digit string, most significant first.
pub open spec fn digits_val(s: Seq<char>) -> int
    decreases s.len(),
{
    if s.len() == 0 {
        0
    } else {
        digits_val(s.drop_last()) * 10 + digit_val(s.last())
    }
}

/// A digit string's value is never negative.
proof fn lemma_digits_val_nonneg(s: Seq<char>)
    requires
        all_digits(s),
    ensures
        digits_val(s) >= 0,
    decreases s.len(),
{
    if s.len() > 0 {
        assert(all_digits(s.drop_last()));
        lemma_digits_val_nonneg(s.drop_last());
        assert(is_digit(s.last()));
    }
}

/// A digit string is worth at least any of its prefixes.
proof fn lemma_digits_prefix_le(s: Seq<char>, m: int)
    requires
        all_digits(s),
        0 <= m <= s.len(),
    ensures
        digits_val(s.subrange(0, m)) <= digits_val(s),
    decreases s.len(),
{
    if m == s.len() {
        assert(s.subrange(0, m) =~= s);
    } else {
        let t = s.drop_last();
        assert(all_digits(t));
        assert(s.subrange(0, m) =~= t.subrange(0, m));
        lemma_digits_prefix_le(t, m);
        lemma_digits_val_nonneg(t);
        assert(is_digit(s.last()));
        assert(digits_val(t) * 10 >= digits_val(t)) by {
            assert(digits_val(t) * 10 - digits_val(t) == digits_val(t) * 9) by (nonlinear_arith);
            assert(digits_val(t) * 9 >= 0) by (nonlinear_arith)
                requires
                    digits_val(t) >= 0,
            ;
        }
    }
}

/// What `parse_u32` accepts: an optional leading plus sign, then one or
/// more digits whose value fits.
pub open spec fn parse_u32_spec(s: Seq<char>) -> Option<u32> {
    let body = if s.len() > 0 && s[0] == '+' {
        s.drop_first()
    } else {
        s
    };
    if body.len() > 0 && all_digits(body) && digits_val(body) <= u32::MAX {
        Some(digits_val(body) as u32)
    } else {
        None
    }
}

/// Exec mirror of [`is_digit`].
fn digit_char_exec(c: char) -> (r: bool)
    ensures
        r == is_digit(c),
{
    '0' <= c && c <= '9'
}

/// Parse an unsigned decimal number: an optional leading plus sign, then
/// one or more digits; fails on any other character or when the value does
/// not fit.
pub fn parse_u32(s: &str) -> (r: Option<u32>)
    ensures
        r == parse_u32_spec(s@),
{
    let slen = s.unicode_len();
    let start: usize = if slen > 0 && s.get_char(0) == '+' {
        1
    } else {
        0
    };
    let ghost body = if s@.len() > 0 && s@[0] == '+' {
        s@.drop_first()
    } else {
        s@
    };
    proof {
        assert(body =~= s@.subrange(start as int, slen as int));
    }
    if start == slen {
        return None;
    }
    let mut acc: u32 = 0;
    let mut i: usize = start;
    proof {
        assert(s@.subrange(start as int, start as int) =~= Seq::<char>::empty());
    }
    while i < slen
        invariant
            start <= i <= slen,
            start < slen,
            slen == s@.len(),
            body == s@.subrange(start as int, slen as int),
            body == (if s@.len() > 0 && s@[0] == '+' {
                s@.drop_first()
            } else {
                s@
            }),
            all_digits(s@.subrange(start as int, i as int)),
            acc == digits_val(s@.subrange(start as int, i as int)),
        decreases slen - i,
    {
        let ghost pre = s@.subrange(start as int, i as int);
        let c = s.get_char(i);
        if !digit_char_exec(c) {
            proof {
                assert(body[i - start] == c);
                assert(!is_digit(body[i - start]));
                assert(!all_digits(body));
            }
            return None;
        }
        let d: u32 = (c as u32) - 48;
        proof {
            assert(is_digit(c));
            assert(d == digit_val(c));
            assert(d <= 9);
            assert(s@.subrange(start as int, i + 1).drop_last() =~= pre);
            assert(s@.subrange(start as int, i + 1).last() == c);
            assert(digits_val(s@.subrange(start as int, i + 1)) == acc * 10 + d);
        }
        if acc > (u32::MAX - d) / 10 {
            proof {
                assert(acc * 10 + d > u32::MAX) by (nonlinear_arith)
                    requires
                        acc > (u32::MAX - d) / 10,
                        d <= 9,
                ;
                if all_digits(body) && digits_val(body) <= u32::MAX {
                    lemma_digits_prefix_le(body, i + 1 - start);
                    assert(body.subrange(0, i + 1 - start) =~= s@.subrange(start as int, i + 1));
                    assert(false);
                }
            }
            return None;
        }
        proof {
            assert(acc * 10 + d <= u32::MAX) by (nonlinear_arith)
                requires
                    acc <= (u32::MAX - d) / 10,
                    d <= 9,
            ;
            assert forall|q: int| 0 <= q < i + 1 - start implies is_digit(
                #[trigger] s@.subrange(start as int, i + 1)[q],
            ) by {
                if q < i - start {
                    assert(pre[q] == s@.subrange(start as int, i + 1)[q]);
                }
            }
        }
        acc = acc * 10 + d;
        i += 1;
    }
    proof {
        assert(s@.subrange(start as int, slen as int) == body);
        assert(parse_u32_spec(s@) == Some(digits_val(body) as u32));
    }
    Some(acc)
}

/// The digit character of a value below ten.
pub open spec fn digit_char(d: int) -> char {
    if d == 0 {
        '0'
    } else if d == 1 {
        '1'
    } else if d == 2 {
        '2'
    } else if d == 3 {
        '3'
    } else if d == 4 {
        '4'
    } else if d == 5 {
        '5'
    } else if d == 6 {
        '6'
    } else if d == 7 {
        '7'
    } else if d == 8 {
        '8'
    } else {
        '9'
    }
}

/// The decimal form of a number, no sign, no leading zero except for zero
/// itself.
pub open spec fn dec_str(n: int) -> Seq<char>
    decreases n,
{
    if n < 0 {
        Seq::empty()
    } else if n < 10 {
        seq![digit_char(n)]
    } else {
        dec_str(n / 10).push(digit_char(n % 10))
    }
}

/// The string slice holding one digit.
fn digit_str(d: u32) -> (r: &'static str)
    requires
        d < 10,
    ensures
        r@ == seq![digit_char(d as int)],
{
    let r: &'static str = if d == 0 {
        "0"
    } else if d == 1 {
        "1"
    } else if d == 2 {
        "2"
    } else if d == 3 {
        "3"
    } else if d == 4 {
        "4"
    } else if d == 5 {
        "5"
    } else if d == 6 {
        "6"
    } else if d == 7 {
        "7"
    } else if d == 8 {
        "8"
    } else {
        "9"
    };
    proof {
        reveal_strlit("0");
        reveal_strlit("1");
        reveal_strlit("2");
        reveal_strlit("3");
        reveal_strlit("4");
        reveal_strlit("5");
        reveal_strlit("6");
        reveal_strlit("7");
        reveal_strlit("8");
        reveal_strlit("9");
        assert(r@ =~= seq![digit_char(d as int)]);
    }
    r
}

/// The decimal form of a number.
pub fn u32_to_string(n: u32) -> (r: String)
    ensures
        r@ == dec_str(n as int),
    decreases n,
{
    if n < 10 {
        digit_str(n).to_owned()
    } else {
        let mut s = u32_to_string(n / 10);
        s.append(digit_str(n % 10));
        proof {
            assert(s@ =~= dec_str((n / 10) as int).push(digit_char((n % 10) as int)));
        }
        s
    }
}

/// What a hosting-service path yields: split on slashes, the third piece
/// must read `pull`, the fourth must parse as the PR number; the resource
/// path is rebuilt from the owner, the repository and the parsed number.
pub open spec fn pr_from_path(path: Seq<char>) -> Option<(u32, Seq<char>)> {
    let parts = split_spec(path, '/');
    if parts.len() >= 4 && parts[2] == "pull"@ {
        match parse_u32_spec(parts[3]) {
            Some(num) => Some(
                (num, "/"@ + parts[0] + "/"@ + parts[1] + "/pull/"@ + dec_str(num as int)),
            ),
            None => None,
        }
    } else {
        None
    }
}

/// What `parse_pr_url` accepts: the trimmed URL must carry the service
/// prefix, and its path must name a pull request.
pub open spec fn parse_pr_url_spec(url: Seq<char>) -> Option<(u32, Seq<char>)> {
    let t = trim_spec(url);
    if is_prefix(t, "https://github.com/"@) {
        pr_from_path(t.skip("https://github.com/"@.len() as int))
    } else if is_prefix(t, "http://github.com/"@) {
        pr_from_path(t.skip("http://github.com/"@.len() as int))
    } else {
        None
    }
}

/// The pull-request number and resource path named by `url[ps..hi)`.
fn pr_from_path_range(url: &str, ps: usize, hi: usize) -> (r: Option<(u32, String)>)
    requires
        ps <= hi <= url@.len(),
    ensures
        match r {
            Some(p) => pr_from_path(url@.subrange(ps as int, hi as int)) matches Some(q) && p.0
                == q.0 && p.1@ == q.1,
            None => pr_from_path(url@.subrange(ps as int, hi as int)) is None,
        },
{
    let ghost u = url@;
    let ghost path = u.subrange(ps as int, hi as int);
    let ghost parts = split_spec(path, '/');
    let s1 = find_char_in(url, '/', ps, hi);
    let e1: usize = match s1 {
        Some(e) => e,
        None => {
            proof {
                lemma_split_whole(u, ps as int, hi as int, '/');
            }
            return None;
        },
    };
    proof {
        lemma_split_step(u, ps as int, e1 as int, hi as int, '/');
    }
    let s2 = find_char_in(url, '/', e1 + 1, hi);
    let e2: usize = match s2 {
        Some(e) => e,
        None => {
            proof {
                lemma_split_whole(u, e1 + 1, hi as int, '/');
            }
            return None;
        },
    };
    proof {
        lemma_split_step(u, e1 + 1, e2 as int, hi as int, '/');
    }
    let s3 = find_char_in(url, '/', e2 + 1, hi);
    let e3: usize = match s3 {
        Some(e) => e,
        None => {
            proof {
                lemma_split_whole(u, e2 + 1, hi as int, '/');
            }
            return None;
        },
    };
    proof {
        lemma_split_step(u, e2 + 1, e3 as int, hi as int, '/');
    }
    let s4 = find_char_in(url, '/', e3 + 1, hi);
    let e4: usize = match s4 {
        Some(e) => e,
        None => hi,
    };
    let ghost v0 = u.subrange(ps as int, e1 as int);
    let ghost v1 = u.subrange(e1 + 1, e2 as int);
    let ghost v2 = u.subrange(e2 + 1, e3 as int);
    let ghost v3 = u.subrange(e3 + 1, e4 as int);
    let ghost tail3 = split_spec(u.subrange(e3 + 1, hi as int), '/');
    proof {
        match s4 {
            Some(e) => {
                lemma_split_step(u, e3 + 1, e4 as int, hi as int, '/');
                assert(tail3[0] == v3);
            },
            None => {
                lemma_split_whole(u, e3 + 1, hi as int, '/');
                assert(tail3[0] == v3);
            },
        }
        lemma_split_nonempty(u.subrange(e3 + 1, hi as int), '/');
        assert(parts =~= seq![v0, v1, v2] + tail3);
        assert(parts.len() >= 4);
        assert(parts[2] == v2);
        assert(parts[3] == tail3[0]);
    }
    let piece2 = url.substring_char(e2 + 1, e3);
    if !str_eq(piece2, "pull") {
        return None;
    }
    let piece3 = url.substring_char(e3 + 1, e4);
    match parse_u32(piece3) {
        None => None,
        Some(num) => {
            let mut rp = String::new();
            rp.append("/");
            rp.append(url.substring_char(ps, e1));
            rp.append("/");
            rp.append(url.substring_char(e1 + 1, e2));
            rp.append("/pull/");
            let ns = u32_to_string(num);
            rp.append(ns.as_str());
            proof {
                assert(rp@ =~= "/"@ + v0 + "/"@ + v1 + "/pull/"@ + dec_str(num as int));
            }
            Some((num, rp))
        },
    }
}

/// Parse a pull-request URL (e.g. `https://github.com/owner/repo/pull/123`)
/// into the PR number and the normalized resource path
/// (`/owner/repo/pull/123`); surrounding whitespace is ignored.
pub fn parse_pr_url(url: &str) -> (r: Option<(u32, String)>)
    ensures
        match r {
            Some(p) => parse_pr_url_spec(url@) matches Some(q) && p.0 == q.0 && p.1@ == q.1,
            None => parse_pr_url_spec(url@) is None,
        },
{
    let ghost u = url@;
    let ulen = url.unicode_len();
    let mut lo: usize = 0;
    let mut hi: usize = ulen;
    proof {
        assert(u.subrange(0, ulen as int) =~= u);
    }
    while lo < hi && space_char(url.get_char(lo))
        invariant
            0 <= lo <= hi,
            hi == ulen,
            ulen == u.len(),
            u == url@,
            trim_front(u) == trim_front(u.subrange(lo as int, ulen as int)),
        decreases hi - lo,
    {
        proof {
            assert(u.subrange(lo as int, ulen as int).drop_first() =~= u.subrange(
                lo + 1,
                ulen as int,
            ));
        }
        lo += 1;
    }
    proof {
        if lo < ulen {
            assert(u.subrange(lo as int, ulen as int)[0] == u[lo as int]);
        }
        assert(trim_front(u) == u.subrange(lo as int, ulen as int));
    }
    while hi > lo && space_char(url.get_char(hi - 1))
        invariant
            lo <= hi <= ulen,
            ulen == u.len(),
            u == url@,
            trim_front(u) == u.subrange(lo as int, ulen as int),
            trim_back(u.subrange(lo as int, ulen as int)) == trim_back(
                u.subrange(lo as int, hi as int),
            ),
        decreases hi,
    {
        proof {
            assert(u.subrange(lo as int, hi as int).drop_last() =~= u.subrange(
                lo as int,
                hi - 1,
            ));
        }
        hi -= 1;
    }
    proof {
        if lo < hi {
            assert(u.subrange(lo as int, hi as int).last() == u[hi - 1]);
        }
        assert(trim_spec(u) == u.subrange(lo as int, hi as int));
    }
    let ghost t = u.subrange(lo as int, hi as int);
    let hs = "https://github.com/";
    let hp = "http://github.com/";
    let hslen = hs.unicode_len();
    let hplen = hp.unicode_len();
    if hslen <= hi - lo && match_at(url, hs, lo) {
        proof {
            assert(t.subrange(0, hslen as int) =~= u.subrange(lo as int, lo + hslen));
            assert(is_prefix(t, hs@));
            assert(t.skip(hslen as int) =~= u.subrange(lo + hslen, hi as int));
        }
        pr_from_path_range(url, lo + hslen, hi)
    } else if hplen <= hi - lo && match_at(url, hp, lo) {
        proof {
            assert(t.subrange(0, hplen as int) =~= u.subrange(lo as int, lo + hplen));
            assert(is_prefix(t, hp@));
            if hslen <= t.len() {
                assert(t.subrange(0, hslen as int) =~= u.subrange(lo as int, lo + hslen));
            }
            assert(!is_prefix(t, hs@));
            assert(t.skip(hplen as int) =~= u.subrange(lo + hplen, hi as int));
        }
        pr_from_path_range(url, lo + hplen, hi)
    } else {
        proof {
            if hslen <= t.len() {
                assert(t.subrange(0, hslen as int) =~= u.subrange(lo as int, lo + hslen));
            }
            if hplen <= t.len() {
                assert(t.subrange(0, hplen as int) =~= u.subrange(lo as int, lo + hplen));
            }
            assert(!is_prefix(t, hs@));
            assert(!is_prefix(t, hp@));
        }
        None
    }
}

/// What the repository reference of a resource path is: the second and
/// third of at least four slash-separated pieces, joined with a slash
/// (e.g. `/owner/repo/pull/123` yields `owner/repo`).
pub open spec fn repo_ref_spec(path: Seq<char>) -> Option<Seq<char>> {
    let parts = split_spec(path, '/');
    if parts.len() >= 4 {
        Some(parts[1] + "/"@ + parts[2])
    } else {
        None
    }
}

/// The repository reference held in a resource path, used to address the
/// repository when updating a PR.
pub fn repo_from_resource_path(path: &str) -> (r: Option<String>)
    ensures
        match r {
            Some(v) => repo_ref_spec(path@) matches Some(q) && v@ == q,
            None => repo_ref_spec(path@) is None,
        },
{
    let ghost u = path@;
    let plen = path.unicode_len();
    let ghost parts = split_spec(u, '/');
    proof {
        assert(u.subrange(0, plen as int) =~= u);
    }
    let s1 = find_char_in(path, '/', 0, plen);
    let e1: usize = match s1 {
        Some(e) => e,
        None => {
            proof {
                lemma_split_whole(u, 0, plen as int, '/');
            }
            return None;
        },
    };
    proof {
        lemma_split_step(u, 0, e1 as int, plen as int, '/');
    }
    let s2 = find_char_in(path, '/', e1 + 1, plen);
    let e2: usize = match s2 {
        Some(e) => e,
        None => {
            proof {
                lemma_split_whole(u, e1 + 1, plen as int, '/');
            }
            return None;
        },
    };
    proof {
        lemma_split_step(u, e1 + 1, e2 as int, plen as int, '/');
    }
    let s3 = find_char_in(path, '/', e2 + 1, plen);
    let e3: usize = match s3 {
        Some(e) => e,
        None => {
            proof {
                lemma_split_whole(u, e2 + 1, plen as int, '/');
            }
            return None;
        },
    };
    proof {
        lemma_split_step(u, e2 + 1, e3 as int, plen as int, '/');
        lemma_split_nonempty(u.subrange(e3 + 1, plen as int), '/');
        let ghost v0 = u.subrange(0, e1 as int);
        let ghost v1 = u.subrange(e1 + 1, e2 as int);
        let ghost v2 = u.subrange(e2 + 1, e3 as int);
        assert(parts =~= seq![v0, v1, v2] + split_spec(u.subrange(e3 + 1, plen as int), '/'));
        assert(parts.len() >= 4);
        assert(parts[1] == v1);
        assert(parts[2] == v2);
    }
    let mut out = String::new();
    out.append(path.substring_char(e1 + 1, e2));
    out.append("/");
    out.append(path.substring_char(e2 + 1, e3));
    proof {
        assert(out@ =~= u.subrange(e1 + 1, e2 as int) + "/"@ + u.subrange(e2 + 1, e3 as int));
    }
    Some(out)
}

} // verus!
