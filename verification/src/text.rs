//! Verified building blocks for text handling: equality, substring search,
//! prefix tests and lexicographic comparison over `Seq<char>` views.

use vstd::prelude::*;

verus! {

/// `p` occurs in `s` starting at index `i`.
pub open spec fn contains_at(s: Seq<char>, p: Seq<char>, i: int) -> bool {
    0 <= i && i + p.len() <= s.len() && s.subrange(i, i + p.len() as int) == p
}

/// `p` occurs somewhere in `s`.
pub open spec fn contains_seq(s: Seq<char>, p: Seq<char>) -> bool {
    exists|i: int| contains_at(s, p, i)
}

/// `p` is a prefix of `s`.
pub open spec fn is_prefix(s: Seq<char>, p: Seq<char>) -> bool {
    p.len() <= s.len() && s.subrange(0, p.len() as int) == p
}

/// The character views of a sequence of strings.
pub open spec fn views(v: Seq<String>) -> Seq<Seq<char>> {
    v.map_values(|s: String| s@)
}

/// `views` commutes with `push`.
pub proof fn lemma_views_push(v: Seq<String>, s: String)
    ensures
        views(v.push(s)) == views(v).push(s@),
{
    assert(views(v.push(s)) =~= views(v).push(s@));
}

/// `filter` over a pushed element keeps the element exactly when the
/// predicate accepts it.
pub proof fn lemma_filter_push<A>(s: Seq<A>, x: A, pred: spec_fn(A) -> bool)
    ensures
        s.push(x).filter(pred) == if pred(x) {
            s.filter(pred).push(x)
        } else {
            s.filter(pred)
        },
    decreases s.len(),
{
    reveal(Seq::filter);
    assert(s.push(x).drop_last() =~= s);
    assert(s.push(x).last() == x);
}

/// The index of the first newline in `s`, or `-1` if there is none.
pub open spec fn first_nl(s: Seq<char>) -> int
    decreases s.len(),
{
    if s.len() == 0 {
        -1
    } else if s[0] == '\n' {
        0
    } else {
        let r = first_nl(s.drop_first());
        if r < 0 {
            -1
        } else {
            r + 1
        }
    }
}

/// What `first_nl` returns: the position of the first newline, or a
/// negative value when the text holds none.
pub proof fn lemma_first_nl_bounds(s: Seq<char>)
    ensures
        first_nl(s) >= 0 ==> first_nl(s) < s.len() && s[first_nl(s)] == '\n' && (forall|m: int|
            0 <= m < first_nl(s) ==> s[m] != '\n'),
        first_nl(s) < 0 ==> forall|m: int| 0 <= m < s.len() ==> s[m] != '\n',
    decreases s.len(),
{
    if s.len() > 0 && s[0] != '\n' {
        let t = s.drop_first();
        lemma_first_nl_bounds(t);
        if first_nl(t) >= 0 {
            assert(s[first_nl(s)] == t[first_nl(t)]);
            assert forall|m: int| 0 <= m < first_nl(s) implies s[m] != '\n' by {
                if m > 0 {
                    assert(t[m - 1] != '\n');
                }
            }
        } else {
            assert forall|m: int| 0 <= m < s.len() implies s[m] != '\n' by {
                if m > 0 {
                    assert(t[m - 1] != '\n');
                }
            }
        }
    }
}

/// The first newline position, as computed, pins `first_nl`.
pub proof fn lemma_first_nl_is(s: Seq<char>, n: int)
    requires
        0 <= n < s.len(),
        s[n] == '\n',
        forall|m: int| 0 <= m < n ==> s[m] != '\n',
    ensures
        first_nl(s) == n,
{
    lemma_first_nl_bounds(s);
}

/// The index of the first occurrence of `c` in `s`, or `-1` if there is
/// none.
pub open spec fn first_idx(s: Seq<char>, c: char) -> int
    decreases s.len(),
{
    if s.len() == 0 {
        -1
    } else if s[0] == c {
        0
    } else {
        let r = first_idx(s.drop_first(), c);
        if r < 0 {
            -1
        } else {
            r + 1
        }
    }
}

/// What `first_idx` returns: the position of the first occurrence, or a
/// negative value when the character does not occur.
pub proof fn lemma_first_idx_bounds(s: Seq<char>, c: char)
    ensures
        first_idx(s, c) >= 0 ==> first_idx(s, c) < s.len() && s[first_idx(s, c)] == c && (
        forall|m: int| 0 <= m < first_idx(s, c) ==> s[m] != c),
        first_idx(s, c) < 0 ==> forall|m: int| 0 <= m < s.len() ==> s[m] != c,
    decreases s.len(),
{
    if s.len() > 0 && s[0] != c {
        let t = s.drop_first();
        lemma_first_idx_bounds(t, c);
        if first_idx(t, c) >= 0 {
            assert(s[first_idx(s, c)] == t[first_idx(t, c)]);
            assert forall|m: int| 0 <= m < first_idx(s, c) implies s[m] != c by {
                if m > 0 {
                    assert(t[m - 1] != c);
                }
            }
        } else {
            assert forall|m: int| 0 <= m < s.len() implies s[m] != c by {
                if m > 0 {
                    assert(t[m - 1] != c);
                }
            }
        }
    }
}

/// The first occurrence, as computed, pins `first_idx`.
pub proof fn lemma_first_idx_is(s: Seq<char>, c: char, n: int)
    requires
        0 <= n < s.len(),
        s[n] == c,
        forall|m: int| 0 <= m < n ==> s[m] != c,
    ensures
        first_idx(s, c) == n,
{
    lemma_first_idx_bounds(s, c);
}

/// `s` split at every occurrence of `c`, separators dropped; always at
/// least one piece, possibly empty.
pub open spec fn split_spec(s: Seq<char>, c: char) -> Seq<Seq<char>>
    decreases s.len(),
    via split_spec_dec
{
    if first_idx(s, c) >= 0 {
        let n = first_idx(s, c);
        seq![s.subrange(0, n)] + split_spec(s.subrange(n + 1, s.len() as int), c)
    } else {
        seq![s]
    }
}

#[via_fn]
proof fn split_spec_dec(s: Seq<char>, c: char) {
    lemma_first_idx_bounds(s, c);
}

/// `split_spec` yields at least one piece.
pub proof fn lemma_split_nonempty(s: Seq<char>, c: char)
    ensures
        split_spec(s, c).len() >= 1,
    decreases s.len(),
{
    lemma_first_idx_bounds(s, c);
}

/// Lexicographic order on character sequences, by code point; on UTF-8
/// text this is the same order as byte-wise comparison.
pub open spec fn lex_le(a: Seq<char>, b: Seq<char>) -> bool
    decreases a.len(),
{
    if a.len() == 0 {
        true
    } else if b.len() == 0 {
        false
    } else if a[0] != b[0] {
        (a[0] as int) < (b[0] as int)
    } else {
        lex_le(a.drop_first(), b.drop_first())
    }
}

/// `lex_le` is total.
pub proof fn lemma_lex_le_total(a: Seq<char>, b: Seq<char>)
    ensures
        lex_le(a, b) || lex_le(b, a),
    decreases a.len(),
{
    if a.len() > 0 && b.len() > 0 && a[0] == b[0] {
        lemma_lex_le_total(a.drop_first(), b.drop_first());
    }
}

/// `lex_le` is antisymmetric.
pub proof fn lemma_lex_le_antisymm(a: Seq<char>, b: Seq<char>)
    requires
        lex_le(a, b),
        lex_le(b, a),
    ensures
        a == b,
    decreases a.len(),
{
    if a.len() == 0 {
        assert(b.len() == 0);
        assert(a =~= b);
    } else {
        assert(b.len() > 0);
        assert(a[0] == b[0]);
        lemma_lex_le_antisymm(a.drop_first(), b.drop_first());
        assert(a.drop_first() == b.drop_first());
        assert(a.len() == b.len());
        assert forall|i: int| 0 <= i < a.len() implies a[i] == b[i] by {
            if i > 0 {
                assert(a[i] == a.drop_first()[i - 1]);
                assert(b[i] == b.drop_first()[i - 1]);
            }
        }
        assert(a =~= b);
    }
}

/// `lex_le` is transitive.
pub proof fn lemma_lex_le_trans(a: Seq<char>, b: Seq<char>, c: Seq<char>)
    requires
        lex_le(a, b),
        lex_le(b, c),
    ensures
        lex_le(a, c),
    decreases a.len(),
{
    if a.len() > 0 && b.len() > 0 && c.len() > 0 && a[0] == b[0] && b[0] == c[0] {
        lemma_lex_le_trans(a.drop_first(), b.drop_first(), c.drop_first());
    }
}

/// Order two string slices from a given position on.
fn le_from(a: &str, b: &str, i: usize) -> (r: bool)
    requires
        i <= a@.len(),
        i <= b@.len(),
    ensures
        r == lex_le(a@.skip(i as int), b@.skip(i as int)),
    decreases a@.len() - i,
{
    let alen = a.unicode_len();
    let blen = b.unicode_len();
    if i == alen {
        return true;
    }
    if i == blen {
        return false;
    }
    let ca = a.get_char(i);
    let cb = b.get_char(i);
    proof {
        assert(a@.skip(i as int)[0] == a@[i as int]);
        assert(b@.skip(i as int)[0] == b@[i as int]);
        assert(a@.skip(i as int).drop_first() =~= a@.skip(i + 1));
        assert(b@.skip(i as int).drop_first() =~= b@.skip(i + 1));
    }
    if ca != cb {
        ca < cb
    } else {
        le_from(a, b, i + 1)
    }
}

/// Whether `a` comes no later than `b` in lexicographic order.
pub fn str_le(a: &str, b: &str) -> (r: bool)
    ensures
        r == lex_le(a@, b@),
{
    let r = le_from(a, b, 0);
    proof {
        assert(a@.skip(0) =~= a@);
        assert(b@.skip(0) =~= b@);
    }
    r
}

/// Splitting a range at its first separator peels off one piece.
pub proof fn lemma_split_step(u: Seq<char>, a: int, e: int, b: int, c: char)
    requires
        0 <= a <= e < b <= u.len(),
        u[e] == c,
        forall|m: int| a <= m < e ==> u[m] != c,
    ensures
        split_spec(u.subrange(a, b), c) == seq![u.subrange(a, e)] + split_spec(
            u.subrange(e + 1, b),
            c,
        ),
{
    let s = u.subrange(a, b);
    assert(s[e - a] == c);
    assert forall|m: int| 0 <= m < e - a implies s[m] != c by {
        assert(s[m] == u[a + m]);
    }
    lemma_first_idx_is(s, c, e - a);
    assert(s.subrange(0, e - a) =~= u.subrange(a, e));
    assert(s.subrange(e - a + 1, s.len() as int) =~= u.subrange(e + 1, b));
}

/// A range without the separator splits into itself alone.
pub proof fn lemma_split_whole(u: Seq<char>, a: int, b: int, c: char)
    requires
        0 <= a <= b <= u.len(),
        forall|m: int| a <= m < b ==> u[m] != c,
    ensures
        split_spec(u.subrange(a, b), c) == seq![u.subrange(a, b)],
{
    let s = u.subrange(a, b);
    assert forall|m: int| 0 <= m < s.len() implies s[m] != c by {
        assert(s[m] == u[a + m]);
    }
    lemma_first_idx_bounds(s, c);
}

/// The first occurrence of `c` in `s[from..to)`, if any.
pub fn find_char_in(s: &str, c: char, from: usize, to: usize) -> (r: Option<usize>)
    requires
        from <= to <= s@.len(),
    ensures
        match r {
            Some(n) => from <= n < to && s@[n as int] == c && (forall|m: int|
                from <= m < n ==> s@[m] != c),
            None => forall|m: int| from <= m < to ==> s@[m] != c,
        },
{
    let mut n: usize = from;
    while n < to
        invariant
            from <= n <= to <= s@.len(),
            forall|m: int| from <= m < n ==> s@[m] != c,
        decreases to - n,
    {
        if s.get_char(n) == c {
            return Some(n);
        }
        n += 1;
    }
    None
}

/// The first newline in `s` at or after `from`, if any.
pub fn find_nl(s: &str, from: usize) -> (r: Option<usize>)
    requires
        from <= s@.len(),
    ensures
        match r {
            Some(n) => from <= n < s@.len() && s@[n as int] == '\n' && (forall|m: int|
                from <= m < n ==> s@[m] != '\n'),
            None => forall|m: int| from <= m < s@.len() ==> s@[m] != '\n',
        },
{
    let slen = s.unicode_len();
    let mut n: usize = from;
    while n < slen
        invariant
            from <= n <= slen,
            slen == s@.len(),
            forall|m: int| from <= m < n ==> s@[m] != '\n',
        decreases slen - n,
    {
        if s.get_char(n) == '\n' {
            return Some(n);
        }
        n += 1;
    }
    None
}

/// The code point of a character with ASCII letters folded to lower case.
pub open spec fn lower_code(c: char) -> int {
    if 'A' <= c && c <= 'Z' {
        c as int + 32
    } else {
        c as int
    }
}

/// `p` occurs in `s` at index `i` up to ASCII case.
pub open spec fn ci_contains_at(s: Seq<char>, p: Seq<char>, i: int) -> bool {
    0 <= i && i + p.len() <= s.len() && (forall|q: int|
        0 <= q < p.len() ==> lower_code(s[i + q]) == lower_code(#[trigger] p[q]))
}

/// `p` occurs somewhere in `s` up to ASCII case.
pub open spec fn ci_contains(s: Seq<char>, p: Seq<char>) -> bool {
    exists|i: int| ci_contains_at(s, p, i)
}

/// Exec mirror of [`lower_code`].
fn lower_code_exec(c: char) -> (r: u32)
    ensures
        r as int == lower_code(c),
{
    if 'A' <= c && c <= 'Z' {
        (c as u32) + 32
    } else {
        c as u32
    }
}

/// Whether `p` occurs anywhere in `s`, ignoring ASCII case.
pub fn contains_ci(s: &str, p: &str) -> (r: bool)
    ensures
        r == ci_contains(s@, p@),
{
    let slen = s.unicode_len();
    let plen = p.unicode_len();
    if plen > slen {
        proof {
            assert forall|i: int| !ci_contains_at(s@, p@, i) by {}
        }
        return false;
    }
    let mut i: usize = 0;
    while i <= slen - plen
        invariant
            0 <= i,
            i <= slen - plen + 1,
            slen == s@.len(),
            plen == p@.len(),
            plen <= slen,
            forall|j: int| 0 <= j < i ==> !ci_contains_at(s@, p@, j),
        decreases slen - plen - i + 1,
    {
        let mut q: usize = 0;
        let mut all_eq = true;
        while q < plen && all_eq
            invariant
                q <= plen,
                i + plen <= slen,
                slen == s@.len(),
                plen == p@.len(),
                all_eq ==> forall|m: int|
                    0 <= m < q ==> lower_code(s@[i + m]) == lower_code(#[trigger] p@[m]),
                !all_eq ==> !ci_contains_at(s@, p@, i as int),
            decreases plen - q, (if all_eq { 1int } else { 0int }),
        {
            if lower_code_exec(s.get_char(i + q)) != lower_code_exec(p.get_char(q)) {
                all_eq = false;
            } else {
                q += 1;
            }
        }
        if all_eq {
            proof {
                assert(ci_contains_at(s@, p@, i as int));
            }
            return true;
        }
        i += 1;
    }
    proof {
        assert forall|j: int| !ci_contains_at(s@, p@, j) by {
            if 0 <= j && j + plen <= slen {
                assert(j < i);
            }
        }
    }
    false
}

/// Equality of two string slices, decided character by character.
pub fn str_eq(a: &str, b: &str) -> (r: bool)
    ensures
        r == (a@ == b@),
{
    let alen = a.unicode_len();
    let blen = b.unicode_len();
    if alen != blen {
        assert(a@ != b@) by {
            assert(a@.len() != b@.len());
        }
        return false;
    }
    let mut i: usize = 0;
    while i < alen
        invariant
            i <= alen,
            alen == a@.len(),
            alen == b@.len(),
            forall|j: int| 0 <= j < i ==> a@[j] == b@[j],
        decreases alen - i,
    {
        if a.get_char(i) != b.get_char(i) {
            return false;
        }
        i += 1;
    }
    proof {
        assert(a@ =~= b@);
    }
    true
}

/// Whether `p` occurs in `s` at index `i`.
pub fn match_at(s: &str, p: &str, i: usize) -> (r: bool)
    requires
        i + p@.len() <= s@.len(),
    ensures
        r == contains_at(s@, p@, i as int),
{
    let slen = s.unicode_len();
    let plen = p.unicode_len();
    let mut j: usize = 0;
    while j < plen
        invariant
            j <= plen,
            plen == p@.len(),
            slen == s@.len(),
            i + plen <= slen,
            forall|k: int| 0 <= k < j ==> s@[i + k] == p@[k],
        decreases plen - j,
    {
        if s.get_char(i + j) != p.get_char(j) {
            assert(s@.subrange(i as int, i + plen) != p@) by {
                assert(s@.subrange(i as int, i + plen as int)[j as int] == s@[i + j]);
            }
            return false;
        }
        j += 1;
    }
    proof {
        assert(s@.subrange(i as int, i + plen as int) =~= p@);
    }
    true
}

/// The least index at or after `from` where `p` occurs in `s`, if any.
pub fn find_from(s: &str, p: &str, from: usize) -> (r: Option<usize>)
    requires
        from <= s@.len(),
    ensures
        match r {
            Some(i) => {
                &&& from <= i
                &&& contains_at(s@, p@, i as int)
                &&& forall|j: int| from <= j < i ==> !contains_at(s@, p@, j)
            },
            None => forall|j: int| from <= j ==> !contains_at(s@, p@, j),
        },
{
    let slen = s.unicode_len();
    let plen = p.unicode_len();
    if plen > slen {
        return None;
    }
    if plen == 0 {
        proof {
            assert(s@.subrange(from as int, from as int) =~= p@);
        }
        return Some(from);
    }
    let mut i: usize = from;
    while i <= slen - plen
        invariant
            from <= i,
            plen == p@.len(),
            slen == s@.len(),
            1 <= plen <= slen,
            forall|j: int| from <= j < i ==> !contains_at(s@, p@, j),
        decreases slen - i,
    {
        if match_at(s, p, i) {
            return Some(i);
        }
        i += 1;
    }
    None
}

/// Whether `p` occurs anywhere in `s`.
pub fn contains_sub(s: &str, p: &str) -> (r: bool)
    ensures
        r == contains_seq(s@, p@),
{
    match find_from(s, p, 0) {
        Some(_) => true,
        None => false,
    }
}

/// Whether `p` is a prefix of `s`.
pub fn starts_with(s: &str, p: &str) -> (r: bool)
    ensures
        r == is_prefix(s@, p@),
{
    let slen = s.unicode_len();
    let plen = p.unicode_len();
    if plen > slen {
        return false;
    }
    match_at(s, p, 0)
}

} // verus!
