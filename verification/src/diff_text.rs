//! Character-level pieces of unified-diff headers: prefixes, whitespace
//! tokens, the leading decimal number of a `-a,b` range, and the `a/` / `b/`
//! path prefixes git adds.
use vstd::prelude::*;
use crate::strings::{find_char, lemma_find_char_bounds, is_whitespace, white_space};

verus! {

/// `p` is a prefix of `s`.
pub open spec fn starts_with(s: Seq<char>, p: Seq<char>) -> bool {
    p.len() <= s.len() && s.take(p.len() as int) == p
}

/// Whether `s` starts with `p`.
pub fn has_prefix(s: &[char], p: &[char]) -> (r: bool)
    ensures
        r == starts_with(s@, p@),
{
    if p.len() > s.len() {
        return false;
    }
    let mut i: usize = 0;
    while i < p.len()
        invariant
            i <= p.len() <= s.len(),
            forall|j: int| 0 <= j < i ==> s@[j] == p@[j],
        decreases p.len() - i,
    {
        if s[i] != p[i] {
            assert(s@.take(p@.len() as int)[i as int] != p@[i as int]);
            return false;
        }
        i += 1;
    }
    assert(s@.take(p@.len() as int) =~= p@);
    true
}

/// Whether two character sequences are equal.
pub fn chars_eq(a: &[char], b: &[char]) -> (r: bool)
    ensures
        r == (a@ == b@),
{
    if a.len() != b.len() {
        return false;
    }
    let r = has_prefix(a, b);
    proof {
        assert(a@.take(b@.len() as int) =~= a@);
    }
    r
}

// ---------------------------------------------------------------------------
// Whitespace tokens (`str::split_whitespace`).
// ---------------------------------------------------------------------------

/// The whitespace-separated tokens of `s`, where the token `cur` has already
/// begun just before `s`.
pub open spec fn tokens_from(s: Seq<char>, cur: Seq<char>) -> Seq<Seq<char>>
    decreases s.len(),
{
    if s.len() == 0 {
        if cur.len() > 0 {
            seq![cur]
        } else {
            Seq::empty()
        }
    } else if white_space(s[0]) {
        (if cur.len() > 0 {
            seq![cur]
        } else {
            Seq::empty()
        }) + tokens_from(s.skip(1), Seq::empty())
    } else {
        tokens_from(s.skip(1), cur.push(s[0]))
    }
}

/// The maximal runs of non-whitespace characters of `s`, in order.
pub open spec fn ws_tokens(s: Seq<char>) -> Seq<Seq<char>> {
    tokens_from(s, Seq::empty())
}

pub open spec fn views_of(v: Seq<Vec<char>>) -> Seq<Seq<char>> {
    v.map_values(|t: Vec<char>| t@)
}

/// The whitespace-separated tokens of `s`.
pub fn split_ws(s: &[char]) -> (r: Vec<Vec<char>>)
    ensures
        views_of(r@) == ws_tokens(s@),
{
    let mut out: Vec<Vec<char>> = Vec::new();
    let mut cur: Vec<char> = Vec::new();
    let mut i: usize = 0;
    assert(s@.skip(0) =~= s@);
    while i < s.len()
        invariant
            i <= s.len(),
            views_of(out@) + tokens_from(s@.skip(i as int), cur@) == ws_tokens(s@),
        decreases s.len() - i,
    {
        let ghost rest = s@.skip(i as int);
        let ghost before = views_of(out@);
        assert(rest.skip(1) =~= s@.skip(i + 1));
        let c = s[i];
        assert(rest[0] == c);
        if is_whitespace(c) {
            assert(tokens_from(rest, cur@) == (if cur@.len() > 0 {
                seq![cur@]
            } else {
                Seq::empty()
            }) + tokens_from(s@.skip(i + 1), Seq::empty()));
            if cur.len() > 0 {
                let ghost t = cur@;
                out.push(cur);
                cur = Vec::new();
                assert(views_of(out@) =~= before.push(t));
                assert(before + (seq![t] + tokens_from(s@.skip(i + 1), Seq::empty())) =~= before.push(
                    t,
                ) + tokens_from(s@.skip(i + 1), Seq::empty()));
                assert(cur@ == Seq::<char>::empty());
                assert(views_of(out@) + tokens_from(s@.skip(i + 1), cur@) == ws_tokens(s@));
            } else {
                assert(Seq::<Seq<char>>::empty() + tokens_from(s@.skip(i + 1), Seq::empty())
                    =~= tokens_from(s@.skip(i + 1), Seq::empty()));
                assert(cur@ =~= Seq::<char>::empty());
                assert(views_of(out@) + tokens_from(s@.skip(i + 1), cur@) == ws_tokens(s@));
            }
        } else {
            let ghost old_cur = cur@;
            cur.push(c);
            assert(tokens_from(rest, old_cur) == tokens_from(s@.skip(i + 1), cur@));
            assert(views_of(out@) + tokens_from(s@.skip(i + 1), cur@) == ws_tokens(s@));
        }
        i += 1;
    }
    if cur.len() > 0 {
        let ghost t = cur@;
        let ghost before = views_of(out@);
        out.push(cur);
        assert(views_of(out@) =~= before.push(t));
        assert(before + seq![t] =~= before.push(t));
    } else {
        assert(views_of(out@) + Seq::<Seq<char>>::empty() =~= views_of(out@));
    }
    out
}

// ---------------------------------------------------------------------------
// The leading decimal number of a range such as `10,6`.
// ---------------------------------------------------------------------------

pub open spec fn is_digit(c: char) -> bool {
    '0' <= c <= '9'
}

/// Index of the first non-digit of `s` at or after `i`.
pub open spec fn digit_end(s: Seq<char>, i: int) -> int
    decreases s.len() - i,
{
    if 0 <= i < s.len() && is_digit(s[i]) {
        digit_end(s, i + 1)
    } else {
        i
    }
}

/// The value of a string of decimal digits.
pub open spec fn decimal(ds: Seq<char>) -> nat
    decreases ds.len(),
{
    if ds.len() == 0 {
        0
    } else {
        decimal(ds.drop_last()) * 10 + (ds.last() as u32 - '0' as u32) as nat
    }
}

/// The number that the digits at the start of `s` spell, or 0 when there
/// are none or it does not fit in a `u32`.
pub open spec fn leading_number(s: Seq<char>) -> u32 {
    let ds = s.take(digit_end(s, 0));
    if ds.len() > 0 && decimal(ds) <= u32::MAX {
        decimal(ds) as u32
    } else {
        0
    }
}

proof fn lemma_digit_end(s: Seq<char>, i: int)
    requires
        0 <= i <= s.len(),
    ensures
        i <= digit_end(s, i) <= s.len(),
    decreases s.len() - i,
{
    if i < s.len() && is_digit(s[i]) {
        lemma_digit_end(s, i + 1);
    }
}

/// The leading decimal number of `s`; 0 when `s` does not start with a digit
/// or the number does not fit in a `u32`.
pub fn leading_u32(s: &[char]) -> (r: u32)
    ensures
        r == leading_number(s@),
{
    let mut i: usize = 0;
    let mut v: u64 = 0;
    let mut over = false;
    while i < s.len() && '0' <= s[i] && s[i] <= '9'
        invariant
            i <= s.len(),
            digit_end(s@, 0) == digit_end(s@, i as int),
            !over ==> v == decimal(s@.take(i as int)) && v <= u32::MAX,
            over ==> decimal(s@.take(i as int)) > u32::MAX,
        decreases s.len() - i,
    {
        let d = s[i];
        assert(s@.take(i + 1).drop_last() =~= s@.take(i as int));
        assert(s@.take(i + 1).last() == d);
        let dv = (d as u32 - '0' as u32) as u64;
        if !over {
            let nv = v * 10 + dv;
            if nv > u32::MAX as u64 {
                over = true;
            } else {
                v = nv;
            }
        }
        i += 1;
    }
    proof {
        lemma_digit_end(s@, i as int);
        if i < s.len() {
            assert(!is_digit(s@[i as int]));
        }
        assert(digit_end(s@, i as int) == i);
    }
    if i > 0 && !over {
        v as u32
    } else {
        0
    }
}

// ---------------------------------------------------------------------------
// Paths in `---` / `+++` / `diff --git` headers.
// ---------------------------------------------------------------------------

/// `s` without its trailing whitespace.
pub open spec fn trim_end(s: Seq<char>) -> Seq<char>
    decreases s.len(),
{
    if s.len() > 0 && white_space(s.last()) {
        trim_end(s.drop_last())
    } else {
        s
    }
}

/// A header path: the text before any tab, without trailing whitespace, and
/// without git's one-letter `a/` or `b/` directory.
pub open spec fn strip_ab(p: Seq<char>) -> Seq<char> {
    let q = trim_end(p.take(find_char(p, '\t', 0)));
    if starts_with(q, seq!['a', '/']) || starts_with(q, seq!['b', '/']) {
        q.skip(2)
    } else {
        q
    }
}

/// `a/src/x.rs` → `src/x.rs`; a tab and what follows it, and trailing
/// whitespace, are dropped first.
pub fn strip_ab_prefix(p: &[char]) -> (r: Vec<char>)
    ensures
        r@ == strip_ab(p@),
{
    let mut t: usize = 0;
    while t < p.len() && p[t] != '\t'
        invariant
            t <= p.len(),
            find_char(p@, '\t', 0) == find_char(p@, '\t', t as int),
        decreases p.len() - t,
    {
        t += 1;
    }
    proof {
        lemma_find_char_bounds(p@, '\t', t as int);
    }
    let mut j: usize = t;
    while j > 0 && is_whitespace(p[j - 1])
        invariant
            j <= t <= p.len(),
            t == find_char(p@, '\t', 0),
            trim_end(p@.take(t as int)) == trim_end(p@.take(j as int)),
        decreases j,
    {
        assert(p@.take(j as int).drop_last() =~= p@.take(j - 1));
        j -= 1;
    }
    let ghost q = p@.take(j as int);
    assert(trim_end(q) == q);
    let start: usize = if j >= 2 && (p[0] == 'a' || p[0] == 'b') && p[1] == '/' {
        2
    } else {
        0
    };
    proof {
        if j >= 2 {
            assert(q.take(2)[0] == p@[0] && q.take(2)[1] == p@[1]);
            if p@[0] == 'a' && p@[1] == '/' {
                assert(q.take(2) =~= seq!['a', '/']);
            }
            if p@[0] == 'b' && p@[1] == '/' {
                assert(q.take(2) =~= seq!['b', '/']);
            }
        }
        if starts_with(q, seq!['a', '/']) {
            assert(q.take(2)[0] == 'a');
        }
        if starts_with(q, seq!['b', '/']) {
            assert(q.take(2)[0] == 'b');
        }
    }
    let mut r: Vec<char> = Vec::new();
    let mut k: usize = start;
    while k < j
        invariant
            start <= k <= j <= p.len(),
            r@ == p@.subrange(start as int, k as int),
        decreases j - k,
    {
        r.push(p[k]);
        k += 1;
        assert(r@ =~= p@.subrange(start as int, k as int));
    }
    assert(r@ =~= q.skip(start as int));
    r
}

/// The new-side path of a `diff --git a/x b/y` line (given what follows
/// `diff --git `): the second token, with its `a/`/`b/` prefix stripped.
pub open spec fn git_header_path(rest: Seq<char>) -> Seq<char> {
    let toks = ws_tokens(rest);
    if toks.len() >= 2 {
        strip_ab(toks[1])
    } else {
        Seq::empty()
    }
}

pub fn git_path(rest: &[char]) -> (r: Vec<char>)
    ensures
        r@ == git_header_path(rest@),
{
    let toks = split_ws(rest);
    if toks.len() >= 2 {
        assert(toks@[1]@ == views_of(toks@)[1]);
        strip_ab_prefix(toks[1].as_slice())
    } else {
        Vec::new()
    }
}

// ---------------------------------------------------------------------------
// `@@ -a,b +c,d @@` headers.
// ---------------------------------------------------------------------------

/// The mark that opens and closes the ranges of a hunk header.
pub open spec fn at_at() -> Seq<char> {
    seq!['@', '@']
}

/// Reads the range tokens of a hunk header left to right, up to the `@@`
/// that closes them: a token `-n…` sets the old start, `+n…` the new start
/// (a repeated one overrides the earlier); what follows the closing `@@`,
/// the section text, is never read.
pub open spec fn header_fold(toks: Seq<Seq<char>>, old: u32, new: u32) -> (u32, u32)
    decreases toks.len(),
{
    if toks.len() == 0 || toks[0] == at_at() {
        (old, new)
    } else {
        let t = toks[0];
        if t.len() > 0 && t[0] == '-' {
            header_fold(toks.skip(1), leading_number(t.skip(1)), new)
        } else if t.len() > 0 && t[0] == '+' {
            header_fold(toks.skip(1), old, leading_number(t.skip(1)))
        } else {
            header_fold(toks.skip(1), old, new)
        }
    }
}

/// `(old start, new start)` of a hunk header: the ranges between the opening
/// token and the closing `@@`; malformed parts read as 0.
pub open spec fn hunk_starts(h: Seq<char>) -> (u32, u32) {
    let toks = ws_tokens(h);
    if toks.len() == 0 {
        (0, 0)
    } else {
        header_fold(toks.skip(1), 0, 0)
    }
}

/// `@@ -1,4 +1,6 @@ fn foo()` → `(1, 1)`. Malformed headers yield 0 rather
/// than refusing the hunk, and the section text after the closing `@@` is
/// not read.
pub fn parse_hunk_header(h: &[char]) -> (r: (u32, u32))
    ensures
        r == hunk_starts(h@),
{
    let toks = split_ws(h);
    let ghost ts = views_of(toks@);
    if toks.len() == 0 {
        return (0, 0);
    }
    let mut old: u32 = 0;
    let mut new: u32 = 0;
    let mut i: usize = 1;
    let mut closed = false;
    assert(ts.skip(1).skip(0) =~= ts.skip(1));
    while i < toks.len() && !closed
        invariant
            1 <= i <= toks@.len(),
            ts == views_of(toks@),
            header_fold(ts.skip(1), 0, 0) == if closed {
                (old, new)
            } else {
                header_fold(ts.skip(i as int), old, new)
            },
        decreases toks.len() - i,
    {
        assert(ts.skip(i as int).skip(1) =~= ts.skip(i + 1));
        assert(ts.skip(i as int)[0] == toks@[i as int]@);
        let t = toks[i].as_slice();
        if t.len() == 2 && t[0] == '@' && t[1] == '@' {
            assert(t@ =~= at_at());
            closed = true;
        } else {
            assert(t@ != at_at());
            if t.len() > 0 && t[0] == '-' {
                let rest = vstd::slice::slice_subrange(t, 1, t.len());
                assert(rest@ =~= t@.skip(1));
                old = leading_u32(rest);
            } else if t.len() > 0 && t[0] == '+' {
                let rest = vstd::slice::slice_subrange(t, 1, t.len());
                assert(rest@ =~= t@.skip(1));
                new = leading_u32(rest);
            }
        }
        i += 1;
    }
    (old, new)
}

/// Where the first `,` of `t` is at or after `i` (`t.len()` when none).
pub open spec fn comma_at(t: Seq<char>, i: int) -> int
    decreases t.len() - i,
{
    if i < 0 || i >= t.len() {
        t.len() as int
    } else if t[i] == ',' {
        i
    } else {
        comma_at(t, i + 1)
    }
}

/// The length of a range `start[,length]` (what follows its `-` or `+`):
/// the number after the comma, or 1 when there is no comma.
pub open spec fn range_len(t: Seq<char>) -> u32 {
    let i = comma_at(t, 0);
    if i < t.len() {
        leading_number(t.skip(i + 1))
    } else {
        1
    }
}

/// Like [`header_fold`], for the lengths of the two ranges.
pub open spec fn lengths_fold(toks: Seq<Seq<char>>, old: u32, new: u32) -> (u32, u32)
    decreases toks.len(),
{
    if toks.len() == 0 || toks[0] == at_at() {
        (old, new)
    } else {
        let t = toks[0];
        if t.len() > 0 && t[0] == '-' {
            lengths_fold(toks.skip(1), range_len(t.skip(1)), new)
        } else if t.len() > 0 && t[0] == '+' {
            lengths_fold(toks.skip(1), old, range_len(t.skip(1)))
        } else {
            lengths_fold(toks.skip(1), old, new)
        }
    }
}

/// `(old length, new length)` of a hunk header: how many lines the hunk
/// covers on each side; a side with no range reads as 0.
pub open spec fn hunk_lengths(h: Seq<char>) -> (u32, u32) {
    let toks = ws_tokens(h);
    if toks.len() == 0 {
        (0, 0)
    } else {
        lengths_fold(toks.skip(1), 0, 0)
    }
}

fn range_length(t: &[char]) -> (r: u32)
    ensures
        r == range_len(t@),
{
    let mut i: usize = 0;
    while i < t.len() && t[i] != ','
        invariant
            i <= t@.len(),
            comma_at(t@, 0) == comma_at(t@, i as int),
        decreases t@.len() - i,
    {
        i += 1;
    }
    if i < t.len() {
        let rest = vstd::slice::slice_subrange(t, i + 1, t.len());
        assert(rest@ =~= t@.skip(i + 1));
        leading_u32(rest)
    } else {
        1
    }
}

/// `@@ -1,4 +1,6 @@` → `(4, 6)`; `@@ -3 +3 @@` → `(1, 1)`.
pub fn parse_hunk_lengths(h: &[char]) -> (r: (u32, u32))
    ensures
        r == hunk_lengths(h@),
{
    let toks = split_ws(h);
    let ghost ts = views_of(toks@);
    if toks.len() == 0 {
        return (0, 0);
    }
    let mut old: u32 = 0;
    let mut new: u32 = 0;
    let mut i: usize = 1;
    let mut closed = false;
    assert(ts.skip(1).skip(0) =~= ts.skip(1));
    while i < toks.len() && !closed
        invariant
            1 <= i <= toks@.len(),
            ts == views_of(toks@),
            lengths_fold(ts.skip(1), 0, 0) == if closed {
                (old, new)
            } else {
                lengths_fold(ts.skip(i as int), old, new)
            },
        decreases toks.len() - i,
    {
        assert(ts.skip(i as int).skip(1) =~= ts.skip(i + 1));
        assert(ts.skip(i as int)[0] == toks@[i as int]@);
        let t = toks[i].as_slice();
        if t.len() == 2 && t[0] == '@' && t[1] == '@' {
            assert(t@ =~= at_at());
            closed = true;
        } else {
            assert(t@ != at_at());
            if t.len() > 0 && t[0] == '-' {
                let rest = vstd::slice::slice_subrange(t, 1, t.len());
                assert(rest@ =~= t@.skip(1));
                old = range_length(rest);
            } else if t.len() > 0 && t[0] == '+' {
                let rest = vstd::slice::slice_subrange(t, 1, t.len());
                assert(rest@ =~= t@.skip(1));
                new = range_length(rest);
            }
        }
        i += 1;
    }
    (old, new)
}

} // verus!
