//! A stable ordering of rows by text keys, ascending or descending, in the
//! order `str` compares: character by character, by scalar value (the same
//! order as UTF-8 bytes).
use vstd::prelude::*;

verus! {

/// `a` sorts strictly before `b`.
pub open spec fn lex_lt(a: Seq<char>, b: Seq<char>) -> bool
    decreases a.len(),
{
    if a.len() == 0 {
        b.len() > 0
    } else if b.len() == 0 {
        false
    } else if a[0] < b[0] {
        true
    } else if a[0] == b[0] {
        lex_lt(a.skip(1), b.skip(1))
    } else {
        false
    }
}

/// `a` comes before `b` in `str` order (which compares UTF-8 bytes, and so
/// code points): `a` is a proper prefix of `b`, or at the first position
/// where they differ `a` has the smaller character.
pub open spec fn str_before(a: Seq<char>, b: Seq<char>) -> bool {
    ||| (a.len() < b.len() && b.take(a.len() as int) == a)
    ||| exists|i: int|
        0 <= i < a.len() && i < b.len() && a.take(i) == b.take(i) && #[trigger] a[i] < #[trigger] b[i]
}

/// The sort order is `str` order: `a` sorts strictly before `b` exactly when
/// `a < b` as Rust strings. The empty text comes before every other, and a
/// proper prefix before its extensions.
pub proof fn law_sort_order_is_str_order(a: Seq<char>, b: Seq<char>)
    ensures
        lex_lt(a, b) <==> str_before(a, b),
        a.len() == 0 && b.len() > 0 ==> lex_lt(a, b),
        a.len() < b.len() && b.take(a.len() as int) == a ==> lex_lt(a, b),
    decreases a.len(),
{
    if a.len() == 0 {
        assert(b.take(0) =~= a);
    } else if b.len() == 0 {
        assert(!str_before(a, b));
    } else {
        law_sort_order_is_str_order(a.skip(1), b.skip(1));
        let a1 = a.skip(1);
        let b1 = b.skip(1);
        if a[0] < b[0] {
            assert(a.take(0) =~= b.take(0));
            assert(str_before(a, b));
        } else if a[0] == b[0] {
            if str_before(a1, b1) {
                if a1.len() < b1.len() && b1.take(a1.len() as int) == a1 {
                    assert(b.take(a.len() as int) =~= seq![b[0]] + b1.take(a1.len() as int));
                    assert(a =~= seq![a[0]] + a1);
                } else {
                    let i = choose|i: int|
                        0 <= i < a1.len() && i < b1.len() && a1.take(i) == b1.take(i) && #[trigger] a1[i]
                            < #[trigger] b1[i];
                    assert(a.take(i + 1) =~= seq![a[0]] + a1.take(i));
                    assert(b.take(i + 1) =~= seq![b[0]] + b1.take(i));
                    assert(a[i + 1] == a1[i] && b[i + 1] == b1[i]);
                }
            }
            if str_before(a, b) {
                if a.len() < b.len() && b.take(a.len() as int) == a {
                    assert(b1.take(a1.len() as int) =~= b.take(a.len() as int).skip(1));
                    assert(a1 =~= a.skip(1));
                } else {
                    let i = choose|i: int|
                        0 <= i < a.len() && i < b.len() && a.take(i) == b.take(i) && #[trigger] a[i]
                            < #[trigger] b[i];
                    assert(i > 0);
                    assert(a1.take(i - 1) =~= a.take(i).skip(1));
                    assert(b1.take(i - 1) =~= b.take(i).skip(1));
                    assert(a1[i - 1] == a[i] && b1[i - 1] == b[i]);
                }
            }
        } else {
            if str_before(a, b) {
                if a.len() < b.len() && b.take(a.len() as int) == a {
                    assert(b.take(a.len() as int)[0] == b[0]);
                } else {
                    let i = choose|i: int|
                        0 <= i < a.len() && i < b.len() && a.take(i) == b.take(i) && #[trigger] a[i]
                            < #[trigger] b[i];
                    if i > 0 {
                        assert(a.take(i)[0] == a[0] && b.take(i)[0] == b[0]);
                    }
                }
            }
        }
    }
}

pub proof fn lemma_lex_irreflexive(a: Seq<char>)
    ensures
        !lex_lt(a, a),
    decreases a.len(),
{
    if a.len() > 0 {
        lemma_lex_irreflexive(a.skip(1));
    }
}

/// Exactly one of `a < b`, `a == b`, `b < a`.
pub proof fn lemma_lex_total(a: Seq<char>, b: Seq<char>)
    ensures
        lex_lt(a, b) || a == b || lex_lt(b, a),
        !(lex_lt(a, b) && lex_lt(b, a)),
    decreases a.len(),
{
    if a.len() > 0 && b.len() > 0 {
        if a[0] == b[0] {
            lemma_lex_total(a.skip(1), b.skip(1));
            if a.skip(1) == b.skip(1) {
                assert(a =~= seq![a[0]] + a.skip(1));
                assert(b =~= seq![b[0]] + b.skip(1));
            }
        }
    } else if a.len() == 0 && b.len() == 0 {
        assert(a =~= b);
    }
}

pub proof fn lemma_lex_transitive(a: Seq<char>, b: Seq<char>, c: Seq<char>)
    requires
        lex_lt(a, b),
        lex_lt(b, c),
    ensures
        lex_lt(a, c),
    decreases a.len(),
{
    if a.len() > 0 && b.len() > 0 && c.len() > 0 {
        if a[0] == b[0] && b[0] == c[0] {
            lemma_lex_transitive(a.skip(1), b.skip(1), c.skip(1));
        }
    }
}

/// Whether `a` sorts strictly before `b`.
pub fn lex_less(a: &[char], b: &[char]) -> (r: bool)
    ensures
        r == lex_lt(a@, b@),
{
    let mut i: usize = 0;
    assert(a@.skip(0) =~= a@);
    assert(b@.skip(0) =~= b@);
    while i < a.len() && i < b.len() && a[i] == b[i]
        invariant
            i <= a@.len(),
            i <= b@.len(),
            lex_lt(a@, b@) == lex_lt(a@.skip(i as int), b@.skip(i as int)),
        decreases a@.len() - i,
    {
        assert(a@.skip(i as int).skip(1) =~= a@.skip(i + 1));
        assert(b@.skip(i as int).skip(1) =~= b@.skip(i + 1));
        i += 1;
    }
    if i == a.len() {
        i < b.len()
    } else if i == b.len() {
        false
    } else {
        assert(a@.skip(i as int)[0] == a@[i as int]);
        assert(b@.skip(i as int)[0] == b@[i as int]);
        a[i] < b[i]
    }
}

/// Row `i` comes before row `j` when sorting by `keys`: by key (descending
/// when `desc`), and rows with equal keys keep their original order.
pub open spec fn before(keys: Seq<Seq<char>>, desc: bool, i: int, j: int) -> bool {
    if keys[i] == keys[j] {
        i < j
    } else if desc {
        lex_lt(keys[j], keys[i])
    } else {
        lex_lt(keys[i], keys[j])
    }
}

proof fn lemma_before_total(keys: Seq<Seq<char>>, desc: bool, i: int, j: int)
    requires
        i != j,
    ensures
        before(keys, desc, i, j) != before(keys, desc, j, i),
{
    lemma_lex_total(keys[i], keys[j]);
}

proof fn lemma_before_transitive(keys: Seq<Seq<char>>, desc: bool, i: int, j: int, k: int)
    requires
        before(keys, desc, i, j),
        before(keys, desc, j, k),
    ensures
        before(keys, desc, i, k),
{
    lemma_lex_total(keys[i], keys[j]);
    lemma_lex_total(keys[j], keys[k]);
    lemma_lex_total(keys[i], keys[k]);
    if keys[i] != keys[j] && keys[j] != keys[k] {
        if desc {
            lemma_lex_transitive(keys[k], keys[j], keys[i]);
        } else {
            lemma_lex_transitive(keys[i], keys[j], keys[k]);
        }
    }
    if keys[i] == keys[k] && keys[i] != keys[j] {
        if desc {
            lemma_lex_total(keys[i], keys[j]);
        }
    }
}

/// `p` lists each of `0..n` exactly once.
pub open spec fn is_permutation(p: Seq<usize>, n: int) -> bool {
    &&& p.len() == n
    &&& forall|i: int| 0 <= i < n ==> 0 <= #[trigger] p[i] < n
    &&& forall|i: int, j: int| 0 <= i < j < n ==> p[i] != p[j]
}

/// `p` puts the rows in `before` order.
pub open spec fn sorted_by(keys: Seq<Seq<char>>, desc: bool, p: Seq<usize>) -> bool {
    forall|i: int, j: int|
        0 <= i < j < p.len() ==> before(keys, desc, #[trigger] p[i] as int, #[trigger] p[j] as int)
}

/// Whether row `q` comes before the later row `k`.
fn earlier_row_first(keys: &Vec<Vec<char>>, desc: bool, q: usize, k: usize) -> (r: bool)
    requires
        q < k < keys@.len(),
    ensures
        r == before(keys@.map_values(|k: Vec<char>| k@), desc, q as int, k as int),
{
    let ghost ks = keys@.map_values(|k: Vec<char>| k@);
    assert(ks[q as int] == keys@[q as int]@);
    assert(ks[k as int] == keys@[k as int]@);
    proof {
        lemma_lex_total(ks[q as int], ks[k as int]);
        lemma_lex_irreflexive(ks[q as int]);
    }
    if desc {
        !lex_less(keys[q].as_slice(), keys[k].as_slice())
    } else {
        !lex_less(keys[k].as_slice(), keys[q].as_slice())
    }
}

/// The row order that sorts `keys` (descending when `desc`), stably: a
/// permutation of `0..keys.len()` in `before` order. There is exactly one.
pub fn sort_permutation(keys: &Vec<Vec<char>>, desc: bool) -> (p: Vec<usize>)
    ensures
        is_permutation(p@, keys@.len() as int),
        sorted_by(keys@.map_values(|k: Vec<char>| k@), desc, p@),
{
    let ghost ks = keys@.map_values(|k: Vec<char>| k@);
    let n = keys.len();
    let mut p: Vec<usize> = Vec::new();
    let mut k: usize = 0;
    while k < n
        invariant
            n == keys@.len() == ks.len(),
            ks == keys@.map_values(|k: Vec<char>| k@),
            k <= n,
            p@.len() == k,
            forall|i: int| 0 <= i < k ==> 0 <= #[trigger] p@[i] < k,
            forall|i: int, j: int| 0 <= i < j < k ==> p@[i] != p@[j],
            sorted_by(ks, desc, p@),
        decreases n - k,
    {
        // Find the first position whose row comes after row `k`.
        let mut pos: usize = 0;
        while pos < p.len() && earlier_row_first(keys, desc, p[pos], k)
            invariant
                n == keys@.len() == ks.len(),
                ks == keys@.map_values(|k: Vec<char>| k@),
                k < n,
                p@.len() == k,
                pos <= k,
                forall|i: int| 0 <= i < k ==> 0 <= #[trigger] p@[i] < k,
                forall|i: int| 0 <= i < pos ==> before(ks, desc, #[trigger] p@[i] as int, k as int),
            decreases k - pos,
        {
            let q = p[pos];
            proof {
                lemma_lex_total(ks[q as int], ks[k as int]);
                assert(ks[q as int] == keys@[q as int]@);
                assert(ks[k as int] == keys@[k as int]@);
            }
            pos += 1;
        }
        proof {
            if pos < k {
                let q = p@[pos as int];
                assert(ks[q as int] == keys@[q as int]@);
                assert(ks[k as int] == keys@[k as int]@);
                lemma_lex_total(ks[q as int], ks[k as int]);
                assert(before(ks, desc, k as int, q as int));
            }
        }
        let ghost old_p = p@;
        p.insert(pos, k);
        proof {
            assert forall|i: int, j: int| 0 <= i < j < p@.len() implies before(
                ks,
                desc,
                #[trigger] p@[i] as int,
                #[trigger] p@[j] as int,
            ) by {
                if j < pos {
                    assert(p@[i] == old_p[i] && p@[j] == old_p[j]);
                } else if j == pos {
                    assert(p@[i] == old_p[i]);
                } else if i == pos {
                    assert(p@[j] == old_p[j - 1]);
                    let q = old_p[pos as int];
                    if j - 1 > pos {
                        assert(before(ks, desc, q as int, old_p[j - 1] as int));
                        lemma_before_transitive(ks, desc, k as int, q as int, old_p[j - 1] as int);
                    }
                } else if i < pos {
                    assert(p@[i] == old_p[i] && p@[j] == old_p[j - 1]);
                } else {
                    assert(p@[i] == old_p[i - 1] && p@[j] == old_p[j - 1]);
                }
            }
        }
        k += 1;
    }
    p
}

/// Two orders of the same rows, both in `before` order, are the same order.
proof fn lemma_sorted_order_unique(keys: Seq<Seq<char>>, desc: bool, a: Seq<usize>, b: Seq<usize>)
    requires
        sorted_by(keys, desc, a),
        sorted_by(keys, desc, b),
        forall|x: usize| a.contains(x) <==> b.contains(x),
        forall|i: int, j: int| 0 <= i < j < a.len() ==> a[i] != a[j],
        forall|i: int, j: int| 0 <= i < j < b.len() ==> b[i] != b[j],
    ensures
        a == b,
    decreases a.len() + b.len(),
{
    if a.len() == 0 || b.len() == 0 {
        if a.len() > 0 {
            assert(a.contains(a[0]));
        }
        if b.len() > 0 {
            assert(b.contains(b[0]));
        }
        assert(a =~= b);
    } else {
        assert(a.contains(a[0]));
        assert(b.contains(b[0]));
        let j = choose|j: int| 0 <= j < b.len() && b[j] == a[0];
        let i = choose|i: int| 0 <= i < a.len() && a[i] == b[0];
        if j > 0 {
            assert(before(keys, desc, b[0] as int, b[j] as int));
            if i > 0 {
                assert(before(keys, desc, a[0] as int, a[i] as int));
                lemma_before_total(keys, desc, a[0] as int, b[0] as int);
            }
        }
        assert(a[0] == b[0]);
        let ta = a.skip(1);
        let tb = b.skip(1);
        assert forall|x: usize| ta.contains(x) <==> tb.contains(x) by {
            if ta.contains(x) {
                let q = choose|q: int| 0 <= q < ta.len() && ta[q] == x;
                assert(a[q + 1] == x);
                assert(a.contains(x));
                let r = choose|r: int| 0 <= r < b.len() && b[r] == x;
                assert(tb[r - 1] == x);
            }
            if tb.contains(x) {
                let q = choose|q: int| 0 <= q < tb.len() && tb[q] == x;
                assert(b[q + 1] == x);
                assert(b.contains(x));
                let r = choose|r: int| 0 <= r < a.len() && a[r] == x;
                assert(ta[r - 1] == x);
            }
        }
        assert forall|i: int, j: int| 0 <= i < j < ta.len() implies before(
            keys,
            desc,
            #[trigger] ta[i] as int,
            #[trigger] ta[j] as int,
        ) by {
            assert(ta[i] == a[i + 1] && ta[j] == a[j + 1]);
        }
        assert forall|i: int, j: int| 0 <= i < j < tb.len() implies before(
            keys,
            desc,
            #[trigger] tb[i] as int,
            #[trigger] tb[j] as int,
        ) by {
            assert(tb[i] == b[i + 1] && tb[j] == b[j + 1]);
        }
        lemma_sorted_order_unique(keys, desc, ta, tb);
        assert(a =~= seq![a[0]] + ta);
        assert(b =~= seq![b[0]] + tb);
    }
}

/// On distinct keys a direction change is exactly a reversal: the
/// descending order is the ascending order backwards.
pub proof fn law_descending_reverses_ascending(keys: Seq<Seq<char>>, asc: Seq<usize>, desc: Seq<usize>)
    requires
        forall|i: int, j: int| 0 <= i < j < keys.len() ==> keys[i] != keys[j],
        is_permutation(asc, keys.len() as int),
        sorted_by(keys, false, asc),
        is_permutation(desc, keys.len() as int),
        sorted_by(keys, true, desc),
    ensures
        desc == asc.reverse(),
{
    let n = keys.len() as int;
    let r = asc.reverse();
    assert forall|i: int, j: int| 0 <= i < j < r.len() implies before(
        keys,
        true,
        #[trigger] r[i] as int,
        #[trigger] r[j] as int,
    ) by {
        let a = asc[n - 1 - j];
        let b = asc[n - 1 - i];
        assert(r[i] == b && r[j] == a);
        assert(before(keys, false, a as int, b as int));
        if keys[a as int] == keys[b as int] {
            if a < b {
                assert(keys[a as int] != keys[b as int]);
            } else if b < a {
                assert(keys[b as int] != keys[a as int]);
            }
        }
    }
    assert forall|x: usize| r.contains(x) <==> desc.contains(x) by {
        if r.contains(x) {
            let q = choose|q: int| 0 <= q < r.len() && r[q] == x;
            assert(asc[n - 1 - q] == x);
            lemma_permutation_has(desc, n, x as int);
        }
        if desc.contains(x) {
            let q = choose|q: int| 0 <= q < desc.len() && desc[q] == x;
            lemma_permutation_has(asc, n, x as int);
            let t = choose|t: int| 0 <= t < n && asc[t] == x;
            assert(r[n - 1 - t] == x);
        }
    }
    assert forall|i: int, j: int| 0 <= i < j < r.len() implies r[i] != r[j] by {
        assert(r[i] == asc[n - 1 - i] && r[j] == asc[n - 1 - j]);
    }
    lemma_sorted_order_unique(keys, true, r, desc);
}

/// A permutation of `0..n` lists every index below `n`.
proof fn lemma_permutation_has(p: Seq<usize>, n: int, x: int)
    requires
        is_permutation(p, n),
        0 <= x < n,
    ensures
        exists|t: int| 0 <= t < n && p[t] == x,
{
    let q = p.map_values(|v: usize| v as int);
    assert forall|i: int, j: int| 0 <= i < q.len() && 0 <= j < q.len() && i != j implies q[i]
        != q[j] by {
        if i < j {
            assert(p[i] != p[j]);
        } else {
            assert(p[j] != p[i]);
        }
    }
    q.unique_seq_to_set();
    if !(exists|t: int| 0 <= t < n && p[t] == x) {
        let r = vstd::set_lib::set_int_range(0, n).remove(x);
        assert forall|v: int| q.to_set().contains(v) implies r.contains(v) by {
            let t = choose|t: int| 0 <= t < q.len() && q[t] == v;
            assert(p[t] as int == v);
        }
        vstd::set_lib::lemma_int_range(0, n);
        vstd::set_lib::lemma_len_subset(q.to_set(), r);
    }
}

} // verus!
