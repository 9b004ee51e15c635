//! Why the script the search finds is a shortest one.
//!
//! A script is a route through the edit grid; this module shows what a route
//! can be cut, shifted or clamped into without getting dearer, that every
//! frontier value of the search is the end of a route, and that no route of a
//! given cost gets further along a diagonal than the search's frontier.
use vstd::prelude::*;
use vstd::std_specs::cmp::PartialEqSpec;
use crate::chigai::{
    Change, all_zero, block_replace, dels, inss, bounded, count_deletes, count_inserts, diag_same,
    equal_pairs_agree, equal_run, front_ok, lemma_equal_run_walks, lemma_walk_sides,
    lemma_walks_concat, moves_down, new_side, old_side, on_front, same, snake_ok, start_x,
    step_ok, trace_ok, walks,
};

verus! {

/// The number of edits in a script: its inserts plus its deletes.
pub open spec fn cost(cs: Seq<Change>) -> nat {
    count_inserts(cs) + count_deletes(cs)
}

/// Every `Equal` of `cs` pairs an old index below `o_hi` with a new index
/// below `n_hi`.
pub open spec fn equals_below(cs: Seq<Change>, o_hi: int, n_hi: int) -> bool {
    forall|i: int|
        0 <= i < cs.len() ==> (#[trigger] cs[i] matches Change::Equal { old_index, new_index }
            ==> old_index < o_hi && new_index < n_hi)
}

/// `cs` is a route from `(o, n)` to `(oe, ne)` whose `Equal` pairs agree and
/// stay below `(o_hi, n_hi)`.
pub open spec fn route<T: PartialEq>(
    cs: Seq<Change>,
    old: Seq<T>,
    new: Seq<T>,
    o_hi: int,
    n_hi: int,
    o: int,
    n: int,
    oe: int,
    ne: int,
) -> bool {
    &&& walks(cs, o, n, oe, ne)
    &&& equal_pairs_agree(cs, old, new)
    &&& equals_below(cs, o_hi, n_hi)
}

/// A walk splits where its two parts meet.
pub proof fn lemma_walks_split(a: Seq<Change>, b: Seq<Change>, o: int, n: int, oe: int, ne: int)
    requires
        walks(a + b, o, n, oe, ne),
    ensures
        walks(a, o, n, o + old_side(a).len(), n + new_side(a).len()),
        walks(b, o + old_side(a).len(), n + new_side(a).len(), oe, ne),
    decreases a.len(),
{
    if a.len() == 0 {
        assert(a + b =~= b);
    } else {
        assert((a + b)[0] == a[0]);
        assert((a + b).drop_first() =~= a.drop_first() + b);
        match a[0] {
            Change::Equal { .. } => lemma_walks_split(a.drop_first(), b, o + 1, n + 1, oe, ne),
            Change::Delete { .. } => lemma_walks_split(a.drop_first(), b, o + 1, n, oe, ne),
            Change::Insert { .. } => lemma_walks_split(a.drop_first(), b, o, n + 1, oe, ne),
        }
    }
}

/// Counting over a concatenation.
pub proof fn lemma_counts_concat(a: Seq<Change>, b: Seq<Change>)
    ensures
        count_inserts(a + b) == count_inserts(a) + count_inserts(b),
        count_deletes(a + b) == count_deletes(a) + count_deletes(b),
        cost(a + b) == cost(a) + cost(b),
    decreases a.len(),
{
    if a.len() == 0 {
        assert(a + b =~= b);
    } else {
        assert((a + b)[0] == a[0]);
        assert((a + b).drop_first() =~= a.drop_first() + b);
        lemma_counts_concat(a.drop_first(), b);
    }
}

/// Whether a change counts as an edit.
pub open spec fn edit_count(e: Change) -> nat {
    if e is Equal {
        0
    } else {
        1
    }
}

/// How far a change moves along the old side.
pub open spec fn old_step(e: Change) -> int {
    if e is Insert {
        0
    } else {
        1
    }
}

/// How far a change moves along the new side.
pub open spec fn new_step(e: Change) -> int {
    if e is Delete {
        0
    } else {
        1
    }
}

/// `e`, taken at `(o, n)`, names the indices it steps over.
pub open spec fn names(e: Change, o: int, n: int) -> bool {
    match e {
        Change::Equal { old_index, new_index } => old_index == o && new_index == n,
        Change::Delete { old_index } => old_index == o,
        Change::Insert { new_index } => new_index == n,
    }
}

/// The cost of one change.
pub proof fn lemma_cost_one(e: Change)
    ensures
        cost(seq![e]) == edit_count(e),
{
    let s = seq![e];
    assert(s.drop_first() =~= Seq::<Change>::empty());
    assert(count_inserts(s.drop_first()) == 0);
    assert(count_deletes(s.drop_first()) == 0);
}

/// The cost of a run of equal pairs is nothing.
pub proof fn lemma_equal_run_cost(o: int, nn: int, len: nat)
    ensures
        cost(equal_run(o, nn, len)) == 0,
    decreases len,
{
    if len > 0 {
        assert(equal_run(o, nn, len).drop_first() =~= equal_run(o + 1, nn + 1, (len - 1) as nat));
        lemma_equal_run_cost(o + 1, nn + 1, (len - 1) as nat);
    }
}

/// A walk's edits account for the distance it covers: deletes minus inserts
/// is the old-side distance minus the new-side distance.
pub proof fn lemma_walk_cost(cs: Seq<Change>, o: int, n: int, oe: int, ne: int)
    requires
        walks(cs, o, n, oe, ne),
    ensures
        o <= oe,
        n <= ne,
        count_deletes(cs) - count_inserts(cs) == (oe - o) - (ne - n),
        cost(cs) >= (oe - o) - (ne - n),
        cost(cs) >= (ne - n) - (oe - o),
        (cost(cs) + (oe - o) - (ne - n)) % 2 == 0,
{
    lemma_walk_sides(cs, o, n, oe, ne);
    assert(cost(cs) + (oe - o) - (ne - n) == 2 * count_deletes(cs));
}

/// The parts of a route keep its `Equal` pairs' properties.
pub proof fn lemma_pairs_sub<T: PartialEq>(
    cs: Seq<Change>,
    old: Seq<T>,
    new: Seq<T>,
    o_hi: int,
    n_hi: int,
    i: int,
    j: int,
)
    requires
        equal_pairs_agree(cs, old, new),
        equals_below(cs, o_hi, n_hi),
        0 <= i <= j <= cs.len(),
    ensures
        equal_pairs_agree(cs.subrange(i, j), old, new),
        equals_below(cs.subrange(i, j), o_hi, n_hi),
{
    let s = cs.subrange(i, j);
    assert forall|q: int| 0 <= q < s.len() implies (#[trigger] s[q] matches Change::Equal {
        old_index,
        new_index,
    } ==> same(old[old_index as int], new[new_index as int])) by {
        assert(s[q] == cs[i + q]);
    }
    assert forall|q: int| 0 <= q < s.len() implies (#[trigger] s[q] matches Change::Equal {
        old_index,
        new_index,
    } ==> old_index < o_hi && new_index < n_hi) by {
        assert(s[q] == cs[i + q]);
    }
}

/// Joining two routes that meet gives a route.
pub proof fn lemma_route_concat<T: PartialEq>(
    a: Seq<Change>,
    b: Seq<Change>,
    old: Seq<T>,
    new: Seq<T>,
    o_hi: int,
    n_hi: int,
    o0: int,
    n0: int,
    o1: int,
    n1: int,
    o2: int,
    n2: int,
)
    requires
        route(a, old, new, o_hi, n_hi, o0, n0, o1, n1),
        route(b, old, new, o_hi, n_hi, o1, n1, o2, n2),
    ensures
        route(a + b, old, new, o_hi, n_hi, o0, n0, o2, n2),
        cost(a + b) == cost(a) + cost(b),
{
    lemma_walks_concat(a, b, o0, n0, o1, n1, o2, n2);
    lemma_counts_concat(a, b);
    let s = a + b;
    assert forall|q: int| 0 <= q < s.len() implies (#[trigger] s[q] matches Change::Equal {
        old_index,
        new_index,
    } ==> same(old[old_index as int], new[new_index as int]) && old_index < o_hi && new_index
        < n_hi) by {
        if q < a.len() {
            assert(s[q] == a[q]);
        } else {
            assert(s[q] == b[q - a.len()]);
        }
    }
}

/// A single step that names the indices it steps over, an agreeing one
/// below the bounds if it is an `Equal`, is a route.
pub proof fn lemma_step_route<T: PartialEq>(
    e: Change,
    old: Seq<T>,
    new: Seq<T>,
    o_hi: int,
    n_hi: int,
    o: int,
    n: int,
)
    requires
        names(e, o, n),
        e is Equal ==> 0 <= o < old.len() && 0 <= n < new.len() && o < o_hi && n < n_hi && same(
            old[o],
            new[n],
        ),
    ensures
        route(seq![e], old, new, o_hi, n_hi, o, n, o + old_step(e), n + new_step(e)),
        cost(seq![e]) == edit_count(e),
{
    lemma_cost_one(e);
    let s = seq![e];
    assert(s.drop_first() =~= Seq::<Change>::empty());
    assert(s[0] == e);
    match e {
        Change::Equal { .. } => {
            assert(walks(s.drop_first(), o + 1, n + 1, o + 1, n + 1));
        },
        Change::Delete { .. } => {
            assert(walks(s.drop_first(), o + 1, n, o + 1, n));
        },
        Change::Insert { .. } => {
            assert(walks(s.drop_first(), o, n + 1, o, n + 1));
        },
    }
}

/// The last step of a nonempty walk.
pub proof fn lemma_last_step(cs: Seq<Change>, o: int, n: int, oe: int, ne: int)
    requires
        walks(cs, o, n, oe, ne),
        cs.len() > 0,
    ensures
        cs =~= cs.drop_last() + seq![cs.last()],
        names(cs.last(), oe - old_step(cs.last()), ne - new_step(cs.last())),
        walks(cs.drop_last(), o, n, oe - old_step(cs.last()), ne - new_step(cs.last())),
        cost(cs) == cost(cs.drop_last()) + edit_count(cs.last()),
{
    let p = cs.drop_last();
    let e = cs.last();
    assert(cs =~= p + seq![e]);
    lemma_walks_split(p, seq![e], o, n, oe, ne);
    lemma_counts_concat(p, seq![e]);
    lemma_cost_one(e);
    let s = seq![e];
    assert(s.drop_first() =~= Seq::<Change>::empty());
    assert(s[0] == e);
    let po = o + old_side(p).len();
    let pn = n + new_side(p).len();
    assert(walks(s, po, pn, oe, ne));
    match e {
        Change::Equal { .. } => {
            assert(walks(s.drop_first(), po + 1, pn + 1, oe, ne));
        },
        Change::Delete { .. } => {
            assert(walks(s.drop_first(), po + 1, pn, oe, ne));
        },
        Change::Insert { .. } => {
            assert(walks(s.drop_first(), po, pn + 1, oe, ne));
        },
    }
}

/// The first step of a nonempty walk.
pub proof fn lemma_first_step(cs: Seq<Change>, o: int, n: int, oe: int, ne: int)
    requires
        walks(cs, o, n, oe, ne),
        cs.len() > 0,
    ensures
        cs =~= seq![cs[0]] + cs.drop_first(),
        names(cs[0], o, n),
        walks(cs.drop_first(), o + old_step(cs[0]), n + new_step(cs[0]), oe, ne),
        cost(cs) == edit_count(cs[0]) + cost(cs.drop_first()),
{
    assert(cs =~= seq![cs[0]] + cs.drop_first());
    lemma_counts_concat(seq![cs[0]], cs.drop_first());
    lemma_cost_one(cs[0]);
}

/// A walk with no edits is the diagonal: both sides advance together, one
/// `Equal` pair per step.
pub proof fn lemma_free_walk(cs: Seq<Change>, o: int, n: int, oe: int, ne: int)
    requires
        walks(cs, o, n, oe, ne),
        cost(cs) == 0,
    ensures
        cs.len() == oe - o,
        oe - o == ne - n,
        forall|j: int|
            0 <= j < cs.len() ==> #[trigger] cs[j] == (Change::Equal {
                old_index: (o + j) as usize,
                new_index: (n + j) as usize,
            }),
        forall|j: int|
            0 <= j < cs.len() ==> (#[trigger] cs[j] matches Change::Equal { old_index, new_index }
                && old_index == o + j && new_index == n + j),
    decreases cs.len(),
{
    if cs.len() > 0 {
        lemma_first_step(cs, o, n, oe, ne);
        let rest = cs.drop_first();
        lemma_free_walk(rest, o + old_step(cs[0]), n + new_step(cs[0]), oe, ne);
        assert forall|j: int| 0 <= j < cs.len() implies #[trigger] cs[j] == (Change::Equal {
            old_index: (o + j) as usize,
            new_index: (n + j) as usize,
        }) && (cs[j] matches Change::Equal { old_index, new_index } && old_index == o + j && new_index
            == n + j) by {
            if j > 0 {
                assert(cs[j] == rest[j - 1]);
            }
        }
    }
}

/// A walk that is not empty moves.
pub proof fn lemma_empty_walk(cs: Seq<Change>, o: int, n: int, oe: int, ne: int)
    requires
        walks(cs, o, n, oe, ne),
        cs.len() == 0,
    ensures
        o == oe,
        n == ne,
{
}

/// A route to `(x, y)` that has moved along the new side can end one new
/// index earlier for at most one more edit; past the new-side bound it even
/// saves one.
pub proof fn lemma_end_back_new<T: PartialEq>(
    cs: Seq<Change>,
    old: Seq<T>,
    new: Seq<T>,
    o_hi: int,
    n_hi: int,
    o: int,
    n: int,
    x: int,
    y: int,
) -> (r: Seq<Change>)
    requires
        route(cs, old, new, o_hi, n_hi, o, n, x, y),
        n < y,
    ensures
        route(r, old, new, o_hi, n_hi, o, n, x, y - 1),
        cost(r) <= cost(cs) + 1,
        y > n_hi ==> cost(r) + 1 <= cost(cs),
    decreases cs.len(),
{
    if cs.len() == 0 {
        lemma_empty_walk(cs, o, n, x, y);
    }
    lemma_last_step(cs, o, n, x, y);
    let q = cs.drop_last();
    let e = cs.last();
    lemma_pairs_sub(cs, old, new, o_hi, n_hi, 0, cs.len() - 1);
    assert(cs.subrange(0, cs.len() - 1) =~= q);
    match e {
        Change::Insert { .. } => q,
        Change::Equal { old_index, new_index } => {
            assert(cs[cs.len() - 1] == e);
            let d = Change::Delete { old_index };
            lemma_step_route(d, old, new, o_hi, n_hi, x - 1, y - 1);
            lemma_route_concat(q, seq![d], old, new, o_hi, n_hi, o, n, x - 1, y - 1, x, y - 1);
            q + seq![d]
        },
        Change::Delete { old_index } => {
            let r1 = lemma_end_back_new(q, old, new, o_hi, n_hi, o, n, x - 1, y);
            let d = Change::Delete { old_index };
            lemma_step_route(d, old, new, o_hi, n_hi, x - 1, y - 1);
            lemma_route_concat(r1, seq![d], old, new, o_hi, n_hi, o, n, x - 1, y - 1, x, y - 1);
            r1 + seq![d]
        },
    }
}

/// The old-side twin of [`lemma_end_back_new`].
pub proof fn lemma_end_back_old<T: PartialEq>(
    cs: Seq<Change>,
    old: Seq<T>,
    new: Seq<T>,
    o_hi: int,
    n_hi: int,
    o: int,
    n: int,
    x: int,
    y: int,
) -> (r: Seq<Change>)
    requires
        route(cs, old, new, o_hi, n_hi, o, n, x, y),
        o < x,
    ensures
        route(r, old, new, o_hi, n_hi, o, n, x - 1, y),
        cost(r) <= cost(cs) + 1,
        x > o_hi ==> cost(r) + 1 <= cost(cs),
    decreases cs.len(),
{
    if cs.len() == 0 {
        lemma_empty_walk(cs, o, n, x, y);
    }
    lemma_last_step(cs, o, n, x, y);
    let q = cs.drop_last();
    let e = cs.last();
    lemma_pairs_sub(cs, old, new, o_hi, n_hi, 0, cs.len() - 1);
    assert(cs.subrange(0, cs.len() - 1) =~= q);
    match e {
        Change::Delete { .. } => q,
        Change::Equal { old_index, new_index } => {
            assert(cs[cs.len() - 1] == e);
            let i = Change::Insert { new_index };
            lemma_step_route(i, old, new, o_hi, n_hi, x - 1, y - 1);
            lemma_route_concat(q, seq![i], old, new, o_hi, n_hi, o, n, x - 1, y - 1, x - 1, y);
            q + seq![i]
        },
        Change::Insert { new_index } => {
            let r1 = lemma_end_back_old(q, old, new, o_hi, n_hi, o, n, x, y - 1);
            let i = Change::Insert { new_index };
            lemma_step_route(i, old, new, o_hi, n_hi, x - 1, y - 1);
            lemma_route_concat(r1, seq![i], old, new, o_hi, n_hi, o, n, x - 1, y - 1, x - 1, y);
            r1 + seq![i]
        },
    }
}

/// A route that ends past both bounds, anywhere but at the corner they make,
/// pays for every index it overshoots: the corner itself is that much
/// cheaper to reach.
pub proof fn lemma_clamp_corner<T: PartialEq>(
    cs: Seq<Change>,
    old: Seq<T>,
    new: Seq<T>,
    o_hi: int,
    n_hi: int,
    o: int,
    n: int,
    x: int,
    y: int,
) -> (r: Seq<Change>)
    requires
        route(cs, old, new, o_hi, n_hi, o, n, x, y),
        o <= o_hi <= x,
        n <= n_hi <= y,
    ensures
        route(r, old, new, o_hi, n_hi, o, n, o_hi, n_hi),
        cost(r) + (x - o_hi) + (y - n_hi) <= cost(cs),
    decreases (x - o_hi) + (y - n_hi),
{
    if x > o_hi {
        let r1 = lemma_end_back_old(cs, old, new, o_hi, n_hi, o, n, x, y);
        lemma_clamp_corner(r1, old, new, o_hi, n_hi, o, n, x - 1, y)
    } else if y > n_hi {
        let r1 = lemma_end_back_new(cs, old, new, o_hi, n_hi, o, n, x, y);
        lemma_clamp_corner(r1, old, new, o_hi, n_hi, o, n, x, y - 1)
    } else {
        cs
    }
}

/// Giving up the last index on both sides never makes a route dearer.
pub proof fn lemma_drop_end_pair<T: PartialEq>(
    cs: Seq<Change>,
    old: Seq<T>,
    new: Seq<T>,
    o_hi: int,
    n_hi: int,
    o: int,
    n: int,
    x: int,
    y: int,
) -> (r: Seq<Change>)
    requires
        route(cs, old, new, o_hi, n_hi, o, n, x, y),
        o < x,
        n < y,
    ensures
        route(r, old, new, o_hi, n_hi, o, n, x - 1, y - 1),
        cost(r) <= cost(cs),
{
    lemma_last_step(cs, o, n, x, y);
    let q = cs.drop_last();
    lemma_pairs_sub(cs, old, new, o_hi, n_hi, 0, cs.len() - 1);
    assert(cs.subrange(0, cs.len() - 1) =~= q);
    match cs.last() {
        Change::Equal { .. } => q,
        Change::Delete { .. } => lemma_end_back_new(q, old, new, o_hi, n_hi, o, n, x - 1, y),
        Change::Insert { .. } => lemma_end_back_old(q, old, new, o_hi, n_hi, o, n, x, y - 1),
    }
}

/// A route from `(x, y)` can start one new index later for at most one more
/// edit.
pub proof fn lemma_start_on_new<T: PartialEq>(
    cs: Seq<Change>,
    old: Seq<T>,
    new: Seq<T>,
    o_hi: int,
    n_hi: int,
    x: int,
    y: int,
    oe: int,
    ne: int,
) -> (r: Seq<Change>)
    requires
        route(cs, old, new, o_hi, n_hi, x, y, oe, ne),
        y < ne,
    ensures
        route(r, old, new, o_hi, n_hi, x, y + 1, oe, ne),
        cost(r) <= cost(cs) + 1,
    decreases cs.len(),
{
    if cs.len() == 0 {
        lemma_empty_walk(cs, x, y, oe, ne);
    }
    lemma_first_step(cs, x, y, oe, ne);
    let rest = cs.drop_first();
    lemma_pairs_sub(cs, old, new, o_hi, n_hi, 1, cs.len() as int);
    assert(cs.subrange(1, cs.len() as int) =~= rest);
    match cs[0] {
        Change::Insert { .. } => rest,
        Change::Equal { old_index, .. } => {
            let d = Change::Delete { old_index };
            lemma_step_route(d, old, new, o_hi, n_hi, x, y + 1);
            lemma_route_concat(seq![d], rest, old, new, o_hi, n_hi, x, y + 1, x + 1, y + 1, oe, ne);
            seq![d] + rest
        },
        Change::Delete { old_index } => {
            let r1 = lemma_start_on_new(rest, old, new, o_hi, n_hi, x + 1, y, oe, ne);
            let d = Change::Delete { old_index };
            lemma_step_route(d, old, new, o_hi, n_hi, x, y + 1);
            lemma_route_concat(seq![d], r1, old, new, o_hi, n_hi, x, y + 1, x + 1, y + 1, oe, ne);
            seq![d] + r1
        },
    }
}

/// The old-side twin of [`lemma_start_on_new`].
pub proof fn lemma_start_on_old<T: PartialEq>(
    cs: Seq<Change>,
    old: Seq<T>,
    new: Seq<T>,
    o_hi: int,
    n_hi: int,
    x: int,
    y: int,
    oe: int,
    ne: int,
) -> (r: Seq<Change>)
    requires
        route(cs, old, new, o_hi, n_hi, x, y, oe, ne),
        x < oe,
    ensures
        route(r, old, new, o_hi, n_hi, x + 1, y, oe, ne),
        cost(r) <= cost(cs) + 1,
    decreases cs.len(),
{
    if cs.len() == 0 {
        lemma_empty_walk(cs, x, y, oe, ne);
    }
    lemma_first_step(cs, x, y, oe, ne);
    let rest = cs.drop_first();
    lemma_pairs_sub(cs, old, new, o_hi, n_hi, 1, cs.len() as int);
    assert(cs.subrange(1, cs.len() as int) =~= rest);
    match cs[0] {
        Change::Delete { .. } => rest,
        Change::Equal { new_index, .. } => {
            let i = Change::Insert { new_index };
            lemma_step_route(i, old, new, o_hi, n_hi, x + 1, y);
            lemma_route_concat(seq![i], rest, old, new, o_hi, n_hi, x + 1, y, x + 1, y + 1, oe, ne);
            seq![i] + rest
        },
        Change::Insert { new_index } => {
            let r1 = lemma_start_on_old(rest, old, new, o_hi, n_hi, x, y + 1, oe, ne);
            let i = Change::Insert { new_index };
            lemma_step_route(i, old, new, o_hi, n_hi, x + 1, y);
            lemma_route_concat(seq![i], r1, old, new, o_hi, n_hi, x + 1, y, x + 1, y + 1, oe, ne);
            seq![i] + r1
        },
    }
}

/// Giving up the first index on both sides never makes a route dearer.
pub proof fn lemma_drop_start_pair<T: PartialEq>(
    cs: Seq<Change>,
    old: Seq<T>,
    new: Seq<T>,
    o_hi: int,
    n_hi: int,
    x: int,
    y: int,
    oe: int,
    ne: int,
) -> (r: Seq<Change>)
    requires
        route(cs, old, new, o_hi, n_hi, x, y, oe, ne),
        x < oe,
        y < ne,
    ensures
        route(r, old, new, o_hi, n_hi, x + 1, y + 1, oe, ne),
        cost(r) <= cost(cs),
{
    lemma_first_step(cs, x, y, oe, ne);
    let rest = cs.drop_first();
    lemma_pairs_sub(cs, old, new, o_hi, n_hi, 1, cs.len() as int);
    assert(cs.subrange(1, cs.len() as int) =~= rest);
    match cs[0] {
        Change::Equal { .. } => rest,
        Change::Delete { .. } => lemma_start_on_new(rest, old, new, o_hi, n_hi, x + 1, y, oe, ne),
        Change::Insert { .. } => lemma_start_on_old(rest, old, new, o_hi, n_hi, x, y + 1, oe, ne),
    }
}

/// A walk's `Equal` pairs lie below where it ends.
pub proof fn lemma_walk_below(cs: Seq<Change>, o: int, n: int, oe: int, ne: int)
    requires
        walks(cs, o, n, oe, ne),
    ensures
        equals_below(cs, oe, ne),
    decreases cs.len(),
{
    if cs.len() > 0 {
        lemma_first_step(cs, o, n, oe, ne);
        let rest = cs.drop_first();
        let (o1, n1) = (o + old_step(cs[0]), n + new_step(cs[0]));
        lemma_walk_below(rest, o1, n1, oe, ne);
        lemma_walk_sides(rest, o1, n1, oe, ne);
        assert forall|i: int| 0 <= i < cs.len() implies (#[trigger] cs[i] matches Change::Equal {
            old_index,
            new_index,
        } ==> old_index < oe && new_index < ne) by {
            if i > 0 {
                assert(cs[i] == rest[i - 1]);
            }
        }
    }
}

/// A frontier value that has passed the far corner `(n, m)` of the window
/// on both sides.
pub open spec fn past_corner(v: Seq<usize>, c: int, k: int, n: int, m: int) -> bool {
    v[c + k] >= n && v[c + k] - k >= m
}

/// The recorded search stays representable: the window and every frontier
/// value, plus one, fit in a `usize`.
pub open spec fn search_fits(lo: int, n: int, m: int, c: int) -> bool {
    &&& 0 <= lo
    &&& 1 <= n
    &&& 1 <= m
    &&& 1 <= c <= n + m
    &&& lo + 3 * (n + m) + 3 <= usize::MAX
}

/// The first `d` steps of the search are recorded in `tr`: snapshot `i` has
/// the frontier's width and bound, the first is all zeros, and each later one
/// is a correct step from the one before.
pub open spec fn recorded<T: PartialEq>(
    old: Seq<T>,
    new: Seq<T>,
    lo: int,
    n: int,
    m: int,
    tr: Seq<Seq<usize>>,
    c: int,
    d: int,
) -> bool {
    &&& 0 <= d <= c + 1
    &&& tr.len() > d
    &&& forall|i: int| 0 <= i <= d ==> (#[trigger] tr[i]).len() == 2 * c + 1 && bounded(tr[i], n + i)
    &&& all_zero(tr[0])
    &&& forall|dd: int| 0 <= dd < d ==> #[trigger] trace_ok(old, new, lo, n, m, tr, c, dd)
}

/// A snake extends a route along its diagonal at no cost.
pub proof fn lemma_snake_route<T: PartialEq>(
    p: Seq<Change>,
    old: Seq<T>,
    new: Seq<T>,
    lo: int,
    n: int,
    m: int,
    k: int,
    sx: int,
    ex: int,
) -> (r: Seq<Change>)
    requires
        route(p, old, new, lo + n, lo + m, lo, lo, lo + sx, lo + sx - k),
        snake_ok(old, new, lo, n, m, k, sx, ex),
        0 <= lo,
        lo + ex <= usize::MAX,
        lo + ex - k <= usize::MAX,
    ensures
        route(r, old, new, lo + n, lo + m, lo, lo, lo + ex, lo + ex - k),
        cost(r) == cost(p),
{
    let run = equal_run(lo + sx, lo + sx - k, (ex - sx) as nat);
    lemma_equal_run_walks(lo + sx, lo + sx - k, (ex - sx) as nat);
    lemma_equal_run_cost(lo + sx, lo + sx - k, (ex - sx) as nat);
    assert forall|q: int| 0 <= q < run.len() implies (#[trigger] run[q] matches Change::Equal {
        old_index,
        new_index,
    } ==> same(old[old_index as int], new[new_index as int]) && old_index < lo + n && new_index
        < lo + m) by {
        assert(diag_same(old, new, lo, k, sx + q));
    }
    lemma_route_concat(p, run, old, new, lo + n, lo + m, lo, lo, lo + sx, lo + sx - k, lo + ex, lo + ex - k);
    p + run
}

/// Every start of a snake the search makes at step `d` is the end of a route
/// of at most `d` edits.
pub proof fn lemma_start_route<T: PartialEq>(
    old: Seq<T>,
    new: Seq<T>,
    lo: int,
    n: int,
    m: int,
    tr: Seq<Seq<usize>>,
    c: int,
    d: int,
    k: int,
) -> (p: Seq<Change>)
    requires
        search_fits(lo, n, m, c),
        recorded(old, new, lo, n, m, tr, c, d),
        on_front(d, k),
    ensures
        route(
            p,
            old,
            new,
            lo + n,
            lo + m,
            lo,
            lo,
            lo + start_x(tr[d], c, d, k),
            lo + start_x(tr[d], c, d, k) - k,
        ),
        cost(p) <= d,
    decreases d,
{
    if d == 0 {
        assert(tr[0][c + 1] == 0);
        Seq::empty()
    } else {
        let down = moves_down(tr[d], c, d, k);
        let pk = if down {
            k + 1
        } else {
            k - 1
        };
        assert(on_front(d - 1, pk));
        assert(trace_ok(old, new, lo, n, m, tr, c, d - 1));
        assert(step_ok(old, new, lo, n, m, tr[d - 1], tr[d], c, d - 1, pk));
        let sx = start_x(tr[d - 1], c, d - 1, pk);
        let v = tr[d][c + pk] as int;
        assert(bounded(tr[d], n + d));
        assert(v <= n + d);
        let q = lemma_start_route(old, new, lo, n, m, tr, c, d - 1, pk);
        let q2 = lemma_snake_route(q, old, new, lo, n, m, pk, sx, v);
        if down {
            let e = Change::Insert { new_index: (lo + v - pk) as usize };
            lemma_step_route(e, old, new, lo + n, lo + m, lo + v, lo + v - pk);
            lemma_route_concat(q2, seq![e], old, new, lo + n, lo + m, lo, lo, lo + v, lo + v - pk, lo + v, lo + v - pk + 1);
            q2 + seq![e]
        } else {
            let e = Change::Delete { old_index: (lo + v) as usize };
            lemma_step_route(e, old, new, lo + n, lo + m, lo + v, lo + v - pk);
            lemma_route_concat(q2, seq![e], old, new, lo + n, lo + m, lo, lo, lo + v, lo + v - pk, lo + v + 1, lo + v - pk);
            q2 + seq![e]
        }
    }
}

/// The search's frontier is furthest-reaching: no route of at most `d`
/// edits inside the window gets further along diagonal `k` than step `d`'s
/// frontier does.
pub proof fn lemma_furthest<T: PartialEq>(
    old: Seq<T>,
    new: Seq<T>,
    lo: int,
    n: int,
    m: int,
    tr: Seq<Seq<usize>>,
    c: int,
    d: int,
    k: int,
    p: Seq<Change>,
    x: int,
)
    requires
        T::obeys_eq_spec(),
        search_fits(lo, n, m, c),
        recorded(old, new, lo, n, m, tr, c, d + 1),
        on_front(d, k),
        route(p, old, new, lo + n, lo + m, lo, lo, lo + x, lo + x - k),
        x <= n,
        x - k <= m,
        cost(p) <= d,
    ensures
        x <= tr[d + 1][c + k],
    decreases d, p.len(),
{
    assert(trace_ok(old, new, lo, n, m, tr, c, d));
    assert(step_ok(old, new, lo, n, m, tr[d], tr[d + 1], c, d, k));
    let sx = start_x(tr[d], c, d, k);
    let v = tr[d + 1][c + k] as int;
    if p.len() > 0 {
        lemma_last_step(p, lo, lo, lo + x, lo + x - k);
        let q = p.drop_last();
        let e = p.last();
        lemma_pairs_sub(p, old, new, lo + n, lo + m, 0, p.len() - 1);
        assert(p.subrange(0, p.len() - 1) =~= q);
        assert(p[p.len() - 1] == e);
        match e {
            Change::Equal { .. } => {
                lemma_furthest(old, new, lo, n, m, tr, c, d, k, q, x - 1);
                if x - 1 == v {
                    assert(diag_same(old, new, lo, k, x - 1));
                }
            },
            Change::Delete { .. } => {
                lemma_walk_cost(q, lo, lo, lo + x - 1, lo + x - k);
                assert(on_front(d - 1, k - 1));
                lemma_furthest(old, new, lo, n, m, tr, c, d - 1, k - 1, q, x - 1);
            },
            Change::Insert { .. } => {
                lemma_walk_cost(q, lo, lo, lo + x, lo + x - k - 1);
                assert(on_front(d - 1, k + 1));
                lemma_furthest(old, new, lo, n, m, tr, c, d - 1, k + 1, q, x);
            },
        }
    }
}

/// The first frontier value to pass the window's far corner lands exactly on
/// it: a route that overshoots would make the corner itself reachable with
/// fewer edits, and the search would have passed it at an earlier step.
pub proof fn lemma_only_corner<T: PartialEq>(
    old: Seq<T>,
    new: Seq<T>,
    lo: int,
    n: int,
    m: int,
    tr: Seq<Seq<usize>>,
    c: int,
    d: int,
    k: int,
    x: int,
)
    requires
        T::obeys_eq_spec(),
        search_fits(lo, n, m, c),
        recorded(old, new, lo, n, m, tr, c, d),
        forall|dd: int, q: int|
            0 <= dd < d && on_front(dd, q) ==> !#[trigger] past_corner(tr[dd + 1], c, q, n, m),
        on_front(d, k),
        snake_ok(old, new, lo, n, m, k, start_x(tr[d], c, d, k), x),
        x <= n + d + 1,
        x >= n,
        x - k >= m,
    ensures
        x == n,
        x - k == m,
{
    let p0 = lemma_start_route(old, new, lo, n, m, tr, c, d, k);
    let p = lemma_snake_route(p0, old, new, lo, n, m, k, start_x(tr[d], c, d, k), x);
    if x != n || x - k != m {
        let r = lemma_clamp_corner(p, old, new, lo + n, lo + m, lo, lo, lo + x, lo + x - k);
        let dd = cost(r) as int;
        lemma_walk_cost(r, lo, lo, lo + n, lo + m);
        assert(on_front(dd, n - m));
        lemma_furthest(old, new, lo, n, m, tr, c, dd, n - m, r, n);
        assert(past_corner(tr[dd + 1], c, n - m, n, m));
    }
}

/// A search that passed the far corner first at step `d` (and records the
/// steps before it) has a route of `d` edits to it at best: no route through
/// the window has fewer.
pub proof fn lemma_found_is_shortest<T: PartialEq>(
    old: Seq<T>,
    new: Seq<T>,
    lo: int,
    n: int,
    m: int,
    tr: Seq<Seq<usize>>,
    c: int,
    d: int,
    other: Seq<Change>,
)
    requires
        T::obeys_eq_spec(),
        search_fits(lo, n, m, c),
        recorded(old, new, lo, n, m, tr, c, d),
        forall|dd: int, q: int|
            0 <= dd < d && on_front(dd, q) ==> !#[trigger] past_corner(tr[dd + 1], c, q, n, m),
        walks(other, lo, lo, lo + n, lo + m),
        equal_pairs_agree(other, old, new),
    ensures
        d <= cost(other),
{
    if cost(other) < d {
        lemma_walk_below(other, lo, lo, lo + n, lo + m);
        let dd = cost(other) as int;
        lemma_walk_cost(other, lo, lo, lo + n, lo + m);
        assert(on_front(dd, n - m));
        lemma_furthest(old, new, lo, n, m, tr, c, dd, n - m, other, n);
        assert(past_corner(tr[dd + 1], c, n - m, n, m));
    }
}

/// A run of deletes costs one edit each.
pub proof fn lemma_dels_cost(o: int, len: nat)
    ensures
        cost(dels(o, len)) == len,
    decreases len,
{
    if len > 0 {
        assert(dels(o, len).drop_first() =~= dels(o + 1, (len - 1) as nat));
        lemma_dels_cost(o + 1, (len - 1) as nat);
    }
}

/// A run of inserts costs one edit each.
pub proof fn lemma_inss_cost(n: int, len: nat)
    ensures
        cost(inss(n, len)) == len,
    decreases len,
{
    if len > 0 {
        assert(inss(n, len).drop_first() =~= inss(n + 1, (len - 1) as nat));
        lemma_inss_cost(n + 1, (len - 1) as nat);
    }
}

/// A block replace costs an edit per element on either side.
pub proof fn lemma_block_cost(lo: int, o_hi: int, n_hi: int)
    requires
        lo <= o_hi,
        lo <= n_hi,
    ensures
        cost(block_replace(lo, o_hi, n_hi)) == (o_hi - lo) + (n_hi - lo),
{
    let a = dels(lo, (o_hi - lo) as nat);
    let b = inss(lo, (n_hi - lo) as nat);
    assert(block_replace(lo, o_hi, n_hi) =~= a + b);
    lemma_dels_cost(lo, (o_hi - lo) as nat);
    lemma_inss_cost(lo, (n_hi - lo) as nat);
    lemma_counts_concat(a, b);
}

/// A route from `(i, i)` gives a route from `(p, p)`, `p` further along both
/// sides, with no more edits.
pub proof fn lemma_trim_front<T: PartialEq>(
    cs: Seq<Change>,
    old: Seq<T>,
    new: Seq<T>,
    o_hi: int,
    n_hi: int,
    i: int,
    p: int,
    x: int,
    y: int,
) -> (r: Seq<Change>)
    requires
        route(cs, old, new, o_hi, n_hi, i, i, x, y),
        i <= p <= x,
        p <= y,
    ensures
        route(r, old, new, o_hi, n_hi, p, p, x, y),
        cost(r) <= cost(cs),
    decreases p - i,
{
    if i < p {
        let r1 = lemma_drop_start_pair(cs, old, new, o_hi, n_hi, i, i, x, y);
        lemma_trim_front(r1, old, new, o_hi, n_hi, i + 1, p, x, y)
    } else {
        cs
    }
}

/// A route to `(x, y)` gives a route to `(x - t, y - t)` with no more edits.
pub proof fn lemma_trim_back<T: PartialEq>(
    cs: Seq<Change>,
    old: Seq<T>,
    new: Seq<T>,
    o_hi: int,
    n_hi: int,
    p: int,
    x: int,
    y: int,
    t: int,
) -> (r: Seq<Change>)
    requires
        route(cs, old, new, o_hi, n_hi, p, p, x, y),
        0 <= t,
        p <= x - t,
        p <= y - t,
    ensures
        route(r, old, new, o_hi, n_hi, p, p, x - t, y - t),
        cost(r) <= cost(cs),
    decreases t,
{
    if t > 0 {
        let r1 = lemma_drop_end_pair(cs, old, new, o_hi, n_hi, p, p, x, y);
        lemma_trim_back(r1, old, new, o_hi, n_hi, p, x - 1, y - 1, t - 1)
    } else {
        cs
    }
}

/// No script through the whole of both sequences has fewer edits than `cs`.
pub open spec fn is_shortest<T: PartialEq>(cs: Seq<Change>, old: Seq<T>, new: Seq<T>) -> bool {
    forall|other: Seq<Change>|
        #[trigger] walks(other, 0, 0, old.len() as int, new.len() as int) && equal_pairs_agree(
            other,
            old,
            new,
        ) ==> cost(cs) <= cost(other)
}

} // verus!
