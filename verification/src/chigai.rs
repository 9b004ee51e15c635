//! `chigai`: the difference between two sequences, as a minimal-where-possible
//! edit script (Myers' O(ND) search over a prefix/suffix-trimmed window, with a
//! cost bound past which it falls back to a whole-block replace).
use vstd::prelude::*;
use vstd::std_specs::cmp::PartialEqSpec;
use crate::strings::{lemma_encoding_injective, lemma_lines_count, line_keys, lines_of, lines_spec};
use crate::shortest::{
    cost, lemma_block_cost, lemma_cost_one, lemma_counts_concat, lemma_found_is_shortest, lemma_free_walk,
    lemma_equal_run_cost, lemma_only_corner, lemma_trim_back, lemma_trim_front, lemma_walk_below,
    lemma_walk_cost, is_shortest, past_corner, recorded, search_fits,
};

verus! {

/// One edit operation. Indices are into the ORIGINAL slices.
#[derive(Debug, Clone, Copy, PartialEq, Eq, Structural)]
pub enum Change {
    /// `old[old_index]` and `new[new_index]` are equal.
    Equal { old_index: usize, new_index: usize },
    /// `old[old_index]` is absent from the new sequence.
    Delete { old_index: usize },
    /// `new[new_index]` is absent from the old sequence.
    Insert { new_index: usize },
}

impl Change {
    pub fn is_equal(&self) -> (r: bool)
        ensures
            r == (*self is Equal),
    {
        match self {
            Change::Equal { .. } => true,
            _ => false,
        }
    }
}

/// Tuning for [`diff`].
#[derive(Debug, Clone, Copy)]
pub struct DiffOptions {
    /// Maximum edit distance explored before giving up on minimality;
    /// `None` always minimises.
    pub max_cost: Option<usize>,
}

impl Default for DiffOptions {
    /// 4096 edits.
    fn default() -> (r: Self)
        ensures
            r.max_cost == Some(4096usize),
    {
        DiffOptions { max_cost: Some(4096) }
    }
}

/// The result of comparing two sequences.
#[derive(Debug, Clone, PartialEq, Eq)]
pub struct Diff {
    changes: Vec<Change>,
    minimal: bool,
}

// ---------------------------------------------------------------------------
// The model: an edit script is a walk through the (old, new) index grid.
// ---------------------------------------------------------------------------

/// `cs` walks the grid from `(o, n)` to `(o_end, n_end)`: an `Equal` steps both
/// indices, a `Delete` steps the old one and an `Insert` the new one, and every
/// change names exactly the index it steps over.
pub open spec fn walks(cs: Seq<Change>, o: int, n: int, o_end: int, n_end: int) -> bool
    decreases cs.len(),
{
    if cs.len() == 0 {
        o == o_end && n == n_end
    } else {
        match cs[0] {
            Change::Equal { old_index, new_index } => old_index == o && new_index == n && walks(
                cs.drop_first(),
                o + 1,
                n + 1,
                o_end,
                n_end,
            ),
            Change::Delete { old_index } => old_index == o && walks(
                cs.drop_first(),
                o + 1,
                n,
                o_end,
                n_end,
            ),
            Change::Insert { new_index } => new_index == n && walks(
                cs.drop_first(),
                o,
                n + 1,
                o_end,
                n_end,
            ),
        }
    }
}

/// The old-side indices a script mentions (`Equal` and `Delete`), in order:
/// what applying the script "backwards" reads out of `old`.
pub open spec fn old_side(cs: Seq<Change>) -> Seq<int>
    decreases cs.len(),
{
    if cs.len() == 0 {
        Seq::empty()
    } else {
        let rest = old_side(cs.drop_first());
        match cs[0] {
            Change::Equal { old_index, .. } => seq![old_index as int] + rest,
            Change::Delete { old_index } => seq![old_index as int] + rest,
            Change::Insert { .. } => rest,
        }
    }
}

/// The new-side indices a script mentions (`Equal` and `Insert`), in order:
/// what applying the script to `old` writes out of `new`.
pub open spec fn new_side(cs: Seq<Change>) -> Seq<int>
    decreases cs.len(),
{
    if cs.len() == 0 {
        Seq::empty()
    } else {
        let rest = new_side(cs.drop_first());
        match cs[0] {
            Change::Equal { new_index, .. } => seq![new_index as int] + rest,
            Change::Insert { new_index } => seq![new_index as int] + rest,
            Change::Delete { .. } => rest,
        }
    }
}

/// The integers `lo, lo + 1, ..., hi - 1`.
pub open spec fn range(lo: int, hi: int) -> Seq<int> {
    Seq::new((hi - lo) as nat, |i: int| lo + i)
}

/// Whether `a` and `b` compare equal, as far as `T` promises anything about
/// its `==`.
pub open spec fn same<T: PartialEq>(a: T, b: T) -> bool {
    T::obeys_eq_spec() ==> a.eq_spec(&b)
}

/// Every `Equal` change pairs elements that compare equal.
pub open spec fn equal_pairs_agree<T: PartialEq>(cs: Seq<Change>, old: Seq<T>, new: Seq<T>) -> bool {
    forall|i: int|
        0 <= i < cs.len() ==> (#[trigger] cs[i] matches Change::Equal { old_index, new_index }
            ==> same(old[old_index as int], new[new_index as int]))
}

/// Number of changes of each kind.
pub open spec fn count_inserts(cs: Seq<Change>) -> nat
    decreases cs.len(),
{
    if cs.len() == 0 {
        0
    } else {
        (if cs[0] is Insert {
            1nat
        } else {
            0nat
        }) + count_inserts(cs.drop_first())
    }
}

pub open spec fn count_deletes(cs: Seq<Change>) -> nat
    decreases cs.len(),
{
    if cs.len() == 0 {
        0
    } else {
        (if cs[0] is Delete {
            1nat
        } else {
            0nat
        }) + count_deletes(cs.drop_first())
    }
}

/// A block replace: delete `old[lo..o_hi]`, then insert `new[lo..n_hi]`.
pub open spec fn block_replace(lo: int, o_hi: int, n_hi: int) -> Seq<Change> {
    Seq::new((o_hi - lo) as nat, |i: int| Change::Delete { old_index: (lo + i) as usize }) + Seq::new(
        (n_hi - lo) as nat,
        |i: int| Change::Insert { new_index: (lo + i) as usize },
    )
}

impl View for Diff {
    type V = (Seq<Change>, bool);

    closed spec fn view(&self) -> (Seq<Change>, bool) {
        (self.changes@, self.minimal)
    }
}

impl Diff {
    pub fn changes(&self) -> (r: &[Change])
        ensures
            r@ == self@.0,
    {
        self.changes.as_slice()
    }

    /// Whether the script came out of the search rather than the cost-bound
    /// fallback.
    pub fn is_minimal(&self) -> (r: bool)
        ensures
            r == self@.1,
    {
        self.minimal
    }

    /// True when every change is an `Equal`.
    pub fn is_empty_change(&self) -> (r: bool)
        ensures
            r == (forall|i: int| 0 <= i < self@.0.len() ==> #[trigger] self@.0[i] is Equal),
    {
        let mut i: usize = 0;
        while i < self.changes.len()
            invariant
                i <= self.changes@.len(),
                forall|j: int| 0 <= j < i ==> #[trigger] self.changes@[j] is Equal,
            decreases self.changes@.len() - i,
        {
            if !self.changes[i].is_equal() {
                return false;
            }
            i += 1;
        }
        true
    }

    /// `(inserted, deleted)`.
    pub fn stats(&self) -> (r: (usize, usize))
        ensures
            r.0 == count_inserts(self@.0),
            r.1 == count_deletes(self@.0),
    {
        let mut ins: usize = 0;
        let mut del: usize = 0;
        let len = self.changes.len();
        let mut i: usize = len;
        while i > 0
            invariant
                len == self.changes@.len(),
                i <= len,
                ins == count_inserts(self.changes@.subrange(i as int, self.changes@.len() as int)),
                del == count_deletes(self.changes@.subrange(i as int, self.changes@.len() as int)),
                ins + del <= len - i,
            decreases i,
        {
            let ghost tail = self.changes@.subrange(i as int, self.changes@.len() as int);
            i -= 1;
            let ghost tail2 = self.changes@.subrange(i as int, self.changes@.len() as int);
            assert(tail2.drop_first() =~= tail);
            match self.changes[i] {
                Change::Insert { .. } => {
                    ins += 1;
                },
                Change::Delete { .. } => {
                    del += 1;
                },
                Change::Equal { .. } => {},
            }
        }
        assert(self.changes@.subrange(0, self.changes@.len() as int) =~= self.changes@);
        (ins, del)
    }
}

// ---------------------------------------------------------------------------
// Laws about scripts.
// ---------------------------------------------------------------------------

/// Concatenating two walks that meet is a walk.
pub proof fn lemma_walks_concat(a: Seq<Change>, b: Seq<Change>, o0: int, n0: int, o1: int, n1: int, o2: int, n2: int)
    requires
        walks(a, o0, n0, o1, n1),
        walks(b, o1, n1, o2, n2),
    ensures
        walks(a + b, o0, n0, o2, n2),
    decreases a.len(),
{
    if a.len() == 0 {
        assert(a + b =~= b);
    } else {
        assert((a + b).drop_first() =~= a.drop_first() + b);
        match a[0] {
            Change::Equal { .. } => lemma_walks_concat(a.drop_first(), b, o0 + 1, n0 + 1, o1, n1, o2, n2),
            Change::Delete { .. } => lemma_walks_concat(a.drop_first(), b, o0 + 1, n0, o1, n1, o2, n2),
            Change::Insert { .. } => lemma_walks_concat(a.drop_first(), b, o0, n0 + 1, o1, n1, o2, n2),
        }
    }
}

/// A walk reads every old index once, in order, and writes every new index
/// once, in order — applying it to `old` reconstructs `new`, and its
/// delete/equal side reconstructs `old`.
pub proof fn lemma_walk_sides(cs: Seq<Change>, o: int, n: int, o_end: int, n_end: int)
    requires
        walks(cs, o, n, o_end, n_end),
    ensures
        old_side(cs) == range(o, o_end),
        new_side(cs) == range(n, n_end),
        o <= o_end,
        n <= n_end,
        count_deletes(cs) + (n_end - n) == count_inserts(cs) + (o_end - o),
    decreases cs.len(),
{
    if cs.len() == 0 {
        assert(range(o, o_end) =~= Seq::<int>::empty());
        assert(range(n, n_end) =~= Seq::<int>::empty());
    } else {
        match cs[0] {
            Change::Equal { .. } => {
                lemma_walk_sides(cs.drop_first(), o + 1, n + 1, o_end, n_end);
                assert(range(o, o_end) =~= seq![o] + range(o + 1, o_end));
                assert(range(n, n_end) =~= seq![n] + range(n + 1, n_end));
            },
            Change::Delete { .. } => {
                lemma_walk_sides(cs.drop_first(), o + 1, n, o_end, n_end);
                assert(range(o, o_end) =~= seq![o] + range(o + 1, o_end));
            },
            Change::Insert { .. } => {
                lemma_walk_sides(cs.drop_first(), o, n + 1, o_end, n_end);
                assert(range(n, n_end) =~= seq![n] + range(n + 1, n_end));
            },
        }
    }
}

/// The reconstruction law of a diff: a script produced by [`diff`] reads
/// `old` exactly once in order on its equal/delete side and writes `new`
/// exactly once in order on its equal/insert side, and
/// `inserted - deleted == new.len() - old.len()`.
pub proof fn law_diff_reconstructs(d: Diff, n_old: int, n_new: int)
    requires
        walks(d@.0, 0, 0, n_old, n_new),
    ensures
        old_side(d@.0) == range(0, n_old),
        new_side(d@.0) == range(0, n_new),
        count_inserts(d@.0) - count_deletes(d@.0) == n_new - n_old,
{
    lemma_walk_sides(d@.0, 0, 0, n_old, n_new);
}

proof fn lemma_all_equal_free(cs: Seq<Change>)
    requires
        forall|i: int| 0 <= i < cs.len() ==> #[trigger] cs[i] is Equal,
    ensures
        cost(cs) == 0,
    decreases cs.len(),
{
    if cs.len() > 0 {
        assert forall|i: int| 0 <= i < cs.drop_first().len() implies #[trigger] cs.drop_first()[i] is Equal by {
            assert(cs.drop_first()[i] == cs[i + 1]);
        }
        lemma_all_equal_free(cs.drop_first());
    }
}

/// A diff is all `Equal` exactly when the two sequences are equal, element
/// by element (as far as `T`'s `==` is lawful): `d` is a diff of `old` and
/// `new`, so it walks both and pairs only agreeing elements, and [`diff`]
/// gives no other change for equal sequences.
pub proof fn law_no_change_exactly_for_equal_inputs<T: PartialEq>(d: Diff, old: Seq<T>, new: Seq<T>)
    requires
        T::obeys_eq_spec(),
        walks(d@.0, 0, 0, old.len() as int, new.len() as int),
        equal_pairs_agree(d@.0, old, new),
        (old.len() == new.len() && forall|i: int| 0 <= i < old.len() ==> #[trigger] old[i].eq_spec(&new[i]))
            ==> forall|i: int| 0 <= i < d@.0.len() ==> #[trigger] d@.0[i] is Equal,
    ensures
        (forall|i: int| 0 <= i < d@.0.len() ==> #[trigger] d@.0[i] is Equal) <==> (old.len() == new.len()
            && forall|i: int| 0 <= i < old.len() ==> #[trigger] old[i].eq_spec(&new[i])),
{
    let cs = d@.0;
    if forall|i: int| 0 <= i < cs.len() ==> #[trigger] cs[i] is Equal {
        lemma_all_equal_free(cs);
        lemma_free_walk(cs, 0, 0, old.len() as int, new.len() as int);
        assert forall|i: int| 0 <= i < old.len() implies #[trigger] old[i].eq_spec(&new[i]) by {
            assert(cs[i] matches Change::Equal { old_index, new_index } && old_index == i && new_index == i);
        }
    }
}

// ---------------------------------------------------------------------------
// Myers' search.
// ---------------------------------------------------------------------------

/// `old[lo + j]` and `new[lo + j - k]` agree: one step of a snake along
/// diagonal `k` of the window that starts at `lo` in both sequences.
pub open spec fn diag_same<T: PartialEq>(old: Seq<T>, new: Seq<T>, lo: int, k: int, j: int) -> bool {
    same(old[lo + j], new[lo + j - k])
}

/// A snake on diagonal `k` from x = `sx` to x = `ex`: it starts on the grid,
/// only runs through agreeing elements, stays inside the `n` by `m` window
/// whenever it runs at all, and runs as far as it can: where it stops inside
/// the window, the next pair does not compare equal.
pub open spec fn snake_ok<T: PartialEq>(
    old: Seq<T>,
    new: Seq<T>,
    lo: int,
    n: int,
    m: int,
    k: int,
    sx: int,
    ex: int,
) -> bool {
    &&& 0 <= sx <= ex
    &&& 0 <= sx - k
    &&& (sx < ex ==> ex <= n && ex - k <= m)
    &&& forall|j: int| sx <= j < ex ==> #[trigger] diag_same(old, new, lo, k, j)
    &&& (ex < n && ex - k < m && T::obeys_eq_spec()) ==> !diag_same(old, new, lo, k, ex)
}

/// Whether step `d` moves down (an insertion) into diagonal `k`, given the
/// previous frontier `prev` (indexed around `c`).
pub open spec fn moves_down(prev: Seq<usize>, c: int, d: int, k: int) -> bool {
    k == -d || (k != d && prev[c + k - 1] < prev[c + k + 1])
}

/// Where step `d`'s snake on diagonal `k` starts.
pub open spec fn start_x(prev: Seq<usize>, c: int, d: int, k: int) -> int {
    if moves_down(prev, c, d, k) {
        prev[c + k + 1] as int
    } else {
        prev[c + k - 1] + 1
    }
}

/// The diagonals step `d` writes.
pub open spec fn on_front(d: int, k: int) -> bool {
    -d <= k <= d && (k + d) % 2 == 0
}

/// Diagonal `k` of frontier `cur` is a correct result of step `d` from `prev`.
pub open spec fn step_ok<T: PartialEq>(
    old: Seq<T>,
    new: Seq<T>,
    lo: int,
    n: int,
    m: int,
    prev: Seq<usize>,
    cur: Seq<usize>,
    c: int,
    d: int,
    k: int,
) -> bool {
    snake_ok(old, new, lo, n, m, k, start_x(prev, c, d, k), cur[c + k] as int)
}

/// Every diagonal that step `d` wrote into `cur` is correct.
pub open spec fn front_ok<T: PartialEq>(
    old: Seq<T>,
    new: Seq<T>,
    lo: int,
    n: int,
    m: int,
    prev: Seq<usize>,
    cur: Seq<usize>,
    c: int,
    d: int,
) -> bool {
    forall|k: int| on_front(d, k) ==> #[trigger] step_ok(old, new, lo, n, m, prev, cur, c, d, k)
}

/// Snapshot `dd + 1` of the trace is a correct step `dd` from snapshot `dd`.
pub open spec fn trace_ok<T: PartialEq>(
    old: Seq<T>,
    new: Seq<T>,
    lo: int,
    n: int,
    m: int,
    tr: Seq<Seq<usize>>,
    c: int,
    dd: int,
) -> bool {
    front_ok(old, new, lo, n, m, tr[dd], tr[dd + 1], c, dd)
}

pub open spec fn all_zero(v: Seq<usize>) -> bool {
    forall|i: int| 0 <= i < v.len() ==> v[i] == 0
}

pub open spec fn bounded(v: Seq<usize>, b: int) -> bool {
    forall|i: int| 0 <= i < v.len() ==> v[i] <= b
}

pub open spec fn views(trace: Seq<Vec<usize>>) -> Seq<Seq<usize>> {
    trace.map_values(|t: Vec<usize>| t@)
}

fn zeros(len: usize) -> (v: Vec<usize>)
    ensures
        v@.len() == len,
        all_zero(v@),
{
    let mut v: Vec<usize> = Vec::new();
    while v.len() < len
        invariant
            v@.len() <= len,
            all_zero(v@),
        decreases len - v@.len(),
    {
        v.push(0);
    }
    v
}

/// Deletes of `old[offset..offset + n]` followed by inserts of
/// `new[offset..offset + m]`.
fn block(offset: usize, n: usize, m: usize) -> (out: Vec<Change>)
    requires
        offset + n <= usize::MAX,
        offset + m <= usize::MAX,
    ensures
        out@ == block_replace(offset as int, offset + n, offset + m),
        walks(out@, offset as int, offset as int, offset + n, offset + m),
{
    let mut out: Vec<Change> = Vec::new();
    let mut i: usize = 0;
    while i < n
        invariant
            i <= n,
            offset + n <= usize::MAX,
            out@ =~= Seq::new(i as nat, |j: int| Change::Delete { old_index: (offset + j) as usize }),
        decreases n - i,
    {
        out.push(Change::Delete { old_index: offset + i });
        i += 1;
    }
    let mut j: usize = 0;
    while j < m
        invariant
            j <= m,
            i == n,
            offset + m <= usize::MAX,
            out@ =~= Seq::new(n as nat, |q: int| Change::Delete { old_index: (offset + q) as usize })
                + Seq::new(j as nat, |q: int| Change::Insert { new_index: (offset + q) as usize }),
        decreases m - j,
    {
        out.push(Change::Insert { new_index: offset + j });
        j += 1;
    }
    proof {
        lemma_block_walks(offset as int, n as int, m as int);
    }
    out
}

/// Deletes of `o, o + 1, ..., o + len - 1`.
pub open spec fn dels(o: int, len: nat) -> Seq<Change> {
    Seq::new(len, |q: int| Change::Delete { old_index: (o + q) as usize })
}

/// Inserts of `n, n + 1, ..., n + len - 1`.
pub open spec fn inss(n: int, len: nat) -> Seq<Change> {
    Seq::new(len, |q: int| Change::Insert { new_index: (n + q) as usize })
}

proof fn lemma_dels_walk(o: int, len: nat, n0: int)
    requires
        0 <= o,
        o + len <= usize::MAX + 1,
    ensures
        walks(dels(o, len), o, n0, o + len, n0),
    decreases len,
{
    if len > 0 {
        assert(dels(o, len).drop_first() =~= dels(o + 1, (len - 1) as nat));
        lemma_dels_walk(o + 1, (len - 1) as nat, n0);
    }
}

proof fn lemma_inss_walk(n: int, len: nat, o0: int)
    requires
        0 <= n,
        n + len <= usize::MAX + 1,
    ensures
        walks(inss(n, len), o0, n, o0, n + len),
    decreases len,
{
    if len > 0 {
        assert(inss(n, len).drop_first() =~= inss(n + 1, (len - 1) as nat));
        lemma_inss_walk(n + 1, (len - 1) as nat, o0);
    }
}

proof fn lemma_block_walks(offset: int, n: int, m: int)
    requires
        offset >= 0,
        n >= 0,
        m >= 0,
        offset + n <= usize::MAX,
        offset + m <= usize::MAX,
    ensures
        walks(block_replace(offset, offset + n, offset + m), offset, offset, offset + n, offset + m),
{
    lemma_dels_walk(offset, n as nat, offset);
    lemma_inss_walk(offset, m as nat, offset + n);
    assert(block_replace(offset, offset + n, offset + m) =~= dels(offset, n as nat) + inss(offset, m as nat));
    lemma_walks_concat(dels(offset, n as nat), inss(offset, m as nat), offset, offset, offset + n, offset, offset + n, offset + m);
}

/// Copies a frontier (the trace snapshot).
fn snapshot(v: &Vec<usize>) -> (r: Vec<usize>)
    ensures
        r@ == v@,
{
    vstd::slice::slice_to_vec(v.as_slice())
}

/// The reverse of `v`, as a new vector.
fn reversed(v: &Vec<Change>) -> (r: Vec<Change>)
    ensures
        r@ == v@.reverse(),
{
    let mut r: Vec<Change> = Vec::new();
    let mut i: usize = v.len();
    while i > 0
        invariant
            i <= v@.len(),
            r@ =~= v@.subrange(i as int, v@.len() as int).reverse(),
        decreases i,
    {
        i -= 1;
        r.push(v[i]);
        assert(r@ =~= v@.subrange(i as int, v@.len() as int).reverse());
    }
    assert(v@.subrange(0, v@.len() as int) =~= v@);
    r
}

/// Walks the recorded frontiers backwards from `(n, m)` to recover the edit
/// script of the window `old[lo..lo + n]` × `new[lo..lo + m]`.
#[verifier::rlimit(60)]
fn backtrack<T: PartialEq>(
    old: &[T],
    new: &[T],
    trace: &Vec<Vec<usize>>,
    d_final: usize,
    center: isize,
    lo: usize,
    n: usize,
    m: usize,
) -> (out: Vec<Change>)
    requires
        lo + n <= old@.len(),
        lo + m <= new@.len(),
        3 * (old@.len() + new@.len()) + 3 <= isize::MAX,
        1 <= n,
        1 <= m,
        1 <= center,
        d_final <= center <= n + m,
        trace@.len() == d_final + 1,
        forall|i: int|
            0 <= i <= d_final ==> (#[trigger] views(trace@)[i]).len() == 2 * center + 1 && bounded(
                views(trace@)[i],
                n + i,
            ),
        all_zero(views(trace@)[0]),
        forall|dd: int|
            0 <= dd < d_final ==> #[trigger] trace_ok(
                old@,
                new@,
                lo as int,
                n as int,
                m as int,
                views(trace@),
                center as int,
                dd,
            ),
        on_front(d_final as int, n - m),
        snake_ok(
            old@,
            new@,
            lo as int,
            n as int,
            m as int,
            n - m,
            start_x(views(trace@)[d_final as int], center as int, d_final as int, n - m),
            n as int,
        ),
    ensures
        walks(out@, lo as int, lo as int, lo + n, lo + m),
        equal_pairs_agree(out@, old@, new@),
        cost(out@) == d_final,
{
    let ghost tr = views(trace@);
    let ghost c = center as int;
    let mut out: Vec<Change> = Vec::new();
    let mut x: usize = n;
    let mut y: usize = m;
    let mut d: usize = d_final;
    let ghost mut acc: Seq<Change> = Seq::empty();
    loop
        invariant_except_break
            on_front(d as int, x - y),
            snake_ok(
                old@,
                new@,
                lo as int,
                n as int,
                m as int,
                x - y,
                start_x(tr[d as int], c, d as int, x - y),
                x as int,
            ),
        invariant
            tr == views(trace@),
            c == center as int,
            lo + n <= old@.len(),
            lo + m <= new@.len(),
            3 * (old@.len() + new@.len()) + 3 <= isize::MAX,
            1 <= n,
            1 <= m,
            1 <= center,
            d_final <= center <= n + m,
            trace@.len() == d_final + 1,
            forall|i: int|
                0 <= i <= d_final ==> (#[trigger] tr[i]).len() == 2 * c + 1 && bounded(tr[i], n + i),
            all_zero(tr[0]),
            forall|dd: int|
                0 <= dd < d_final ==> #[trigger] trace_ok(
                    old@,
                    new@,
                    lo as int,
                    n as int,
                    m as int,
                    tr,
                    c,
                    dd,
                ),
            d <= d_final,
            x <= n,
            y <= m,
            walks(acc, lo + x, lo + y, lo + n, lo + m),
            equal_pairs_agree(acc, old@, new@),
            out@ == acc.reverse(),
            cost(acc) + d == d_final,
        ensures
            x == 0,
            y == 0,
            cost(acc) == d_final,
            walks(acc, lo as int, lo as int, lo + n, lo + m),
            equal_pairs_agree(acc, old@, new@),
            out@ == acc.reverse(),
        decreases d,
    {
        let v = &trace[d];
        assert(v@ == tr[d as int]);
        let k: isize = x as isize - y as isize;
        let idx: usize = (center + k) as usize;
        let dd: isize = d as isize;
        let down = k == -dd || (k != dd && v[idx - 1] < v[idx + 1]);
        let prev_k: isize = if down {
            k + 1
        } else {
            k - 1
        };
        let prev_idx: usize = (center + prev_k) as usize;
        let prev_x: usize = v[prev_idx];
        let prev_y: isize = prev_x as isize - prev_k;
        let ghost sx = start_x(tr[d as int], c, d as int, k as int);
        assert(down == moves_down(tr[d as int], c, d as int, k as int));
        proof {
            if d > 0 {
                assert(trace_ok(old@, new@, lo as int, n as int, m as int, tr, c, d - 1));
                assert(on_front(d - 1, prev_k as int));
                assert(step_ok(old@, new@, lo as int, n as int, m as int, tr[d - 1], tr[d as int], c, d - 1, prev_k as int));
            } else {
                assert(tr[0][prev_idx as int] == 0);
            }
        }
        // Diagonal run first: these are the equal elements.
        while x > prev_x && (y as isize) > prev_y
            invariant
                x <= n,
                y <= m,
                x - y == k,
                sx <= x,
                down ==> sx == prev_x && prev_y == prev_x - k - 1,
                !down ==> sx == prev_x + 1 && prev_y == prev_x - k + 1,
                d > 0 ==> prev_y >= 0,
                d == 0 ==> k == 0 && prev_x == 0 && prev_y == -1,
                lo + n <= old@.len(),
                lo + m <= new@.len(),
                3 * (old@.len() + new@.len()) + 3 <= isize::MAX,
                forall|j: int| sx <= j < x ==> #[trigger] diag_same(old@, new@, lo as int, k as int, j),
                walks(acc, lo + x, lo + y, lo + n, lo + m),
                equal_pairs_agree(acc, old@, new@),
                out@ == acc.reverse(),
                cost(acc) + d == d_final,
            decreases x,
        {
            x -= 1;
            y -= 1;
            let e = Change::Equal { old_index: lo + x, new_index: lo + y };
            out.push(e);
            proof {
                assert(diag_same(old@, new@, lo as int, k as int, x as int));
                let acc2 = seq![e] + acc;
                assert(acc2.drop_first() =~= acc);
                assert forall|i: int| 0 <= i < acc2.len() implies (#[trigger] acc2[i] matches Change::Equal {
                    old_index,
                    new_index,
                } ==> same(old@[old_index as int], new@[new_index as int])) by {
                    if i > 0 {
                        assert(acc2[i] == acc[i - 1]);
                    }
                }
                assert(acc2.reverse() =~= acc.reverse().push(e));
                lemma_counts_concat(seq![e], acc);
                lemma_cost_one(e);
                acc = acc2;
            }
        }
        if d > 0 {
            if x == prev_x {
                y -= 1;
                let e = Change::Insert { new_index: lo + y };
                out.push(e);
                proof {
                    let acc2 = seq![e] + acc;
                    assert(acc2.drop_first() =~= acc);
                    assert forall|i: int| 0 <= i < acc2.len() implies (#[trigger] acc2[i] matches Change::Equal {
                        old_index,
                        new_index,
                    } ==> same(old@[old_index as int], new@[new_index as int])) by {
                        if i > 0 {
                            assert(acc2[i] == acc[i - 1]);
                        }
                    }
                    assert(acc2.reverse() =~= acc.reverse().push(e));
                    lemma_counts_concat(seq![e], acc);
                lemma_cost_one(e);
                acc = acc2;
                }
            } else {
                x -= 1;
                let e = Change::Delete { old_index: lo + x };
                out.push(e);
                proof {
                    let acc2 = seq![e] + acc;
                    assert(acc2.drop_first() =~= acc);
                    assert forall|i: int| 0 <= i < acc2.len() implies (#[trigger] acc2[i] matches Change::Equal {
                        old_index,
                        new_index,
                    } ==> same(old@[old_index as int], new@[new_index as int])) by {
                        if i > 0 {
                            assert(acc2[i] == acc[i - 1]);
                        }
                    }
                    assert(acc2.reverse() =~= acc.reverse().push(e));
                    lemma_counts_concat(seq![e], acc);
                lemma_cost_one(e);
                acc = acc2;
                }
            }
            d -= 1;
        } else {
            break;
        }
    }
    let r = reversed(&out);
    assert(acc.reverse().reverse() =~= acc);
    r
}

/// Step `d` of the search: extends every diagonal of the frontier by one
/// edit plus the longest following snake. Returns true as soon as some
/// diagonal reaches `(n, m)`.
#[verifier::rlimit(100)]
#[verifier::spinoff_prover]
fn search_step<T: PartialEq>(
    a: &[T],
    b: &[T],
    lo: usize,
    n: usize,
    m: usize,
    v: &mut Vec<usize>,
    trace: &Vec<Vec<usize>>,
    d: usize,
    center: isize,
) -> (found: bool)
    requires
        lo + n <= a@.len(),
        lo + m <= b@.len(),
        3 * (a@.len() + b@.len()) + 3 <= isize::MAX,
        1 <= n,
        1 <= m,
        1 <= center <= n + m,
        d <= center,
        old(v)@.len() == 2 * center + 1,
        trace@.len() == d + 1,
        views(trace@)[d as int] == old(v)@,
        forall|i: int|
            0 <= i <= d ==> (#[trigger] views(trace@)[i]).len() == 2 * center + 1 && bounded(
                views(trace@)[i],
                n + i,
            ),
        all_zero(views(trace@)[0]),
        forall|q: int|
            0 <= q < d ==> #[trigger] trace_ok(
                a@,
                b@,
                lo as int,
                n as int,
                m as int,
                views(trace@),
                center as int,
                q,
            ),
        T::obeys_eq_spec() ==> forall|dd: int, q: int|
            0 <= dd < d && on_front(dd, q) ==> !#[trigger] past_corner(
                views(trace@)[dd + 1],
                center as int,
                q,
                n as int,
                m as int,
            ),
    ensures
        final(v)@.len() == 2 * center + 1,
        bounded(final(v)@, n + d + 1),
        found ==> on_front(d as int, n - m) && snake_ok(
            a@,
            b@,
            lo as int,
            n as int,
            m as int,
            n - m,
            start_x(views(trace@)[d as int], center as int, d as int, n - m),
            n as int,
        ),
        !found ==> front_ok(
            a@,
            b@,
            lo as int,
            n as int,
            m as int,
            views(trace@)[d as int],
            final(v)@,
            center as int,
            d as int,
        ),
        !found && T::obeys_eq_spec() ==> forall|q: int|
            on_front(d as int, q) ==> !#[trigger] past_corner(final(v)@, center as int, q, n as int, m as int),
{
    let ghost c = center as int;
    let ghost vprev = old(v)@;
    let ghost tr = views(trace@);
    let vsize: usize = v.len();
    let max: usize = center as usize;
    assert(bounded(vprev, n + d + 1));
        let dd: isize = d as isize;
        let mut k: isize = -dd;
        while k <= dd
            invariant
                lo + n <= a@.len(),
                lo + m <= b@.len(),
                3 * (a@.len() + b@.len()) + 3 <= isize::MAX,
                1 <= n,
                1 <= m,
                1 <= max <= n + m,
                vsize == 2 * max + 1,
                c == center as int,
                center as int == max as int,
                d <= max,
                dd == d,
                tr == views(trace@),
                trace@.len() == d + 1,
                tr[d as int] == vprev,
                forall|i: int|
                    0 <= i <= d ==> (#[trigger] tr[i]).len() == vsize && bounded(tr[i], n + i),
                all_zero(tr[0]),
                forall|q: int|
                    0 <= q < d ==> #[trigger] trace_ok(
                        a@,
                        b@,
                        lo as int,
                        n as int,
                        m as int,
                        tr,
                        c,
                        q,
                    ),
                -dd <= k <= dd + 2,
                (k + dd) % 2 == 0,
                v@.len() == vsize,
                bounded(v@, n + d + 1),
                forall|i: int| 0 <= i < vsize && (i - c + d) % 2 != 0 ==> v@[i] == vprev[i],
                forall|q: int|
                    on_front(d as int, q) && q < k ==> #[trigger] step_ok(
                        a@,
                        b@,
                        lo as int,
                        n as int,
                        m as int,
                        vprev,
                        v@,
                        c,
                        d as int,
                        q,
                    ),
                T::obeys_eq_spec() ==> forall|dd: int, q: int|
                    0 <= dd < d && on_front(dd, q) ==> !#[trigger] past_corner(tr[dd + 1], c, q, n as int, m as int),
                T::obeys_eq_spec() ==> forall|q: int|
                    on_front(d as int, q) && q < k ==> !#[trigger] past_corner(v@, c, q, n as int, m as int),
            decreases dd + 2 - k,
        {
            let idx: usize = (center + k) as usize;
            let down = k == -dd || (k != dd && v[idx - 1] < v[idx + 1]);
            proof {
                assert(down == moves_down(vprev, c, d as int, k as int));
                if d > 0 {
                    let pk: int = if down {
                        k + 1
                    } else {
                        k - 1
                    };
                    assert(on_front(d - 1, pk));
                    assert(trace_ok(a@, b@, lo as int, n as int, m as int, tr, c, d - 1));
                    assert(step_ok(a@, b@, lo as int, n as int, m as int, tr[d - 1], tr[d as int], c, d - 1, pk));
                } else {
                    assert(vprev[c + 1] == 0);
                }
            }
            // Choose the move that reaches furthest right.
            let mut x: usize = if down {
                v[idx + 1]
            } else {
                v[idx - 1] + 1
            };
            let ghost sx = x as int;
            let mut y: usize = (x as isize - k) as usize;
            // Slide along the diagonal through equal elements.
            while x < n && y < m && a[lo + x] == b[lo + y]
                invariant
                    lo + n <= a@.len(),
                    lo + m <= b@.len(),
                    3 * (a@.len() + b@.len()) + 3 <= isize::MAX,
                    x - y == k,
                    sx <= x,
                    0 <= sx - k,
                    sx < x ==> x <= n && y <= m,
                    forall|j: int| sx <= j < x ==> #[trigger] diag_same(a@, b@, lo as int, k as int, j),
                decreases n - x,
            {
                proof {
                    assert(diag_same(a@, b@, lo as int, k as int, x as int));
                }
                x += 1;
                y += 1;
            }
            let ghost v_before = v@;
            v.set(idx, x);
            proof {
                assert(snake_ok(a@, b@, lo as int, n as int, m as int, k as int, sx, x as int));
                assert(step_ok(a@, b@, lo as int, n as int, m as int, vprev, v@, c, d as int, k as int));
                assert forall|q: int|
                    on_front(d as int, q) && q < k + 2 implies #[trigger] step_ok(
                        a@,
                        b@,
                        lo as int,
                        n as int,
                        m as int,
                        vprev,
                        v@,
                        c,
                        d as int,
                        q,
                    ) by {
                    if q < k {
                        assert(step_ok(a@, b@, lo as int, n as int, m as int, vprev, v_before, c, d as int, q));
                        assert(v@[c + q] == v_before[c + q]);
                    }
                }
            }
            // For a lawful `==`, the first frontier value to pass the far
            // corner is the corner itself (`lemma_only_corner`), so meeting
            // the corner is passing it.
            if x == n && y == m {
                return true;
            }
            proof {
                if T::obeys_eq_spec() {
                    assert(search_fits(lo as int, n as int, m as int, c));
                    assert(recorded(a@, b@, lo as int, n as int, m as int, tr, c, d as int));
                    if x >= n && y >= m {
                        lemma_only_corner(a@, b@, lo as int, n as int, m as int, tr, c, d as int, k as int, x as int);
                    }
                    assert forall|q: int|
                        on_front(d as int, q) && q < k + 2 implies !#[trigger] past_corner(
                        v@,
                        c,
                        q,
                        n as int,
                        m as int,
                    ) by {
                        if q < k {
                            assert(past_corner(v_before, c, q, n as int, m as int) == past_corner(v@, c, q, n as int, m as int));
                        }
                    }
                }
            }
            k += 2;
        }
    false
}

/// Myers' O(ND) search over the window `old[lo..o_hi]` × `new[lo..n_hi]`.
///
/// Returns `(changes, found)`: `found` is false when the cost bound was
/// exceeded and the window was emitted as a whole-block replace instead. A
/// bound of zero searches only the diagonal: the window is found when its
/// two sides are equal, pair by pair.
fn myers<T: PartialEq>(
    old: &[T],
    new: &[T],
    lo: usize,
    o_hi: usize,
    n_hi: usize,
    max_cost: Option<usize>,
) -> (r: (Vec<Change>, bool))
    requires
        lo <= o_hi <= old@.len(),
        lo <= n_hi <= new@.len(),
        3 * (old@.len() + new@.len()) + 3 <= isize::MAX,
    ensures
        walks(r.0@, lo as int, lo as int, o_hi as int, n_hi as int),
        equal_pairs_agree(r.0@, old@, new@),
        !r.1 ==> r.0@ == block_replace(lo as int, o_hi as int, n_hi as int),
        (lo == o_hi || lo == n_hi) ==> r.1,
        r.1 && lo < o_hi && lo < n_hi && max_cost is Some ==> cost(r.0@) <= max_cost->0,
        !r.1 && T::obeys_eq_spec() ==> max_cost is Some && forall|other: Seq<Change>|
            #[trigger] walks(other, lo as int, lo as int, o_hi as int, n_hi as int) && equal_pairs_agree(
                other,
                old@,
                new@,
            ) ==> max_cost->0 < cost(other),
        r.1 && T::obeys_eq_spec() ==> forall|other: Seq<Change>|
            #[trigger] walks(other, lo as int, lo as int, o_hi as int, n_hi as int) && equal_pairs_agree(
                other,
                old@,
                new@,
            ) ==> cost(r.0@) <= cost(other),
{
    let n = o_hi - lo;
    let m = n_hi - lo;
    // Degenerate ends: nothing to search for.
    if n == 0 || m == 0 {
        let out = block(lo, n, m);
        proof {
            lemma_block_cost(lo as int, o_hi as int, n_hi as int);
            assert forall|other: Seq<Change>|
                #[trigger] walks(other, lo as int, lo as int, o_hi as int, n_hi as int) && equal_pairs_agree(
                    other,
                    old@,
                    new@,
                ) implies cost(out@) <= cost(other) by {
                lemma_walk_cost(other, lo as int, lo as int, o_hi as int, n_hi as int);
            }
            assert forall|i: int| 0 <= i < out@.len() implies (#[trigger] out@[i] matches Change::Equal {
                old_index,
                new_index,
            } ==> same(old@[old_index as int], new@[new_index as int])) by {}
        }
        return (out, true);
    }
    let total = n + m;
    let max: usize = match max_cost {
        Some(c) => if c < total {
            c
        } else {
            total
        },
        None => total,
    };
    if max == 0 {
        // No budget: only the diagonal, with no edit at all, can be found.
        let mut x: usize = 0;
        while x < n && x < m && old[lo + x] == new[lo + x]
            invariant
                x <= n,
                x <= m,
                n == o_hi - lo,
                m == n_hi - lo,
                lo + n <= old@.len(),
                lo + m <= new@.len(),
                forall|i: int| 0 <= i < x ==> #[trigger] same(old@[lo + i], new@[lo + i]),
            decreases n - x,
        {
            x += 1;
        }
        if x == n && x == m {
            let mut out: Vec<Change> = Vec::new();
            let mut i: usize = 0;
            while i < n
                invariant
                    i <= n,
                    lo + n <= old@.len(),
                    3 * (old@.len() + new@.len()) + 3 <= isize::MAX,
                    out@ == equal_run(lo as int, lo as int, i as nat),
                decreases n - i,
            {
                out.push(Change::Equal { old_index: lo + i, new_index: lo + i });
                i += 1;
                assert(out@ =~= equal_run(lo as int, lo as int, i as nat));
            }
            proof {
                lemma_equal_run_walks(lo as int, lo as int, n as nat);
                lemma_equal_run_cost(lo as int, lo as int, n as nat);
                assert forall|j: int| 0 <= j < out@.len() implies (#[trigger] out@[j] matches Change::Equal {
                    old_index,
                    new_index,
                } ==> same(old@[old_index as int], new@[new_index as int])) by {
                    assert(same(old@[lo + j], new@[lo + j]));
                }
            }
            return (out, true);
        }
        let out = block(lo, n, m);
        proof {
            assert forall|other: Seq<Change>|
                #[trigger] walks(other, lo as int, lo as int, o_hi as int, n_hi as int) && equal_pairs_agree(
                    other,
                    old@,
                    new@,
                ) && T::obeys_eq_spec() implies 0 < cost(other) by {
                if cost(other) == 0 {
                    lemma_free_walk(other, lo as int, lo as int, o_hi as int, n_hi as int);
                    assert(other[x as int] == (Change::Equal {
                        old_index: (lo + x) as usize,
                        new_index: (lo + x) as usize,
                    }));
                    assert(same(old@[lo + x], new@[lo + x]));
                }
            }
            assert forall|i: int| 0 <= i < out@.len() implies (#[trigger] out@[i] matches Change::Equal {
                old_index,
                new_index,
            } ==> same(old@[old_index as int], new@[new_index as int])) by {}
        }
        return (out, false);
    }
    let vsize: usize = 2 * max + 1;
    let center: isize = max as isize;
    let ghost c = center as int;
    let mut v = zeros(vsize);
    // One frontier snapshot per D: the trace the backtrack walks.
    let mut trace: Vec<Vec<usize>> = Vec::new();
    let mut d: usize = 0;
    while d <= max
        invariant
            n == o_hi - lo,
            m == n_hi - lo,
            lo + n <= old@.len(),
            lo + m <= new@.len(),
            3 * (old@.len() + new@.len()) + 3 <= isize::MAX,
            1 <= n,
            1 <= m,
            1 <= max <= n + m,
            max_cost is Some || max == n + m,
            max_cost is Some ==> max <= max_cost->0,
            vsize == 2 * max + 1,
            c == center as int,
            center as int == max as int,
            v@.len() == vsize,
            trace@.len() == d,
            d <= max + 1,
            forall|i: int|
                0 <= i < d ==> (#[trigger] views(trace@)[i]).len() == vsize && bounded(
                    views(trace@)[i],
                    n + i,
                ),
            d == 0 ==> all_zero(v@),
            d > 0 ==> all_zero(views(trace@)[0]),
            bounded(v@, n + d),
            forall|dd: int|
                0 <= dd < d - 1 ==> #[trigger] trace_ok(
                    old@,
                    new@,
                    lo as int,
                    n as int,
                    m as int,
                    views(trace@),
                    c,
                    dd,
                ),
            d > 0 ==> front_ok(
                old@,
                new@,
                lo as int,
                n as int,
                m as int,
                views(trace@)[d - 1],
                v@,
                c,
                d - 1,
            ),
            T::obeys_eq_spec() ==> forall|dd: int, q: int|
                0 <= dd < d - 1 && on_front(dd, q) ==> !#[trigger] past_corner(
                    views(trace@)[dd + 1],
                    c,
                    q,
                    n as int,
                    m as int,
                ),
            T::obeys_eq_spec() && d > 0 ==> forall|q: int|
                on_front(d - 1, q) ==> !#[trigger] past_corner(v@, c, q, n as int, m as int),
        decreases max + 1 - d,
    {
        let ghost vprev = v@;
        let ghost tr_before = views(trace@);
        trace.push(snapshot(&v));
        let ghost tr = views(trace@);
        proof {
            assert(tr =~= tr_before.push(vprev));
            assert forall|dd: int|
                0 <= dd < d implies #[trigger] trace_ok(
                    old@,
                    new@,
                    lo as int,
                    n as int,
                    m as int,
                    tr,
                    c,
                    dd,
                ) by {
                if dd < d - 1 {
                    assert(trace_ok(old@, new@, lo as int, n as int, m as int, tr_before, c, dd));
                    assert(tr[dd] == tr_before[dd]);
                    assert(tr[dd + 1] == tr_before[dd + 1]);
                } else {
                    assert(tr[dd] == tr_before[dd]);
                    assert(tr[dd + 1] == vprev);
                }
            }
            if T::obeys_eq_spec() {
                assert forall|dd: int, q: int|
                    0 <= dd < d && on_front(dd, q) implies !#[trigger] past_corner(
                    tr[dd + 1],
                    c,
                    q,
                    n as int,
                    m as int,
                ) by {
                    if dd < d - 1 {
                        assert(tr[dd + 1] == tr_before[dd + 1]);
                    } else {
                        assert(tr[dd + 1] == vprev);
                    }
                }
            }
        }
        if search_step(old, new, lo, n, m, &mut v, &trace, d, center) {
            let out = backtrack(old, new, &trace, d, center, lo, n, m);
            proof {
                if T::obeys_eq_spec() {
                    assert(search_fits(lo as int, n as int, m as int, c));
                    assert(recorded(old@, new@, lo as int, n as int, m as int, tr, c, d as int));
                    assert forall|other: Seq<Change>|
                        #[trigger] walks(other, lo as int, lo as int, o_hi as int, n_hi as int)
                            && equal_pairs_agree(other, old@, new@) implies cost(out@) <= cost(
                        other,
                    ) by {
                        lemma_found_is_shortest(old@, new@, lo as int, n as int, m as int, tr, c, d as int, other);
                    }
                }
            }
            return (out, true);
        }
        d += 1;
    }
    // Cost bound hit: a whole-block replace is correct and obviously
    // non-minimal, which the returned flag says.
    let out = block(lo, n, m);
    proof {
        if T::obeys_eq_spec() {
            let tr = views(trace@);
            let tr2 = tr.push(v@);
            let dm = (max + 1) as int;
            assert forall|i: int| 0 <= i <= dm implies (#[trigger] tr2[i]).len() == 2 * c + 1 && bounded(
                tr2[i],
                n + i,
            ) by {
                if i < dm {
                    assert(tr2[i] == tr[i]);
                }
            }
            assert(tr2[0] == tr[0]);
            assert forall|dd: int| 0 <= dd < dm implies #[trigger] trace_ok(
                old@,
                new@,
                lo as int,
                n as int,
                m as int,
                tr2,
                c,
                dd,
            ) by {
                assert(tr2[dd] == tr[dd]);
                if dd < dm - 1 {
                    assert(tr2[dd + 1] == tr[dd + 1]);
                    assert(trace_ok(old@, new@, lo as int, n as int, m as int, tr, c, dd));
                } else {
                    assert(tr2[dd + 1] == v@);
                }
            }
            assert(recorded(old@, new@, lo as int, n as int, m as int, tr2, c, dm));
            assert forall|dd: int, q: int|
                0 <= dd < dm && on_front(dd, q) implies !#[trigger] past_corner(
                tr2[dd + 1],
                c,
                q,
                n as int,
                m as int,
            ) by {
                if dd < dm - 1 {
                    assert(tr2[dd + 1] == tr[dd + 1]);
                } else {
                    assert(tr2[dd + 1] == v@);
                }
            }
            assert(search_fits(lo as int, n as int, m as int, c));
            assert forall|other: Seq<Change>|
                #[trigger] walks(other, lo as int, lo as int, o_hi as int, n_hi as int) && equal_pairs_agree(
                    other,
                    old@,
                    new@,
                ) implies max < cost(other) by {
                lemma_found_is_shortest(old@, new@, lo as int, n as int, m as int, tr2, c, dm, other);
            }
            lemma_block_cost(lo as int, o_hi as int, n_hi as int);
            assert(equal_pairs_agree(out@, old@, new@)) by {
                assert forall|i: int| 0 <= i < out@.len() implies (#[trigger] out@[i] matches Change::Equal {
                    old_index,
                    new_index,
                } ==> same(old@[old_index as int], new@[new_index as int])) by {}
            }
            assert(walks(out@, lo as int, lo as int, o_hi as int, n_hi as int));
            assert(max < cost(out@));
        }
        assert forall|i: int| 0 <= i < out@.len() implies (#[trigger] out@[i] matches Change::Equal {
            old_index,
            new_index,
        } ==> same(old@[old_index as int], new@[new_index as int])) by {}
    }
    (out, false)
}

/// `len` equal pairs `(o, nn), (o + 1, nn + 1), ...`.
pub open spec fn equal_run(o: int, nn: int, len: nat) -> Seq<Change> {
    Seq::new(len, |q: int| Change::Equal { old_index: (o + q) as usize, new_index: (nn + q) as usize })
}

pub proof fn lemma_equal_run_walks(o: int, nn: int, len: nat)
    requires
        0 <= o,
        0 <= nn,
        o + len <= usize::MAX + 1,
        nn + len <= usize::MAX + 1,
    ensures
        walks(equal_run(o, nn, len), o, nn, o + len, nn + len),
    decreases len,
{
    if len > 0 {
        assert(equal_run(o, nn, len).drop_first() =~= equal_run(o + 1, nn + 1, (len - 1) as nat));
        lemma_equal_run_walks(o + 1, nn + 1, (len - 1) as nat);
    }
}

pub proof fn lemma_pairs_concat<T: PartialEq>(a: Seq<Change>, b: Seq<Change>, old: Seq<T>, new: Seq<T>)
    requires
        equal_pairs_agree(a, old, new),
        equal_pairs_agree(b, old, new),
    ensures
        equal_pairs_agree(a + b, old, new),
{
    assert forall|i: int| 0 <= i < (a + b).len() implies (#[trigger] (a + b)[i] matches Change::Equal {
        old_index,
        new_index,
    } ==> same(old[old_index as int], new[new_index as int])) by {
        if i < a.len() {
            assert((a + b)[i] == a[i]);
        } else {
            assert((a + b)[i] == b[i - a.len()]);
        }
    }
}

/// How far the common prefix of `old` and `new` extends from index `i`, as
/// `T`'s equality judges it.
pub open spec fn common_prefix<T: PartialEq>(old: Seq<T>, new: Seq<T>, i: int) -> int
    decreases old.len() - i,
{
    if 0 <= i < old.len() && i < new.len() && old[i].eq_spec(&new[i]) {
        common_prefix(old, new, i + 1)
    } else {
        i
    }
}

/// How far the common suffix extends (from length `s`) once a prefix of
/// length `p` is set aside.
pub open spec fn common_suffix<T: PartialEq>(old: Seq<T>, new: Seq<T>, p: int, s: int) -> int
    decreases old.len() - p - s,
{
    if 0 <= s && s < old.len() - p && s < new.len() - p && old[old.len() - 1 - s].eq_spec(
        &new[new.len() - 1 - s],
    ) {
        common_suffix(old, new, p, s + 1)
    } else {
        s
    }
}

/// After trimming the common prefix and suffix, one side is used up: the
/// script is the rest of the other side, whatever the cost bound.
pub open spec fn nothing_to_search<T: PartialEq>(old: Seq<T>, new: Seq<T>) -> bool {
    ||| old.len() == 0
    ||| new.len() == 0
    ||| T::obeys_eq_spec() && {
        let p = common_prefix(old, new, 0);
        let s = common_suffix(old, new, p, 0);
        p + s == old.len() || p + s == new.len()
    }
}

/// `cs` keeps a common prefix of length `p` and suffix of length `s` and
/// replaces the whole window between them.
pub open spec fn window_replaced(cs: Seq<Change>, n: int, m: int, p: int, s: int) -> bool {
    &&& 0 <= p && 0 <= s && p + s <= n && p + s <= m
    &&& cs == equal_run(0, 0, p as nat) + block_replace(p, n - s, m - s) + equal_run(
        n - s,
        m - s,
        s as nat,
    )
}

/// Compare two sequences of anything comparable.
///
/// The result is an edit script that walks both sequences completely (see
/// [`law_diff_reconstructs`]); its `Equal` pairs compare equal; when the
/// search finished within the cost bound (`is_minimal`), no script between
/// the two sequences has fewer edits, as far as `T`'s `==` is lawful; when the
/// cost bound cut the search short, the window between the common prefix and
/// suffix is a block replace. As far as `T`'s `==` is lawful, the search
/// finishes exactly when some script stays within the bound (always, with no
/// bound), and a finished search with a bound stays within it unless there
/// was nothing to search.
pub fn diff<T: PartialEq>(old: &[T], new: &[T], opts: DiffOptions) -> (d: Diff)
    requires
        3 * (old@.len() + new@.len()) + 3 <= isize::MAX,
    ensures
        walks(d@.0, 0, 0, old@.len() as int, new@.len() as int),
        equal_pairs_agree(d@.0, old@, new@),
        !d@.1 ==> exists|p: int, s: int| #[trigger]
            window_replaced(d@.0, old@.len() as int, new@.len() as int, p, s),
        !d@.1 && T::obeys_eq_spec() ==> window_replaced(
            d@.0,
            old@.len() as int,
            new@.len() as int,
            common_prefix(old@, new@, 0),
            common_suffix(old@, new@, common_prefix(old@, new@, 0), 0),
        ),
        d@.1 && T::obeys_eq_spec() ==> is_shortest(d@.0, old@, new@),
        T::obeys_eq_spec() && (opts.max_cost is None || exists|w: Seq<Change>|
            #[trigger] walks(w, 0, 0, old@.len() as int, new@.len() as int) && equal_pairs_agree(w, old@, new@)
                && cost(w) <= opts.max_cost->0) ==> d@.1,
        T::obeys_eq_spec() && d@.1 && opts.max_cost is Some ==> cost(d@.0) <= opts.max_cost->0
            || nothing_to_search(old@, new@),
        (T::obeys_eq_spec() && old@.len() == new@.len() && forall|i: int|
            0 <= i < old@.len() ==> #[trigger] old@[i].eq_spec(&new@[i])) ==> d@.1 && forall|i: int|
            0 <= i < d@.0.len() ==> #[trigger] d@.0[i] is Equal,
{
    // Trim the common prefix and suffix first: it keeps the search
    // proportional to the change rather than to the input.
    let mut pre: usize = 0;
    while pre < old.len() && pre < new.len() && old[pre] == new[pre]
        invariant
            pre <= old@.len(),
            pre <= new@.len(),
            forall|i: int| 0 <= i < pre ==> #[trigger] same(old@[i], new@[i]),
            T::obeys_eq_spec() ==> common_prefix(old@, new@, 0) == common_prefix(old@, new@, pre as int),
        decreases old@.len() - pre,
    {
        pre += 1;
    }
    let mut suf: usize = 0;
    while suf < old.len() - pre && suf < new.len() - pre && old[old.len() - 1 - suf] == new[new.len()
        - 1 - suf]
        invariant
            pre <= old@.len(),
            pre <= new@.len(),
            suf <= old@.len() - pre,
            suf <= new@.len() - pre,
            forall|i: int|
                0 <= i < suf ==> #[trigger] same(
                    old@[old@.len() - 1 - i],
                    new@[new@.len() - 1 - i],
                ),
            T::obeys_eq_spec() ==> common_suffix(old@, new@, pre as int, 0) == common_suffix(
                old@,
                new@,
                pre as int,
                suf as int,
            ),
        decreases old@.len() - pre - suf,
    {
        suf += 1;
    }
    proof {
        if T::obeys_eq_spec() {
            assert(common_prefix(old@, new@, pre as int) == pre);
            assert(common_suffix(old@, new@, pre as int, suf as int) == suf);
        }
    }
    let n = old.len();
    let m = new.len();
    let mut changes: Vec<Change> = Vec::new();
    let mut i: usize = 0;
    while i < pre
        invariant
            i <= pre,
            pre <= n,
            pre <= m,
            changes@ == equal_run(0, 0, i as nat),
        decreases pre - i,
    {
        changes.push(Change::Equal { old_index: i, new_index: i });
        i += 1;
        assert(changes@ =~= equal_run(0, 0, i as nat));
    }
    let (mut mid, minimal) = myers(old, new, pre, n - suf, m - suf, opts.max_cost);
    let ghost mid_s = mid@;
    changes.append(&mut mid);
    let mut q: usize = 0;
    while q < suf
        invariant
            q <= suf,
            pre + suf <= n,
            pre + suf <= m,
            n == old@.len(),
            m == new@.len(),
            changes@ == equal_run(0, 0, pre as nat) + mid_s + equal_run(
                (n - suf) as int,
                (m - suf) as int,
                q as nat,
            ),
        decreases suf - q,
    {
        changes.push(Change::Equal { old_index: n - suf + q, new_index: m - suf + q });
        q += 1;
        assert(changes@ =~= equal_run(0, 0, pre as nat) + mid_s + equal_run(
            (n - suf) as int,
            (m - suf) as int,
            q as nat,
        ));
    }
    proof {
        lemma_assemble(old@, new@, pre as int, suf as int, mid_s);
        if minimal && T::obeys_eq_spec() {
            let a = equal_run(0, 0, pre as nat);
            let z = equal_run((n - suf) as int, (m - suf) as int, suf as nat);
            lemma_counts_concat(a, mid_s);
            lemma_counts_concat(a + mid_s, z);
            lemma_equal_run_cost(0, 0, pre as nat);
            lemma_equal_run_cost((n - suf) as int, (m - suf) as int, suf as nat);
            assert forall|other: Seq<Change>|
                #[trigger] walks(other, 0, 0, old@.len() as int, new@.len() as int) && equal_pairs_agree(
                    other,
                    old@,
                    new@,
                ) implies cost(changes@) <= cost(other) by {
                lemma_walk_below(other, 0, 0, n as int, m as int);
                let r1 = lemma_trim_front(other, old@, new@, n as int, m as int, 0, pre as int, n as int, m as int);
                let r2 = lemma_trim_back(r1, old@, new@, n as int, m as int, pre as int, n as int, m as int, suf as int);
                assert(walks(r2, pre as int, pre as int, (n - suf) as int, (m - suf) as int));
            }
        }
        if !minimal {
            assert(window_replaced(changes@, n as int, m as int, pre as int, suf as int));
        }
        let a = equal_run(0, 0, pre as nat);
        let z = equal_run((n - suf) as int, (m - suf) as int, suf as nat);
        lemma_counts_concat(a, mid_s);
        lemma_counts_concat(a + mid_s, z);
        lemma_equal_run_cost(0, 0, pre as nat);
        lemma_equal_run_cost((n - suf) as int, (m - suf) as int, suf as nat);
        assert(cost(changes@) == cost(mid_s));
        if T::obeys_eq_spec() && !minimal {
            assert forall|w: Seq<Change>|
                #[trigger] walks(w, 0, 0, old@.len() as int, new@.len() as int) && equal_pairs_agree(
                    w,
                    old@,
                    new@,
                ) implies opts.max_cost->0 < cost(w) by {
                lemma_walk_below(w, 0, 0, n as int, m as int);
                let r1 = lemma_trim_front(w, old@, new@, n as int, m as int, 0, pre as int, n as int, m as int);
                let r2 = lemma_trim_back(r1, old@, new@, n as int, m as int, pre as int, n as int, m as int, suf as int);
                assert(walks(r2, pre as int, pre as int, (n - suf) as int, (m - suf) as int));
            }
        }
        if T::obeys_eq_spec() && old@.len() == new@.len() && forall|j: int|
            0 <= j < old@.len() ==> #[trigger] old@[j].eq_spec(&new@[j]) {
            assert(pre == n) by {
                if pre < n {
                    assert(old@[pre as int].eq_spec(&new@[pre as int]));
                    assert(common_prefix(old@, new@, pre as int) == common_prefix(old@, new@, pre + 1));
                }
            }
            assert(mid_s.len() == 0) by {
                lemma_walk_sides(mid_s, pre as int, pre as int, (n - suf) as int, (m - suf) as int);
                lemma_no_sides_empty(mid_s);
            }
            assert(changes@ =~= equal_run(0, 0, pre as nat));
        }
    }
    Diff { changes, minimal }
}

proof fn lemma_assemble<T: PartialEq>(old: Seq<T>, new: Seq<T>, pre: int, suf: int, mid: Seq<Change>)
    requires
        0 <= pre,
        0 <= suf,
        pre + suf <= old.len(),
        pre + suf <= new.len(),
        old.len() <= usize::MAX,
        new.len() <= usize::MAX,
        forall|i: int| 0 <= i < pre ==> #[trigger] same(old[i], new[i]),
        forall|i: int| 0 <= i < suf ==> #[trigger] same(old[old.len() - 1 - i], new[new.len() - 1 - i]),
        walks(mid, pre, pre, old.len() - suf, new.len() - suf),
        equal_pairs_agree(mid, old, new),
    ensures
        walks(
            equal_run(0, 0, pre as nat) + mid + equal_run(old.len() - suf, new.len() - suf, suf as nat),
            0,
            0,
            old.len() as int,
            new.len() as int,
        ),
        equal_pairs_agree(
            equal_run(0, 0, pre as nat) + mid + equal_run(old.len() - suf, new.len() - suf, suf as nat),
            old,
            new,
        ),
{
    let n = old.len() as int;
    let m = new.len() as int;
    let a = equal_run(0, 0, pre as nat);
    let z = equal_run(n - suf, m - suf, suf as nat);
    lemma_equal_run_walks(0, 0, pre as nat);
    lemma_equal_run_walks(n - suf, m - suf, suf as nat);
    lemma_walks_concat(a, mid, 0, 0, pre, pre, n - suf, m - suf);
    lemma_walks_concat(a + mid, z, 0, 0, n - suf, m - suf, n, m);
    assert(equal_pairs_agree(a, old, new)) by {
        assert forall|j: int| 0 <= j < a.len() implies (#[trigger] a[j] matches Change::Equal {
            old_index,
            new_index,
        } ==> same(old[old_index as int], new[new_index as int])) by {
            assert(same(old[j], new[j]));
        }
    }
    assert(equal_pairs_agree(z, old, new)) by {
        assert forall|j: int| 0 <= j < z.len() implies (#[trigger] z[j] matches Change::Equal {
            old_index,
            new_index,
        } ==> same(old[old_index as int], new[new_index as int])) by {
            let t = suf - 1 - j;
            assert(same(old[n - 1 - t], new[m - 1 - t]));
        }
    }
    lemma_pairs_concat(a, mid, old, new);
    lemma_pairs_concat(a + mid, z, old, new);
}

proof fn lemma_no_sides_empty(cs: Seq<Change>)
    requires
        old_side(cs).len() == 0,
        new_side(cs).len() == 0,
    ensures
        cs.len() == 0,
{
    if cs.len() > 0 {
        match cs[0] {
            Change::Equal { .. } => {},
            Change::Delete { .. } => {},
            Change::Insert { .. } => {},
        }
    }
}

/// Every `Equal` change of `cs` pairs equal lines.
pub open spec fn lines_agree(cs: Seq<Change>, old: Seq<Seq<char>>, new: Seq<Seq<char>>) -> bool {
    forall|i: int|
        0 <= i < cs.len() ==> (#[trigger] cs[i] matches Change::Equal { old_index, new_index }
            ==> old[old_index as int] == new[new_index as int])
}

/// No script through both line sequences whose `Equal` pairs agree has fewer
/// edits than `cs`.
pub open spec fn is_shortest_by_lines(cs: Seq<Change>, old: Seq<Seq<char>>, new: Seq<Seq<char>>) -> bool {
    forall|other: Seq<Change>|
        #[trigger] walks(other, 0, 0, old.len() as int, new.len() as int) && lines_agree(other, old, new)
            ==> cost(cs) <= cost(other)
}

/// How far the lines of `old` and `new` agree from line `i` on.
pub open spec fn line_prefix(old: Seq<Seq<char>>, new: Seq<Seq<char>>, i: int) -> int
    decreases old.len() - i,
{
    if 0 <= i < old.len() && i < new.len() && old[i] == new[i] {
        line_prefix(old, new, i + 1)
    } else {
        i
    }
}

/// How far the lines agree from the ends (from `s` lines in), once `p` lines
/// at the front are set aside.
pub open spec fn line_suffix(old: Seq<Seq<char>>, new: Seq<Seq<char>>, p: int, s: int) -> int
    decreases old.len() - p - s,
{
    if 0 <= s && s < old.len() - p && s < new.len() - p && old[old.len() - 1 - s] == new[new.len() - 1
        - s] {
        line_suffix(old, new, p, s + 1)
    } else {
        s
    }
}

/// A key and a line key agree exactly when their lines are equal.
proof fn lemma_key_same(a: Vec<u8>, b: Vec<u8>, x: Seq<char>, y: Seq<char>)
    requires
        a@ == vstd::utf8::encode_utf8(x),
        b@ == vstd::utf8::encode_utf8(y),
    ensures
        a.eq_spec(&b) <==> x == y,
{
    lemma_encoding_injective(x, y);
    if a.eq_spec(&b) {
        assert(a@ =~= b@);
    }
    if a@ == b@ {
        assert(a.eq_spec(&b));
    }
}

/// The common prefix of the keys is that of the lines.
proof fn lemma_key_prefix(ko: Seq<Vec<u8>>, kn: Seq<Vec<u8>>, lo: Seq<Seq<char>>, ln: Seq<Seq<char>>, i: int)
    requires
        ko.len() == lo.len(),
        kn.len() == ln.len(),
        forall|j: int| 0 <= j < lo.len() ==> (#[trigger] ko[j])@ == vstd::utf8::encode_utf8(lo[j]),
        forall|j: int| 0 <= j < ln.len() ==> (#[trigger] kn[j])@ == vstd::utf8::encode_utf8(ln[j]),
        0 <= i,
    ensures
        common_prefix(ko, kn, i) == line_prefix(lo, ln, i),
    decreases lo.len() - i,
{
    if i < lo.len() && i < ln.len() {
        lemma_key_same(ko[i], kn[i], lo[i], ln[i]);
        lemma_key_prefix(ko, kn, lo, ln, i + 1);
    }
}

proof fn lemma_line_prefix_from(lo: Seq<Seq<char>>, ln: Seq<Seq<char>>, i: int)
    requires
        0 <= i,
    ensures
        i <= line_prefix(lo, ln, i),
    decreases lo.len() - i,
{
    if 0 <= i < lo.len() && i < ln.len() && lo[i] == ln[i] {
        lemma_line_prefix_from(lo, ln, i + 1);
    }
}

/// The common suffix of the keys is that of the lines.
proof fn lemma_key_suffix(ko: Seq<Vec<u8>>, kn: Seq<Vec<u8>>, lo: Seq<Seq<char>>, ln: Seq<Seq<char>>, p: int, t: int)
    requires
        ko.len() == lo.len(),
        kn.len() == ln.len(),
        forall|j: int| 0 <= j < lo.len() ==> (#[trigger] ko[j])@ == vstd::utf8::encode_utf8(lo[j]),
        forall|j: int| 0 <= j < ln.len() ==> (#[trigger] kn[j])@ == vstd::utf8::encode_utf8(ln[j]),
        0 <= p,
        0 <= t,
    ensures
        common_suffix(ko, kn, p, t) == line_suffix(lo, ln, p, t),
    decreases lo.len() - p - t,
{
    if t < lo.len() - p && t < ln.len() - p {
        let x = lo.len() - 1 - t;
        let y = ln.len() - 1 - t;
        lemma_key_same(ko[x], kn[y], lo[x], ln[y]);
        lemma_key_suffix(ko, kn, lo, ln, p, t + 1);
    }
}

/// A script through the lines agrees on the lines exactly when it agrees on
/// their UTF-8 keys.
proof fn lemma_keys_agree(
    cs: Seq<Change>,
    ko: Seq<Vec<u8>>,
    kn: Seq<Vec<u8>>,
    lo: Seq<Seq<char>>,
    ln: Seq<Seq<char>>,
)
    requires
        ko.len() == lo.len(),
        kn.len() == ln.len(),
        forall|i: int| 0 <= i < lo.len() ==> (#[trigger] ko[i])@ == vstd::utf8::encode_utf8(lo[i]),
        forall|i: int| 0 <= i < ln.len() ==> (#[trigger] kn[i])@ == vstd::utf8::encode_utf8(ln[i]),
        walks(cs, 0, 0, lo.len() as int, ln.len() as int),
    ensures
        equal_pairs_agree(cs, ko, kn) <==> lines_agree(cs, lo, ln),
{
    lemma_walk_below(cs, 0, 0, lo.len() as int, ln.len() as int);
    assert forall|i: int| 0 <= i < cs.len() implies ((#[trigger] cs[i] matches Change::Equal {
        old_index,
        new_index,
    } ==> same(ko[old_index as int], kn[new_index as int])) <==> (cs[i] matches Change::Equal {
        old_index,
        new_index,
    } ==> lo[old_index as int] == ln[new_index as int])) by {
        match cs[i] {
            Change::Equal { old_index, new_index } => {
                let a = ko[old_index as int];
                let b = kn[new_index as int];
                lemma_encoding_injective(lo[old_index as int], ln[new_index as int]);
                if a.eq_spec(&b) {
                    assert(a@ =~= b@);
                }
                if a@ == b@ {
                    assert(a.eq_spec(&b));
                }
            },
            _ => {},
        }
    }
}

/// Diff two texts by line. Returns the changes plus the split line slices,
/// so a caller can index straight into them. The search runs under the
/// default cost bound.
pub fn diff_lines<'a>(old: &'a str, new: &'a str) -> (r: (Diff, Vec<&'a str>, Vec<&'a str>))
    requires
        3 * (old@.len() + new@.len()) + 3 <= isize::MAX,
    ensures
        r.1@.map_values(|l: &str| l@) == lines_spec(old@),
        r.2@.map_values(|l: &str| l@) == lines_spec(new@),
        walks(r.0@.0, 0, 0, r.1@.len() as int, r.2@.len() as int),
        lines_agree(r.0@.0, lines_spec(old@), lines_spec(new@)),
        r.0@.1 ==> is_shortest_by_lines(r.0@.0, lines_spec(old@), lines_spec(new@)),
        (exists|w: Seq<Change>|
            #[trigger] walks(w, 0, 0, r.1@.len() as int, r.2@.len() as int) && lines_agree(
                w,
                lines_spec(old@),
                lines_spec(new@),
            ) && cost(w) <= 4096) ==> r.0@.1,
        r.0@.1 ==> cost(r.0@.0) <= 4096 || {
            let p = line_prefix(lines_spec(old@), lines_spec(new@), 0);
            let s = line_suffix(lines_spec(old@), lines_spec(new@), p, 0);
            p + s == r.1@.len() || p + s == r.2@.len()
        },
        !r.0@.1 ==> window_replaced(
            r.0@.0,
            r.1@.len() as int,
            r.2@.len() as int,
            line_prefix(lines_spec(old@), lines_spec(new@), 0),
            line_suffix(
                lines_spec(old@),
                lines_spec(new@),
                line_prefix(lines_spec(old@), lines_spec(new@), 0),
                0,
            ),
        ),
{
    let o = lines_of(old);
    let n = lines_of(new);
    proof {
        lemma_lines_count(old@);
        lemma_lines_count(new@);
        assert(o@.len() == lines_spec(old@).len());
        assert(n@.len() == lines_spec(new@).len());
    }
    let ko = line_keys(&o);
    let kn = line_keys(&n);
    let d = diff(ko.as_slice(), kn.as_slice(), DiffOptions::default());
    proof {
        let lo = lines_spec(old@);
        let ln = lines_spec(new@);
        assert forall|i: int| 0 <= i < lo.len() implies (#[trigger] ko@[i])@ == vstd::utf8::encode_utf8(lo[i]) by {
            assert(o@.map_values(|l: &str| l@)[i] == o@[i]@);
        }
        assert forall|i: int| 0 <= i < ln.len() implies (#[trigger] kn@[i])@ == vstd::utf8::encode_utf8(ln[i]) by {
            assert(n@.map_values(|l: &str| l@)[i] == n@[i]@);
        }
        lemma_keys_agree(d@.0, ko@, kn@, lo, ln);
        lemma_key_prefix(ko@, kn@, lo, ln, 0);
        lemma_line_prefix_from(lo, ln, 0);
        lemma_key_suffix(ko@, kn@, lo, ln, line_prefix(lo, ln, 0), 0);
        if d@.1 {
            assert forall|other: Seq<Change>|
                #[trigger] walks(other, 0, 0, lo.len() as int, ln.len() as int) && lines_agree(other, lo, ln)
                    implies cost(d@.0) <= cost(other) by {
                lemma_keys_agree(other, ko@, kn@, lo, ln);
            }
        }
        if exists|w: Seq<Change>|
            #[trigger] walks(w, 0, 0, o@.len() as int, n@.len() as int) && lines_agree(w, lo, ln) && cost(w)
                <= 4096 {
            let w = choose|w: Seq<Change>|
                #[trigger] walks(w, 0, 0, o@.len() as int, n@.len() as int) && lines_agree(w, lo, ln) && cost(
                    w,
                ) <= 4096;
            lemma_keys_agree(w, ko@, kn@, lo, ln);
        }
    }
    (d, o, n)
}

} // verus!
