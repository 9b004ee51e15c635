//! Multi-line text editing: rows of text and a `(row, column)` cursor whose
//! column counts grapheme clusters, not bytes or characters, so an edit never
//! splits an accent from its letter.
//!
//! Vertical movement remembers the column it set out from: moving down from
//! column 40 through a 3-character row and on returns to column 40.
//! Horizontal movement and edits forget it.
use vstd::prelude::*;
use crate::strings::{
    char_width, chars_between, chars_of, grapheme_count, grapheme_lengths, grapheme_prefix_len,
    grapheme_split, lemma_flatten_take_step, lemma_utf8_len_bounds, splice, string_of,
    string_of_parts, string_views, utf8_len, push_char,
};

verus! {

/// Character index where grapheme cluster `col` of `s` begins, or `s.len()`
/// when `s` has no such cluster.
pub open spec fn cut(s: Seq<char>, col: int) -> int {
    if 0 <= col < grapheme_count(s) {
        grapheme_prefix_len(s, col)
    } else {
        s.len() as int
    }
}

/// The rows of `s` after the row `cur` already begun: a row ends at
/// `"\r\n"`, `'\r'` or `'\n'`, and there is always a last row.
pub open spec fn rows_from(s: Seq<char>, cur: Seq<char>) -> Seq<Seq<char>>
    decreases s.len(),
{
    if s.len() == 0 {
        seq![cur]
    } else if s[0] == '\r' && s.len() > 1 && s[1] == '\n' {
        seq![cur] + rows_from(s.skip(2), Seq::empty())
    } else if s[0] == '\r' || s[0] == '\n' {
        seq![cur] + rows_from(s.skip(1), Seq::empty())
    } else {
        rows_from(s.skip(1), cur.push(s[0]))
    }
}

/// The rows of `s`, with `\r\n` and `\r` read as `\n`.
pub open spec fn text_rows(s: Seq<char>) -> Seq<Seq<char>> {
    rows_from(s, Seq::empty())
}

/// `rows` joined with `'\n'`.
pub open spec fn join_rows(rows: Seq<Seq<char>>) -> Seq<char>
    decreases rows.len(),
{
    if rows.len() == 0 {
        Seq::empty()
    } else if rows.len() == 1 {
        rows[0]
    } else {
        join_rows(rows.drop_last()) + seq!['\n'] + rows.last()
    }
}

/// What a [`TextArea`] holds: its rows, the cursor (column in grapheme
/// clusters), the column that vertical movement aims for, and focus.
pub struct AreaModel {
    pub rows: Seq<Seq<char>>,
    pub row: int,
    pub col: int,
    pub desired_col: Option<int>,
    pub focused: bool,
}

/// The empty buffer: one empty row, cursor at the origin.
pub open spec fn empty_model(focused: bool) -> AreaModel {
    AreaModel { rows: seq![Seq::empty()], row: 0, col: 0, desired_col: None, focused }
}

/// The buffer replaced by the rows of `s`, cursor at its end.
pub open spec fn set_text_model(m: AreaModel, s: Seq<char>) -> AreaModel {
    let rows = text_rows(s);
    AreaModel {
        rows,
        row: rows.len() - 1,
        col: grapheme_count(rows.last()) as int,
        desired_col: None,
        focused: m.focused,
    }
}

/// The current row split at the cursor; the cursor starts the new row.
pub open spec fn newline_model(m: AreaModel) -> AreaModel {
    let r = m.rows[m.row];
    let at = cut(r, m.col);
    AreaModel {
        rows: m.rows.update(m.row, r.take(at)).insert(m.row + 1, r.skip(at)),
        row: m.row + 1,
        col: 0,
        desired_col: None,
        ..m
    }
}

/// The first column, from column `k` on, at which the clusters of `s` before
/// it hold at least `i` characters (the cluster count when none does).
pub open spec fn column_from(s: Seq<char>, i: int, k: int) -> int
    decreases grapheme_count(s) - k,
{
    if k < 0 || k >= grapheme_count(s) || grapheme_prefix_len(s, k) >= i {
        if k < 0 || k >= grapheme_count(s) { grapheme_count(s) as int } else { k }
    } else {
        column_from(s, i, k + 1)
    }
}

/// The column, in clusters, of the first cluster boundary of `s` at or after
/// character `i`: where the cursor stands after what lies before `i`, with a
/// combining mark kept on its letter.
pub open spec fn column_after(s: Seq<char>, i: int) -> int {
    column_from(s, i, 0)
}

/// `c` inserted at the cursor; `'\n'` splits the row. The cursor then stands
/// after `c`: on the first cluster boundary past it, so a combining mark
/// joins the cluster before it and the column does not move.
pub open spec fn insert_char_model(m: AreaModel, c: char) -> AreaModel {
    if c == '\n' {
        newline_model(m)
    } else {
        let r = m.rows[m.row];
        let at = cut(r, m.col);
        let nr = splice(r, at, at, seq![c]);
        AreaModel {
            rows: m.rows.update(m.row, nr),
            col: column_after(nr, at + 1),
            desired_col: None,
            ..m
        }
    }
}

/// The characters of `cs` inserted one after another.
pub open spec fn insert_str_model(m: AreaModel, cs: Seq<char>) -> AreaModel
    decreases cs.len(),
{
    if cs.len() == 0 {
        m
    } else {
        insert_str_model(insert_char_model(m, cs[0]), cs.skip(1))
    }
}

/// No row grows past `isize::MAX` bytes while `cs` is inserted.
pub open spec fn insert_fits(m: AreaModel, cs: Seq<char>) -> bool
    decreases cs.len(),
{
    cs.len() == 0 || (utf8_len(m.rows[m.row]) + char_width(cs[0]) <= isize::MAX && insert_fits(
        insert_char_model(m, cs[0]),
        cs.skip(1),
    ))
}

/// Backspace: removes the cluster before the cursor, or at column 0 joins
/// the row to the one above, leaving the cursor at the seam.
pub open spec fn delete_back_model(m: AreaModel) -> AreaModel {
    let r = m.rows[m.row];
    if m.col > 0 {
        AreaModel {
            rows: m.rows.update(m.row, splice(r, cut(r, m.col - 1), cut(r, m.col), Seq::empty())),
            col: m.col - 1,
            desired_col: None,
            ..m
        }
    } else if m.row == 0 {
        AreaModel { desired_col: None, ..m }
    } else {
        let prev = m.rows[m.row - 1];
        AreaModel {
            rows: m.rows.update(m.row - 1, prev + r).remove(m.row),
            row: m.row - 1,
            col: grapheme_count(prev) as int,
            desired_col: None,
            ..m
        }
    }
}

/// Delete forward: removes the cluster at the cursor, or at the end of a row
/// pulls the next row up.
pub open spec fn delete_forward_model(m: AreaModel) -> AreaModel {
    let r = m.rows[m.row];
    if m.col < grapheme_count(r) {
        AreaModel {
            rows: m.rows.update(m.row, splice(r, cut(r, m.col), cut(r, m.col + 1), Seq::empty())),
            desired_col: None,
            ..m
        }
    } else if m.row + 1 < m.rows.len() {
        AreaModel {
            rows: m.rows.update(m.row, r + m.rows[m.row + 1]).remove(m.row + 1),
            desired_col: None,
            ..m
        }
    } else {
        AreaModel { desired_col: None, ..m }
    }
}

/// Left, wrapping to the end of the previous row at column 0.
pub open spec fn move_left_model(m: AreaModel) -> AreaModel {
    if m.col > 0 {
        AreaModel { col: m.col - 1, desired_col: None, ..m }
    } else if m.row > 0 {
        AreaModel {
            row: m.row - 1,
            col: grapheme_count(m.rows[m.row - 1]) as int,
            desired_col: None,
            ..m
        }
    } else {
        AreaModel { desired_col: None, ..m }
    }
}

/// Right, wrapping to the start of the next row at the end of a row.
pub open spec fn move_right_model(m: AreaModel) -> AreaModel {
    if m.col < grapheme_count(m.rows[m.row]) {
        AreaModel { col: m.col + 1, desired_col: None, ..m }
    } else if m.row + 1 < m.rows.len() {
        AreaModel { row: m.row + 1, col: 0, desired_col: None, ..m }
    } else {
        AreaModel { desired_col: None, ..m }
    }
}

pub open spec fn min_int(a: int, b: int) -> int {
    if a <= b {
        a
    } else {
        b
    }
}

/// The column that vertical movement aims for.
pub open spec fn wanted_col(m: AreaModel) -> int {
    match m.desired_col {
        Some(d) => d,
        None => m.col,
    }
}

/// Up one row, aiming for the remembered column; at the top, to column 0.
pub open spec fn move_up_model(m: AreaModel) -> AreaModel {
    if m.row == 0 {
        AreaModel { col: 0, ..m }
    } else {
        AreaModel {
            row: m.row - 1,
            col: min_int(wanted_col(m), grapheme_count(m.rows[m.row - 1]) as int),
            desired_col: Some(wanted_col(m)),
            ..m
        }
    }
}

/// Down one row, aiming for the remembered column; at the bottom, to the end
/// of the row.
pub open spec fn move_down_model(m: AreaModel) -> AreaModel {
    if m.row + 1 >= m.rows.len() {
        AreaModel { col: grapheme_count(m.rows[m.row]) as int, ..m }
    } else {
        AreaModel {
            row: m.row + 1,
            col: min_int(wanted_col(m), grapheme_count(m.rows[m.row + 1]) as int),
            desired_col: Some(wanted_col(m)),
            ..m
        }
    }
}

/// The first `k` clusters hold at least `k` characters and at most all.
proof fn lemma_prefix_bounds(s: Seq<char>, k: int)
    requires
        0 <= k <= grapheme_split(s).len(),
        grapheme_split(s).flatten() == s,
        forall|i: int| 0 <= i < grapheme_split(s).len() ==> grapheme_split(s)[i].len() >= 1,
    ensures
        k <= grapheme_prefix_len(s, k) <= s.len(),
    decreases k,
{
    let gs = grapheme_split(s);
    if k > 0 {
        lemma_prefix_bounds(s, k - 1);
        lemma_flatten_take_step(gs, k - 1);
    }
    lemma_prefix_le_all(gs, k);
}

proof fn lemma_prefix_le_all(gs: Seq<Seq<char>>, k: int)
    requires
        0 <= k <= gs.len(),
    ensures
        gs.take(k).flatten().len() <= gs.flatten().len(),
    decreases gs.len() - k,
{
    if k < gs.len() {
        lemma_prefix_le_all(gs, k + 1);
        lemma_flatten_take_step(gs, k);
    } else {
        assert(gs.take(k) =~= gs);
    }
}

/// Where grapheme cluster `col` of `v` begins, in characters (`v.len()` past
/// the last one), with the facts about the clusters of `v` it rests on.
fn cut_at(v: &[char], col: usize) -> (r: usize)
    ensures
        r == cut(v@, col as int),
        col as int <= grapheme_count(v@) ==> col <= r,
        r <= v@.len(),
        grapheme_count(v@) <= v@.len(),
        col < grapheme_count(v@) ==> cut(v@, col + 1) - r >= 1 && cut(v@, col + 1) <= v@.len(),
{
    let lens = grapheme_lengths(v);
    proof {
        assert forall|i: int| 0 <= i < grapheme_split(v@).len() implies grapheme_split(v@)[i].len()
            >= 1 by {
            assert(lens@[i] >= 1);
        }
        lemma_prefix_bounds(v@, grapheme_split(v@).len() as int);
        assert(grapheme_split(v@).take(grapheme_split(v@).len() as int) =~= grapheme_split(v@));
    }
    if col >= lens.len() {
        return v.len();
    }
    let mut acc: usize = 0;
    let mut i: usize = 0;
    let vlen = v.len();
    assert(grapheme_split(v@).take(0) =~= Seq::<Seq<char>>::empty());
    while i < col
        invariant
            vlen == v@.len(),
            col < lens@.len() == grapheme_split(v@).len(),
            forall|j: int| 0 <= j < lens@.len() ==> lens@[j] == grapheme_split(v@)[j].len(),
            forall|j: int| 0 <= j < lens@.len() ==> lens@[j] >= 1,
            grapheme_split(v@).flatten() == v@,
            forall|j: int| 0 <= j < grapheme_split(v@).len() ==> grapheme_split(v@)[j].len() >= 1,
            i <= col,
            acc == grapheme_prefix_len(v@, i as int),
        decreases col - i,
    {
        proof {
            lemma_flatten_take_step(grapheme_split(v@), i as int);
            lemma_prefix_bounds(v@, i + 1);
        }
        acc = acc + lens[i];
        i += 1;
    }
    proof {
        lemma_prefix_bounds(v@, col as int);
        lemma_prefix_bounds(v@, col + 1);
        lemma_flatten_take_step(grapheme_split(v@), col as int);
    }
    acc
}

/// The column of the first cluster boundary of `v` at or after character
/// `i`; see [`column_after`].
fn column_at(v: &[char], i: usize) -> (r: usize)
    ensures
        r == column_after(v@, i as int),
        r <= v@.len(),
{
    let lens = grapheme_lengths(v);
    proof {
        assert forall|j: int| 0 <= j < grapheme_split(v@).len() implies grapheme_split(v@)[j].len()
            >= 1 by {
            assert(lens@[j] >= 1);
        }
        lemma_prefix_bounds(v@, grapheme_split(v@).len() as int);
    }
    let mut acc: usize = 0;
    let mut k: usize = 0;
    let vlen = v.len();
    assert(grapheme_split(v@).take(0) =~= Seq::<Seq<char>>::empty());
    while k < lens.len() && acc < i
        invariant
            vlen == v@.len(),
            lens@.len() == grapheme_split(v@).len(),
            forall|j: int| 0 <= j < lens@.len() ==> lens@[j] == grapheme_split(v@)[j].len(),
            grapheme_split(v@).flatten() == v@,
            forall|j: int| 0 <= j < grapheme_split(v@).len() ==> grapheme_split(v@)[j].len() >= 1,
            k <= lens@.len(),
            acc == grapheme_prefix_len(v@, k as int),
            acc <= v@.len(),
            column_after(v@, i as int) == column_from(v@, i as int, k as int),
        decreases lens@.len() - k,
    {
        proof {
            lemma_flatten_take_step(grapheme_split(v@), k as int);
            lemma_prefix_bounds(v@, k + 1);
        }
        acc = acc + lens[k];
        k += 1;
    }
    proof {
        lemma_prefix_bounds(v@, k as int);
    }
    k
}

/// `v` with `v[a..b]` replaced by `ins`, as a `String`.
fn spliced(v: &[char], a: usize, b: usize, ins: &[char]) -> (s: String)
    requires
        a <= b <= v@.len(),
    ensures
        s@ == splice(v@, a as int, b as int, ins@),
{
    let head = chars_between(v, 0, a);
    let mut s = string_of_parts(head.as_slice(), ins);
    let mut k: usize = b;
    assert(v@.take(a as int) =~= v@.subrange(0, a as int));
    while k < v.len()
        invariant
            b <= k <= v@.len(),
            s@ == v@.take(a as int) + ins@ + v@.subrange(b as int, k as int),
        decreases v@.len() - k,
    {
        push_char(&mut s, v[k]);
        k += 1;
        assert(s@ =~= v@.take(a as int) + ins@ + v@.subrange(b as int, k as int));
    }
    assert(v@.subrange(b as int, v@.len() as int) =~= v@.skip(b as int));
    s
}

/// The number of grapheme clusters in `s`.
fn count_graphemes(s: &str) -> (r: usize)
    ensures
        r == grapheme_count(s@),
        r <= s@.len(),
{
    let v = chars_of(s);
    let lens = grapheme_lengths(v.as_slice());
    proof {
        assert forall|i: int| 0 <= i < grapheme_split(v@).len() implies grapheme_split(v@)[i].len()
            >= 1 by {
            assert(lens@[i] >= 1);
        }
        lemma_prefix_bounds(v@, grapheme_split(v@).len() as int);
        assert(grapheme_split(v@).take(grapheme_split(v@).len() as int) =~= grapheme_split(v@));
    }
    lens.len()
}

/// The rows of `s`: split at `"\r\n"`, `'\r'` and `'\n'`; there is always
/// at least one.
pub fn split_rows(s: &str) -> (rows: Vec<String>)
    ensures
        string_views(rows@) == text_rows(s@),
        rows@.len() > 0,
{
    let cs = chars_of(s);
    let mut rows: Vec<String> = Vec::new();
    let mut cur: Vec<char> = Vec::new();
    let mut i: usize = 0;
    assert(cs@.skip(0) =~= cs@);
    while i < cs.len()
        invariant
            i <= cs@.len(),
            string_views(rows@) + rows_from(cs@.skip(i as int), cur@) == text_rows(cs@),
        decreases cs@.len() - i,
    {
        let ghost rest = cs@.skip(i as int);
        let ghost before = string_views(rows@);
        let c = cs[i];
        assert(rest[0] == c);
        if c == '\r' || c == '\n' {
            let row = string_of(cur.as_slice());
            rows.push(row);
            cur = Vec::new();
            assert(string_views(rows@) =~= before.push(row@));
            if c == '\r' && i + 1 < cs.len() && cs[i + 1] == '\n' {
                assert(rest.skip(2) =~= cs@.skip(i + 2));
                assert(before.push(row@) + rows_from(cs@.skip(i + 2), Seq::empty()) =~= before
                    + rows_from(rest, row@));
                i += 2;
            } else {
                assert(rest.skip(1) =~= cs@.skip(i + 1));
                assert(before.push(row@) + rows_from(cs@.skip(i + 1), Seq::empty()) =~= before
                    + rows_from(rest, row@));
                i += 1;
            }
        } else {
            let ghost old_cur = cur@;
            cur.push(c);
            assert(rest.skip(1) =~= cs@.skip(i + 1));
            assert(rows_from(rest, old_cur) == rows_from(cs@.skip(i + 1), cur@));
            i += 1;
        }
    }
    let last = string_of(cur.as_slice());
    let ghost before = string_views(rows@);
    rows.push(last);
    assert(string_views(rows@) =~= before + seq![last@]);
    rows
}

/// A multi-line editable buffer with a grapheme-aware `(row, col)` cursor.
#[derive(Debug)]
pub struct TextArea {
    rows: Vec<String>,
    row: usize,
    col: usize,
    desired_col: Option<usize>,
    focused: bool,
}

pub open spec fn opt_int(o: Option<usize>) -> Option<int> {
    match o {
        Some(d) => Some(d as int),
        None => None,
    }
}

impl View for TextArea {
    type V = AreaModel;

    closed spec fn view(&self) -> AreaModel {
        AreaModel {
            rows: string_views(self.rows@),
            row: self.row as int,
            col: self.col as int,
            desired_col: opt_int(self.desired_col),
            focused: self.focused,
        }
    }
}

/// There is always a row, the cursor is on one, and its column is no more
/// than the row's character count.
pub open spec fn area_ok(m: AreaModel) -> bool {
    &&& m.rows.len() > 0
    &&& 0 <= m.row < m.rows.len()
    &&& 0 <= m.col <= m.rows[m.row].len()
}

impl TextArea {
    #[verifier::type_invariant]
    spec fn inv(self) -> bool {
        &&& self.rows@.len() > 0
        &&& self.row < self.rows@.len()
        &&& self.col <= self.rows@[self.row as int]@.len()
    }

    /// Takes the rows out, leaving an empty buffer behind for the moment.
    fn take_rows(&mut self) -> (rows: Vec<String>)
        ensures
            string_views(rows@) == old(self)@.rows,
            rows@.len() > 0,
            old(self).row < rows@.len(),
            old(self).col <= rows@[old(self).row as int]@.len(),
            final(self)@.focused == old(self)@.focused,
            final(self).desired_col == old(self).desired_col,
    {
        proof {
            use_type_invariant(&*self);
        }
        self.col = 0;
        self.row = 0;
        let mut rows: Vec<String> = vec![String::new()];
        std::mem::swap(&mut rows, &mut self.rows);
        rows
    }

    /// Puts rows and a cursor in place.
    fn put(&mut self, rows: Vec<String>, row: usize, col: usize, desired: Option<usize>)
        requires
            rows@.len() > 0,
            row < rows@.len(),
            col <= rows@[row as int]@.len(),
        ensures
            final(self)@ == (AreaModel {
                rows: string_views(rows@),
                row: row as int,
                col: col as int,
                desired_col: opt_int(desired),
                focused: old(self)@.focused,
            }),
    {
        proof {
            use_type_invariant(&*self);
        }
        self.col = 0;
        self.row = 0;
        self.rows = rows;
        self.row = row;
        self.col = col;
        self.desired_col = desired;
    }

    pub fn new() -> (r: Self)
        ensures
            r@ == empty_model(false),
    {
        let rows: Vec<String> = vec![String::new()];
        let r = TextArea { rows, row: 0, col: 0, desired_col: None, focused: false };
        assert(r@.rows =~= seq![Seq::<char>::empty()]);
        r
    }

    /// Seeded with `s`, cursor at the end.
    pub fn with_text(s: &str) -> (r: Self)
        ensures
            r@ == set_text_model(empty_model(false), s@),
    {
        let mut t = TextArea::new();
        t.set_text(s);
        t
    }

    /// Replace the whole buffer with the rows of `s`; `\r\n` and `\r` count
    /// as `\n`. The cursor goes to the end.
    pub fn set_text(&mut self, s: &str)
        ensures
            final(self)@ == set_text_model(old(self)@, s@),
    {
        let rows = split_rows(s);
        let n = rows.len();
        let col = count_graphemes(rows[n - 1].as_str());
        assert(string_views(rows@)[n - 1] == rows@[n - 1]@);
        self.put(rows, n - 1, col, None);
    }

    /// The buffer as one string, rows joined with `'\n'`.
    pub fn text(&self) -> (r: String)
        ensures
            r@ == join_rows(self@.rows),
    {
        proof {
            use_type_invariant(self);
        }
        let mut s = String::new();
        let mut i: usize = 0;
        while i < self.rows.len()
            invariant
                i <= self.rows@.len(),
                self.rows@.len() > 0,
                s@ == join_rows(string_views(self.rows@.take(i as int))),
            decreases self.rows@.len() - i,
        {
            let ghost prev = string_views(self.rows@.take(i as int));
            let ghost next = string_views(self.rows@.take(i + 1));
            assert(next.drop_last() =~= prev);
            assert(next.last() == self.rows@[i as int]@);
            let v = chars_of(self.rows[i].as_str());
            if i > 0 {
                push_char(&mut s, '\n');
            }
            let mut k: usize = 0;
            let ghost base = s@;
            while k < v.len()
                invariant
                    k <= v@.len(),
                    s@ == base + v@.take(k as int),
                decreases v@.len() - k,
            {
                push_char(&mut s, v[k]);
                k += 1;
                assert(s@ =~= base + v@.take(k as int));
            }
            assert(v@.take(v@.len() as int) =~= v@);
            proof {
                if i == 0 {
                    assert(next =~= seq![self.rows@[0]@]);
                    assert(s@ =~= next[0]);
                } else {
                    assert(s@ =~= join_rows(prev) + seq!['\n'] + next.last());
                }
            }
            i += 1;
        }
        assert(self.rows@.take(self.rows@.len() as int) =~= self.rows@);
        s
    }

    pub fn rows(&self) -> (r: &[String])
        ensures
            string_views(r@) == self@.rows,
    {
        self.rows.as_slice()
    }

    pub fn row_count(&self) -> (r: usize)
        ensures
            r == self@.rows.len(),
    {
        self.rows.len()
    }

    /// `(row, column)`, the column in grapheme clusters.
    pub fn cursor(&self) -> (r: (usize, usize))
        ensures
            r.0 == self@.row,
            r.1 == self@.col,
            area_ok(self@),
    {
        proof {
            use_type_invariant(self);
        }
        (self.row, self.col)
    }

    /// A single empty row is the empty buffer; one blank line of content is
    /// not.
    pub fn is_empty(&self) -> (r: bool)
        ensures
            r == (self@.rows.len() == 1 && self@.rows[0].len() == 0),
    {
        proof {
            use_type_invariant(self);
        }
        self.rows.len() == 1 && crate::strings::str_byte_len(self.rows[0].as_str()) == 0
    }

    /// Focus is a render fact, not an edit gate.
    pub fn set_focused(&mut self, focused: bool)
        ensures
            final(self)@ == (AreaModel { focused, ..old(self)@ }),
    {
        proof {
            use_type_invariant(&*self);
        }
        self.focused = focused;
    }

    pub fn is_focused(&self) -> (r: bool)
        ensures
            r == self@.focused,
    {
        self.focused
    }

    /// Split the current row at the cursor.
    pub fn insert_newline(&mut self)
        ensures
            final(self)@ == newline_model(old(self)@),
    {
        let ghost m = self@;
        let row = self.row;
        let col = self.col;
        let mut rows = self.take_rows();
        assert(m.rows[row as int] == rows@[row as int]@);
        let v = chars_of(rows[row].as_str());
        let at = cut_at(v.as_slice(), col);
        let head = spliced(v.as_slice(), at, v.len(), &[]);
        let tail = spliced(v.as_slice(), 0, at, &[]);
        assert(head@ =~= v@.take(at as int));
        assert(tail@ =~= v@.skip(at as int));
        let ghost rv = rows@;
        let n = rows.len();
        rows.set(row, head);
        rows.insert(row + 1, tail);
        assert(string_views(rows@) =~= m.rows.update(row as int, v@.take(at as int)).insert(
            row + 1,
            v@.skip(at as int),
        ));
        self.put(rows, row + 1, 0, None);
    }

    /// Insert one character at the cursor; `'\n'` splits the row. The row
    /// must stay within `isize::MAX` bytes.
    pub fn insert_char(&mut self, c: char)
        requires
            utf8_len(old(self)@.rows[old(self)@.row]) + char_width(c) <= isize::MAX,
        ensures
            final(self)@ == insert_char_model(old(self)@, c),
    {
        if c == '\n' {
            self.insert_newline();
            return ;
        }
        let ghost m = self@;
        let row = self.row;
        let col = self.col;
        let mut rows = self.take_rows();
        assert(m.rows[row as int] == rows@[row as int]@);
        let v = chars_of(rows[row].as_str());
        let at = cut_at(v.as_slice(), col);
        let one = [c];
        let ns = spliced(v.as_slice(), at, at, &one);
        assert(one@ =~= seq![c]);
        proof {
            lemma_utf8_len_bounds(v@);
        }
        let nv = chars_of(ns.as_str());
        let ncol = column_at(nv.as_slice(), at + 1);
        rows.set(row, ns);
        assert(string_views(rows@) =~= m.rows.update(row as int, splice(v@, at as int, at as int, seq![c])));
        self.put(rows, row, ncol, None);
    }

    /// Insert the characters of `s` one after another.
    pub fn insert_str(&mut self, s: &str)
        requires
            insert_fits(old(self)@, s@),
        ensures
            final(self)@ == insert_str_model(old(self)@, s@),
    {
        let cs = chars_of(s);
        let mut i: usize = 0;
        assert(cs@.skip(0) =~= cs@);
        while i < cs.len()
            invariant
                i <= cs@.len(),
                cs@ == s@,
                insert_fits(self@, cs@.skip(i as int)),
                insert_str_model(old(self)@, s@) == insert_str_model(self@, cs@.skip(i as int)),
            decreases cs@.len() - i,
        {
            assert(cs@.skip(i as int).skip(1) =~= cs@.skip(i + 1));
            assert(cs@.skip(i as int)[0] == cs@[i as int]);
            self.insert_char(cs[i]);
            i += 1;
        }
    }

    /// Backspace. At column 0 joins the row to the one above and leaves the
    /// cursor at the seam.
    pub fn delete_back(&mut self)
        ensures
            final(self)@ == delete_back_model(old(self)@),
    {
        let ghost m = self@;
        let row = self.row;
        let col = self.col;
        let mut rows = self.take_rows();
        assert(m.rows[row as int] == rows@[row as int]@);
        if col > 0 {
            let v = chars_of(rows[row].as_str());
            let start = cut_at(v.as_slice(), col - 1);
            let end = cut_at(v.as_slice(), col);
            proof {
                if col as int - 1 < grapheme_count(v@) {
                    assert(start + 1 <= end || col as int == grapheme_count(v@));
                }
            }
            let ns = spliced(v.as_slice(), start, end, &[]);
            rows.set(row, ns);
            assert(string_views(rows@) =~= m.rows.update(row as int, splice(v@, start as int, end as int, Seq::empty())));
            self.put(rows, row, col - 1, None);
            return ;
        }
        if row == 0 {
            self.put(rows, row, col, None);
            return ;
        }
        let cur = rows.remove(row);
        assert(m.rows[row - 1] == rows@[row - 1]@);
        let prev = chars_of(rows[row - 1].as_str());
        let here = chars_of(cur.as_str());
        let n = count_graphemes(rows[row - 1].as_str());
        let joined = string_of_parts(prev.as_slice(), here.as_slice());
        rows.set(row - 1, joined);
        assert(string_views(rows@) =~= m.rows.update(row - 1, prev@ + here@).remove(row as int));
        self.put(rows, row - 1, n, None);
    }

    /// Delete forward. At the end of a row pulls the next row up.
    pub fn delete_forward(&mut self)
        ensures
            final(self)@ == delete_forward_model(old(self)@),
    {
        let ghost m = self@;
        let row = self.row;
        let col = self.col;
        let mut rows = self.take_rows();
        assert(m.rows[row as int] == rows@[row as int]@);
        let v = chars_of(rows[row].as_str());
        let len = count_graphemes(rows[row].as_str());
        if col < len {
            let start = cut_at(v.as_slice(), col);
            let end = cut_at(v.as_slice(), col + 1);
            let ns = spliced(v.as_slice(), start, end, &[]);
            rows.set(row, ns);
            assert(string_views(rows@) =~= m.rows.update(row as int, splice(v@, start as int, end as int, Seq::empty())));
            self.put(rows, row, col, None);
            return ;
        }
        let n = rows.len();
        if row + 1 < n {
            let next = rows.remove(row + 1);
            let here = chars_of(next.as_str());
            let joined = string_of_parts(v.as_slice(), here.as_slice());
            rows.set(row, joined);
            assert(string_views(rows@) =~= m.rows.update(row as int, v@ + here@).remove(row + 1));
            self.put(rows, row, col, None);
            return ;
        }
        self.put(rows, row, col, None);
    }

    /// Back to the initial state: one empty row, cursor at the origin.
    pub fn clear(&mut self)
        ensures
            final(self)@ == empty_model(old(self)@.focused),
    {
        let rows: Vec<String> = vec![String::new()];
        self.put(rows, 0, 0, None);
        assert(self@.rows =~= seq![Seq::<char>::empty()]);
    }

    /// Left, wrapping to the end of the previous row at column 0.
    pub fn move_left(&mut self)
        ensures
            final(self)@ == move_left_model(old(self)@),
    {
        proof {
            use_type_invariant(&*self);
        }
        self.desired_col = None;
        if self.col > 0 {
            self.col -= 1;
        } else if self.row > 0 {
            let n = count_graphemes(self.rows[self.row - 1].as_str());
            self.row -= 1;
            self.col = n;
        }
    }

    /// Right, wrapping to the start of the next row at the end of a row.
    pub fn move_right(&mut self)
        ensures
            final(self)@ == move_right_model(old(self)@),
    {
        proof {
            use_type_invariant(&*self);
        }
        self.desired_col = None;
        let n = count_graphemes(self.rows[self.row].as_str());
        let rn = self.rows.len();
        if self.col < n {
            self.col += 1;
        } else if self.row + 1 < rn {
            self.col = 0;
            self.row += 1;
        }
    }

    /// Up one row, keeping the desired column across shorter rows.
    pub fn move_up(&mut self)
        ensures
            final(self)@ == move_up_model(old(self)@),
    {
        proof {
            use_type_invariant(&*self);
        }
        if self.row == 0 {
            self.col = 0;
            return ;
        }
        let want = match self.desired_col {
            Some(d) => d,
            None => self.col,
        };
        let n = count_graphemes(self.rows[self.row - 1].as_str());
        let c = if want <= n {
            want
        } else {
            n
        };
        self.col = 0;
        self.row -= 1;
        self.col = c;
        self.desired_col = Some(want);
    }

    /// Down one row, keeping the desired column across shorter rows.
    pub fn move_down(&mut self)
        ensures
            final(self)@ == move_down_model(old(self)@),
    {
        proof {
            use_type_invariant(&*self);
        }
        let rn = self.rows.len();
        if self.row + 1 >= rn {
            self.col = count_graphemes(self.rows[self.row].as_str());
            return ;
        }
        let want = match self.desired_col {
            Some(d) => d,
            None => self.col,
        };
        let n = count_graphemes(self.rows[self.row + 1].as_str());
        let c = if want <= n {
            want
        } else {
            n
        };
        self.col = 0;
        self.row += 1;
        self.col = c;
        self.desired_col = Some(want);
    }

    pub fn move_to_row_start(&mut self)
        ensures
            final(self)@ == (AreaModel { col: 0, desired_col: None, ..old(self)@ }),
    {
        proof {
            use_type_invariant(&*self);
        }
        self.col = 0;
        self.desired_col = None;
    }

    pub fn move_to_row_end(&mut self)
        ensures
            final(self)@ == (AreaModel {
                col: grapheme_count(old(self)@.rows[old(self)@.row]) as int,
                desired_col: None,
                ..old(self)@
            }),
    {
        proof {
            use_type_invariant(&*self);
        }
        self.col = count_graphemes(self.rows[self.row].as_str());
        self.desired_col = None;
    }

    pub fn move_to_start(&mut self)
        ensures
            final(self)@ == (AreaModel { row: 0, col: 0, desired_col: None, ..old(self)@ }),
    {
        proof {
            use_type_invariant(&*self);
        }
        self.col = 0;
        self.row = 0;
        self.desired_col = None;
    }

    pub fn move_to_end(&mut self)
        ensures
            final(self)@ == (AreaModel {
                row: old(self)@.rows.len() - 1,
                col: grapheme_count(old(self)@.rows.last()) as int,
                desired_col: None,
                ..old(self)@
            }),
    {
        proof {
            use_type_invariant(&*self);
        }
        let last = self.rows.len() - 1;
        let n = count_graphemes(self.rows[last].as_str());
        self.col = 0;
        self.row = last;
        self.col = n;
        self.desired_col = None;
    }
}

impl Default for TextArea {
    fn default() -> (r: Self)
        ensures
            r@ == empty_model(false),
    {
        TextArea::new()
    }
}

impl Clone for TextArea {
    fn clone(&self) -> (r: Self)
        ensures
            r@ == self@,
    {
        proof {
            use_type_invariant(self);
        }
        let rows = crate::focus::clone_strings(&self.rows);
        TextArea {
            rows,
            row: self.row,
            col: self.col,
            desired_col: self.desired_col,
            focused: self.focused,
        }
    }
}

// ---------------------------------------------------------------------------
// Laws.
// ---------------------------------------------------------------------------

/// The column aimed for survives a short row: moving down from column `c`
/// through a row shorter than `c` onto a row at least `c` long lands on
/// column `c` again.
pub proof fn law_desired_column_survives_a_short_row(m: AreaModel)
    requires
        m.desired_col is None,
        0 <= m.row,
        m.row + 2 < m.rows.len(),
        grapheme_count(m.rows[m.row + 1]) < m.col <= grapheme_count(m.rows[m.row + 2]),
    ensures
        move_down_model(m).col == grapheme_count(m.rows[m.row + 1]),
        move_down_model(move_down_model(m)).col == m.col,
        move_down_model(move_down_model(m)).row == m.row + 2,
{
}

proof fn lemma_join_front(a: Seq<char>, rest: Seq<Seq<char>>)
    requires
        rest.len() > 0,
    ensures
        join_rows(seq![a] + rest) == a + seq!['\n'] + join_rows(rest),
    decreases rest.len(),
{
    let all = seq![a] + rest;
    if rest.len() == 1 {
        assert(all.drop_last() =~= seq![a]);
        assert(all.last() == rest[0]);
        assert(join_rows(seq![a]) == a);
        assert(join_rows(rest) == rest[0]);
        assert(join_rows(all) == join_rows(all.drop_last()) + seq!['\n'] + all.last());
    } else {
        assert(all.drop_last() =~= seq![a] + rest.drop_last());
        lemma_join_front(a, rest.drop_last());
        assert(all.last() == rest.last());
        assert(join_rows(all) == join_rows(all.drop_last()) + seq!['\n'] + all.last());
        assert(join_rows(rest) == join_rows(rest.drop_last()) + seq!['\n'] + rest.last());
        assert(a + seq!['\n'] + join_rows(rest.drop_last()) + seq!['\n'] + rest.last() =~= a
            + seq!['\n'] + (join_rows(rest.drop_last()) + seq!['\n'] + rest.last()));
    }
}

proof fn lemma_rows_from_nonempty(s: Seq<char>, cur: Seq<char>)
    ensures
        rows_from(s, cur).len() > 0,
    decreases s.len(),
{
    if s.len() > 0 {
        if s[0] == '\r' && s.len() > 1 && s[1] == '\n' {
            lemma_rows_from_nonempty(s.skip(2), Seq::empty());
        } else if s[0] == '\r' || s[0] == '\n' {
            lemma_rows_from_nonempty(s.skip(1), Seq::empty());
        } else {
            lemma_rows_from_nonempty(s.skip(1), cur.push(s[0]));
        }
    }
}

proof fn lemma_rows_rejoin(s: Seq<char>, cur: Seq<char>)
    requires
        !s.contains('\r'),
    ensures
        join_rows(rows_from(s, cur)) == cur + s,
    decreases s.len(),
{
    if s.len() == 0 {
        assert(cur + s =~= cur);
    } else {
        assert(s[0] != '\r');
        let rest = s.skip(1);
        assert(!rest.contains('\r')) by {
            if rest.contains('\r') {
                let i = choose|i: int| 0 <= i < rest.len() && rest[i] == '\r';
                assert(s[i + 1] == '\r');
            }
        }
        if s[0] == '\n' {
            lemma_rows_rejoin(rest, Seq::empty());
            lemma_rows_from_nonempty(rest, Seq::empty());
            lemma_join_front(cur, rows_from(rest, Seq::empty()));
            assert(cur + seq!['\n'] + (Seq::<char>::empty() + rest) =~= cur + s);
        } else {
            lemma_rows_rejoin(rest, cur.push(s[0]));
            assert(cur.push(s[0]) + rest =~= cur + s);
        }
    }
}

/// Text without a carriage return comes back unchanged: splitting it into
/// rows and joining them with `'\n'` gives the text itself.
pub proof fn law_rows_rejoin_to_the_text(s: Seq<char>)
    requires
        !s.contains('\r'),
    ensures
        join_rows(text_rows(s)) == s,
{
    lemma_rows_rejoin(s, Seq::empty());
    assert(Seq::<char>::empty() + s =~= s);
}

/// Delete forward inside a row removes exactly the grapheme cluster at the
/// cursor: the row becomes the clusters before the cursor's column followed
/// by the clusters after it, the other rows and the cursor stay, and the
/// column still counts clusters from the row's start. (Given that the row's
/// clusters spell it out, as grapheme segmentation does.)
pub proof fn law_delete_forward_removes_one_cluster(m: AreaModel)
    requires
        0 <= m.row < m.rows.len(),
        0 <= m.col < grapheme_count(m.rows[m.row]),
        grapheme_split(m.rows[m.row]).flatten() == m.rows[m.row],
    ensures
        ({
            let gs = grapheme_split(m.rows[m.row]);
            let d = delete_forward_model(m);
            &&& d.rows.len() == m.rows.len()
            &&& d.rows[m.row] == gs.take(m.col).flatten() + gs.skip(m.col + 1).flatten()
            &&& m.rows[m.row] == gs.take(m.col).flatten() + gs[m.col] + gs.skip(m.col + 1).flatten()
            &&& forall|i: int| 0 <= i < m.rows.len() && i != m.row ==> d.rows[i] == m.rows[i]
            &&& d.row == m.row
            &&& d.col == m.col
        }),
{
    let r = m.rows[m.row];
    let gs = grapheme_split(r);
    let k = m.col;
    lemma_flatten_take_step(gs, k);
    assert(gs =~= gs.take(k) + gs.skip(k));
    vstd::seq_lib::lemma_flatten_concat(gs.take(k), gs.skip(k));
    assert(gs.skip(k) =~= seq![gs[k]] + gs.skip(k + 1));
    vstd::seq_lib::lemma_flatten_concat(seq![gs[k]], gs.skip(k + 1));
    assert(seq![gs[k]].flatten() =~= gs[k]) by {
        let one = seq![gs[k]];
        assert(one.drop_first() =~= Seq::<Seq<char>>::empty());
        assert(one.drop_first().flatten() =~= Seq::<char>::empty());
        assert(one.first() == gs[k]);
        assert(one.flatten() == one.first() + one.drop_first().flatten());
    }
    let a = gs.take(k).flatten();
    let z = gs.skip(k + 1).flatten();
    assert(r =~= a + gs[k] + z);
    assert(cut(r, k) == a.len());
    assert(cut(r, k + 1) == a.len() + gs[k].len()) by {
        if k + 1 < grapheme_count(r) {
        } else {
            assert(gs.take(k + 1) =~= gs);
        }
    }
    assert(splice(r, cut(r, k), cut(r, k + 1), Seq::empty()) =~= a + z);
}

/// Delete forward at the end of a row that has a row below it joins the two:
/// the row becomes itself followed by the next row, one row fewer remains,
/// the rows after them move up by one, and the cursor stays where it was.
/// At the end of the last row nothing changes but the remembered column.
pub proof fn law_delete_forward_at_row_end_joins(m: AreaModel)
    requires
        0 <= m.row < m.rows.len(),
        m.col == grapheme_count(m.rows[m.row]),
    ensures
        ({
            let d = delete_forward_model(m);
            &&& d.row == m.row
            &&& d.col == m.col
            &&& d.desired_col is None
            &&& m.row + 1 < m.rows.len() ==> {
                &&& d.rows.len() + 1 == m.rows.len()
                &&& d.rows[m.row] == m.rows[m.row] + m.rows[m.row + 1]
                &&& forall|i: int| 0 <= i < m.row ==> d.rows[i] == m.rows[i]
                &&& forall|i: int| m.row < i < d.rows.len() ==> d.rows[i] == m.rows[i + 1]
            }
            &&& m.row + 1 == m.rows.len() ==> d.rows == m.rows
        }),
{
}

} // verus!
