//! A single-line input for a value that must never be seen, logged, copied
//! out, or left in freed memory.
//!
//! A renderer learns how many mask cells to draw, never what to draw; there
//! is no selection and no clone; the one way out is [`SecretInput::expose_secret`]
//! (or [`SecretInput::take`]). The buffer is a `Zeroizing<String>`: it is
//! zeroed when cleared and when dropped, and it is edited in place, so the
//! editing never leaves a copy of the secret behind. (A `String` that grows
//! past its capacity still reallocates without zeroing the old buffer, which
//! is why the input reserves room up front.)
use vstd::prelude::*;
use zeroize::{Zeroize, Zeroizing};
use vstd::string::StringExecFns;
use crate::strings::{
    decimal_string, decimal_text,
    byte_offset, char_len_utf8, char_width, first_cluster_len, grapheme_count, grapheme_prefix_len,
    grapheme_split, grapheme_starts, index_at_byte, last_cluster_len, lemma_byte_offset_strict,
    lemma_flatten_take_step, lemma_index_at_byte, lemma_piece_le_whole, lemma_splice,
    lemma_utf8_len_concat, on_boundary, splice, split_at_byte, str_byte_len, string_with_capacity,
    utf8_len,
};

verus! {

/// A zeroizing string buffer, `zeroize::Zeroizing<String>`, opaque to Verus:
/// what it holds is named by [`held`]. Dropping it zeroes the bytes.
#[verifier::external_body]
pub struct SecretBuf {
    z: Zeroizing<String>,
}

/// What a [`SecretBuf`] holds: the characters of the string inside it.
pub uninterp spec fn held(b: SecretBuf) -> Seq<char>;

/// `Zeroizing::new`: wraps `s`, which the buffer then holds unchanged.
#[verifier::external_body]
fn zeroizing(s: String) -> (b: SecretBuf)
    ensures
        held(b) == s@,
{
    SecretBuf { z: Zeroizing::new(s) }
}

/// The string a buffer holds, borrowed through `Zeroizing`'s `Deref`.
#[verifier::external_body]
fn held_string(b: &SecretBuf) -> (s: &String)
    ensures
        s@ == held(*b),
{
    &b.z
}

/// `String::insert` on the held string (through `DerefMut`): `c` goes in at
/// byte offset `i`, which lies on a character boundary.
#[verifier::external_body]
fn held_insert(b: &mut SecretBuf, i: usize, c: char)
    requires
        on_boundary(held(*old(b)), i as int),
        utf8_len(held(*old(b))) + char_width(c) <= isize::MAX,
    ensures
        held(*final(b)) == splice(
            held(*old(b)),
            index_at_byte(held(*old(b)), i as int),
            index_at_byte(held(*old(b)), i as int),
            seq![c],
        ),
{
    b.z.insert(i, c);
}

/// `String::replace_range(i..j, "")` on the held string (through
/// `DerefMut`): removes the bytes from `i` to `j`, both on character
/// boundaries.
#[verifier::external_body]
fn held_remove(b: &mut SecretBuf, i: usize, j: usize)
    requires
        on_boundary(held(*old(b)), i as int),
        on_boundary(held(*old(b)), j as int),
        i <= j,
    ensures
        held(*final(b)) == splice(
            held(*old(b)),
            index_at_byte(held(*old(b)), i as int),
            index_at_byte(held(*old(b)), j as int),
            Seq::empty(),
        ),
{
    b.z.replace_range(i..j, "");
}

/// `Zeroize::zeroize` on the `Zeroizing<String>`: overwrites the string's
/// bytes with zeroes and leaves it empty.
#[verifier::external_body]
fn held_zeroize(b: &mut SecretBuf)
    ensures
        held(*final(b)) == Seq::<char>::empty(),
{
    b.z.zeroize();
}

impl SecretBuf {
    /// The secret, borrowed.
    pub fn as_str(&self) -> (r: &str)
        ensures
            r@ == held(*self),
    {
        held_string(self).as_str()
    }
}

impl core::ops::Deref for SecretBuf {
    type Target = String;

    /// The held string: its characters are what the buffer holds.
    fn deref(&self) -> (r: &String)
        ensures
            r@ == held(*self),
    {
        held_string(self)
    }
}

/// `true` or `false`.
pub open spec fn bool_text(b: bool) -> Seq<char> {
    if b {
        seq!['t', 'r', 'u', 'e']
    } else {
        seq!['f', 'a', 'l', 's', 'e']
    }
}

/// The text of the debug summary for a given mask length and focus:
/// `SecretInput { mask_len: N, focused: B, .. }`.
pub open spec fn summary_text(mask_len: usize, focused: bool) -> Seq<char> {
    "SecretInput { mask_len: "@ + decimal_text(mask_len as nat) + ", focused: "@ + bool_text(focused)
        + ", .. }"@
}

/// Room reserved up front, past a typical passphrase, so that short secrets
/// never reallocate (and so never leave an un-zeroed copy behind).
const DEFAULT_CAPACITY: usize = 128;

/// Single-line input for a secret: masked, unloggable, un-copyable, zeroized.
pub struct SecretInput {
    /// The secret itself; only ever leaves through `expose_secret` or `take`.
    buf: SecretBuf,
    /// Cursor position, in bytes into `buf`.
    cursor: usize,
    focused: bool,
}

impl SecretInput {
    /// The cursor sits on a character boundary of a secret whose UTF-8
    /// length fits an `isize`.
    #[verifier::type_invariant]
    spec fn inv(self) -> bool {
        &&& utf8_len(held(self.buf)) <= isize::MAX
        &&& on_boundary(held(self.buf), self.cursor as int)
    }

    /// The characters of the secret.
    pub closed spec fn chars(&self) -> Seq<char> {
        held(self.buf)
    }

    /// The cursor as a character index.
    pub closed spec fn char_cursor(&self) -> int {
        index_at_byte(held(self.buf), self.cursor as int)
    }

    /// Whether the input has keyboard focus.
    pub closed spec fn has_focus(&self) -> bool {
        self.focused
    }

    proof fn lemma_cursor(&self)
        requires
            self.inv(),
        ensures
            0 <= self.char_cursor() <= self.chars().len(),
            byte_offset(self.chars(), self.char_cursor()) == self.cursor,
            utf8_len(self.chars()) <= isize::MAX,
            byte_offset(self.chars(), self.chars().len() as int) == utf8_len(self.chars()),
            byte_offset(self.chars(), 0) == 0,
            self.cursor <= utf8_len(self.chars()),
            self.cursor == 0 <==> self.char_cursor() == 0,
            self.cursor == utf8_len(self.chars()) <==> self.char_cursor() == self.chars().len(),
    {
        let t = held(self.buf);
        assert(t.take(t.len() as int) =~= t);
        assert(t.take(0) =~= Seq::<char>::empty());
        let c = self.char_cursor();
        if c < t.len() {
            lemma_byte_offset_strict(t, c, t.len() as int);
        }
        if 0 < c {
            lemma_byte_offset_strict(t, 0, c);
        }
    }

    /// Moves the buffer out, leaving `spare` (empty) in its place and the
    /// cursor at the start; the buffer is edited while it is out, so the
    /// input is never seen half-updated.
    fn detach(&mut self, spare: SecretBuf) -> (b: SecretBuf)
        requires
            held(spare) == Seq::<char>::empty(),
        ensures
            held(b) == old(self).chars(),
            final(self).chars() == Seq::<char>::empty(),
            final(self).char_cursor() == 0,
            final(self).has_focus() == old(self).has_focus(),
    {
        proof {
            use_type_invariant(&*self);
            lemma_index_at_byte(held(self.buf), 0);
        }
        self.cursor = 0;
        let mut b = spare;
        proof {
            assert(Seq::<char>::empty().take(0) =~= Seq::<char>::empty());
            lemma_index_at_byte(held(b), 0);
        }
        std::mem::swap(&mut self.buf, &mut b);
        b
    }

    /// Puts an edited buffer back, with the cursor at byte offset `cursor`.
    fn attach(&mut self, b: SecretBuf, cursor: usize)
        requires
            on_boundary(held(b), cursor as int),
            utf8_len(held(b)) <= isize::MAX,
        ensures
            final(self).chars() == held(b),
            final(self).char_cursor() == index_at_byte(held(b), cursor as int),
            final(self).has_focus() == old(self).has_focus(),
    {
        proof {
            use_type_invariant(&*self);
            lemma_index_at_byte(held(self.buf), 0);
            lemma_index_at_byte(held(b), 0);
        }
        self.cursor = 0;
        self.buf = b;
        self.cursor = cursor;
    }

    /// An empty input with room reserved for a typical secret.
    pub fn new() -> (r: Self)
        ensures
            r.chars() == Seq::<char>::empty(),
            r.char_cursor() == 0,
            !r.has_focus(),
    {
        Self::with_capacity(DEFAULT_CAPACITY)
    }

    /// An empty input with an explicit capacity. Growing past it is correct
    /// but leaves an un-zeroed copy of the old buffer behind.
    pub fn with_capacity(capacity: usize) -> (r: Self)
        requires
            capacity <= isize::MAX,
        ensures
            r.chars() == Seq::<char>::empty(),
            r.char_cursor() == 0,
            !r.has_focus(),
    {
        let buf = zeroizing(string_with_capacity(capacity));
        proof {
            assert(Seq::<char>::empty().take(0) =~= Seq::<char>::empty());
            assert(byte_offset(held(buf), 0) == 0);
            lemma_index_at_byte(held(buf), 0);
        }
        SecretInput { buf, cursor: 0, focused: false }
    }

    /// Set whether this input has keyboard focus (a render fact: it does
    /// not gate editing).
    pub fn set_focused(&mut self, focused: bool)
        ensures
            final(self).chars() == old(self).chars(),
            final(self).char_cursor() == old(self).char_cursor(),
            final(self).has_focus() == focused,
    {
        proof {
            use_type_invariant(&*self);
        }
        self.focused = focused;
    }

    /// Whether this input has keyboard focus.
    pub fn is_focused(&self) -> (r: bool)
        ensures
            r == self.has_focus(),
    {
        self.focused
    }

    /// The number of mask cells a renderer draws: grapheme clusters, not
    /// bytes and not `char`s, so the width of the field does not give away
    /// the secret's encoding.
    pub fn mask_len(&self) -> (r: usize)
        ensures
            r == grapheme_count(self.chars()),
    {
        let starts = grapheme_starts(held_string(&self.buf).as_str());
        starts.len()
    }

    /// The cursor's position in mask cells from the start.
    pub fn cursor_cell(&self) -> (r: usize)
        ensures
            r == grapheme_count(self.chars().take(self.char_cursor())),
    {
        proof {
            use_type_invariant(&*self);
            self.lemma_cursor();
        }
        let (before, _) = split_at_byte(held_string(&self.buf).as_str(), self.cursor);
        let starts = grapheme_starts(before);
        starts.len()
    }

    /// Whether nothing has been typed.
    pub fn is_empty(&self) -> (r: bool)
        ensures
            r == (self.chars().len() == 0),
    {
        held_string(&self.buf).as_str().is_empty()
    }

    /// Insert a character at the cursor.
    pub fn insert_char(&mut self, c: char)
        requires
            utf8_len(old(self).chars()) + char_width(c) <= isize::MAX,
        ensures
            final(self).chars() == splice(
                old(self).chars(),
                old(self).char_cursor(),
                old(self).char_cursor(),
                seq![c],
            ),
            final(self).char_cursor() == old(self).char_cursor() + 1,
            final(self).has_focus() == old(self).has_focus(),
    {
        proof {
            use_type_invariant(&*self);
            self.lemma_cursor();
        }
        let ghost t = held(self.buf);
        let ghost ci = self.char_cursor();
        let w = char_len_utf8(c);
        let cur = self.cursor;
        let mut b = self.detach(zeroizing(String::new()));
        held_insert(&mut b, cur, c);
        proof {
            let u = held(b);
            lemma_splice(t, ci, ci, seq![c]);
            assert(t.subrange(ci, ci) =~= Seq::<char>::empty());
            assert(utf8_len(Seq::<char>::empty()) == 0);
            crate::strings::lemma_utf8_len_single(c);
            lemma_index_at_byte(u, ci + 1);
        }
        self.attach(b, cur + w);
    }

    /// Delete the grapheme cluster before the cursor: one press removes one
    /// thing the user sees.
    pub fn backspace(&mut self)
        ensures
            old(self).char_cursor() == 0 ==> final(self).chars() == old(self).chars()
                && final(self).char_cursor() == 0,
            old(self).char_cursor() > 0 ==> {
                let t = old(self).chars();
                let ci = old(self).char_cursor();
                let start = ci - last_cluster_len(t.take(ci));
                &&& final(self).chars() == splice(t, start, ci, Seq::empty())
                &&& final(self).char_cursor() == start
            },
            final(self).has_focus() == old(self).has_focus(),
    {
        proof {
            use_type_invariant(&*self);
            self.lemma_cursor();
        }
        if self.cursor == 0 {
            return;
        }
        let ghost t = held(self.buf);
        let ghost ci = self.char_cursor();
        let (before, _) = split_at_byte(held_string(&self.buf).as_str(), self.cursor);
        let starts = grapheme_starts(before);
        let ghost start = ci - last_cluster_len(t.take(ci));
        proof {
            lemma_starts_facts(before@, starts@);
            lemma_before_last_cluster(t, ci);
        }
        // An empty prefix has no last cluster; the cursor is not at 0 here.
        let prev = if starts.len() == 0 {
            0
        } else {
            starts[starts.len() - 1]
        };
        proof {
            lemma_index_at_byte(t, start);
            lemma_index_at_byte(t, ci);
            lemma_byte_offset_strict(t, start, ci);
        }
        let cur = self.cursor;
        let mut b = self.detach(zeroizing(String::new()));
        held_remove(&mut b, prev, cur);
        proof {
            let u = held(b);
            lemma_splice(t, start, ci, Seq::empty());
            lemma_index_at_byte(u, start);
        }
        self.attach(b, prev);
    }

    /// Delete the grapheme cluster at the cursor.
    pub fn delete(&mut self)
        ensures
            old(self).char_cursor() == old(self).chars().len() ==> final(self).chars() == old(
                self,
            ).chars() && final(self).char_cursor() == old(self).char_cursor(),
            old(self).char_cursor() < old(self).chars().len() ==> {
                let t = old(self).chars();
                let ci = old(self).char_cursor();
                &&& final(self).chars() == splice(t, ci, ci + first_cluster_len(t.skip(ci)), Seq::empty())
                &&& final(self).char_cursor() == ci
            },
            final(self).has_focus() == old(self).has_focus(),
    {
        proof {
            use_type_invariant(&*self);
            self.lemma_cursor();
        }
        let total = str_byte_len(held_string(&self.buf).as_str());
        if self.cursor >= total {
            return;
        }
        let ghost t = held(self.buf);
        let ghost ci = self.char_cursor();
        let next = self.next_boundary(total);
        let ghost e = ci + first_cluster_len(t.skip(ci));
        proof {
            lemma_index_at_byte(t, ci);
            lemma_index_at_byte(t, e);
            lemma_byte_offset_strict(t, ci, e);
        }
        let cur = self.cursor;
        let mut b = self.detach(zeroizing(String::new()));
        held_remove(&mut b, cur, next);
        proof {
            let u = held(b);
            lemma_splice(t, ci, e, Seq::empty());
            lemma_index_at_byte(u, ci);
        }
        self.attach(b, cur);
    }

    /// The byte offset just past the grapheme cluster at the cursor, which is
    /// not at the end.
    fn next_boundary(&self, total: usize) -> (r: usize)
        requires
            total == utf8_len(self.chars()),
            self.char_cursor() < self.chars().len(),
        ensures
            r == byte_offset(
                self.chars(),
                self.char_cursor() + first_cluster_len(self.chars().skip(self.char_cursor())),
            ),
            self.char_cursor() + first_cluster_len(self.chars().skip(self.char_cursor()))
                <= self.chars().len(),
            first_cluster_len(self.chars().skip(self.char_cursor())) >= 1,
    {
        proof {
            use_type_invariant(&*self);
            self.lemma_cursor();
        }
        let ghost t = held(self.buf);
        let ghost ci = self.char_cursor();
        let (_, after) = split_at_byte(held_string(&self.buf).as_str(), self.cursor);
        let starts = grapheme_starts(after);
        proof {
            lemma_starts_facts(after@, starts@);
            lemma_after_first_cluster(t, ci);
        }
        // Past the only cluster left is the end of the text.
        if starts.len() > 1 {
            proof {
                let f = first_cluster_len(t.skip(ci));
                assert(grapheme_prefix_len(t.skip(ci), 1) == f);
                assert(t.skip(ci).take(f) =~= t.subrange(ci, ci + f));
                assert(t.take(ci + f) =~= t.take(ci) + t.subrange(ci, ci + f));
                lemma_utf8_len_concat(t.take(ci), t.subrange(ci, ci + f));
                lemma_utf8_len_concat(t.take(ci + f), t.skip(ci + f));
                assert(t =~= t.take(ci + f) + t.skip(ci + f));
            }
            self.cursor + starts[1]
        } else {
            total
        }
    }

    /// Move the cursor one grapheme cluster left.
    pub fn move_left(&mut self)
        ensures
            final(self).chars() == old(self).chars(),
            old(self).char_cursor() == 0 ==> final(self).char_cursor() == 0,
            old(self).char_cursor() > 0 ==> final(self).char_cursor() == old(self).char_cursor()
                - last_cluster_len(old(self).chars().take(old(self).char_cursor())),
            final(self).has_focus() == old(self).has_focus(),
    {
        proof {
            use_type_invariant(&*self);
            self.lemma_cursor();
        }
        let ghost t = held(self.buf);
        let ghost ci = self.char_cursor();
        let (before, _) = split_at_byte(held_string(&self.buf).as_str(), self.cursor);
        let starts = grapheme_starts(before);
        proof {
            lemma_starts_facts(before@, starts@);
            if ci > 0 {
                lemma_before_last_cluster(t, ci);
                lemma_index_at_byte(t, ci - last_cluster_len(t.take(ci)));
            } else {
                assert(t.take(0) =~= Seq::<char>::empty());
                let gs = grapheme_split(t.take(0));
                if gs.len() > 0 {
                    lemma_piece_le_whole(gs, 0);
                }
                lemma_index_at_byte(t, 0);
            }
        }
        self.cursor = if starts.len() == 0 {
            0
        } else {
            starts[starts.len() - 1]
        };
    }

    /// Move the cursor one grapheme cluster right.
    pub fn move_right(&mut self)
        ensures
            final(self).chars() == old(self).chars(),
            old(self).char_cursor() == old(self).chars().len() ==> final(self).char_cursor()
                == old(self).char_cursor(),
            old(self).char_cursor() < old(self).chars().len() ==> final(self).char_cursor()
                == old(self).char_cursor() + first_cluster_len(
                old(self).chars().skip(old(self).char_cursor()),
            ),
            final(self).has_focus() == old(self).has_focus(),
    {
        proof {
            use_type_invariant(&*self);
            self.lemma_cursor();
        }
        let total = str_byte_len(held_string(&self.buf).as_str());
        if self.cursor >= total {
            return;
        }
        let next = self.next_boundary(total);
        proof {
            let t = held(self.buf);
            lemma_index_at_byte(t, self.char_cursor() + first_cluster_len(t.skip(self.char_cursor())));
        }
        self.cursor = next;
    }

    /// Move the cursor to the start.
    pub fn move_home(&mut self)
        ensures
            final(self).chars() == old(self).chars(),
            final(self).char_cursor() == 0,
            final(self).has_focus() == old(self).has_focus(),
    {
        proof {
            use_type_invariant(&*self);
            self.lemma_cursor();
            lemma_index_at_byte(held(self.buf), 0);
        }
        self.cursor = 0;
    }

    /// Move the cursor to the end.
    pub fn move_end(&mut self)
        ensures
            final(self).chars() == old(self).chars(),
            final(self).char_cursor() == final(self).chars().len(),
            final(self).has_focus() == old(self).has_focus(),
    {
        proof {
            use_type_invariant(&*self);
            self.lemma_cursor();
            lemma_index_at_byte(held(self.buf), held(self.buf).len() as int);
        }
        self.cursor = str_byte_len(held_string(&self.buf).as_str());
    }

    /// Clear the secret, zeroing the buffer's bytes; the allocation (and so
    /// the room reserved) stays.
    pub fn clear(&mut self)
        ensures
            final(self).chars() == Seq::<char>::empty(),
            final(self).char_cursor() == 0,
            final(self).has_focus() == old(self).has_focus(),
    {
        proof {
            use_type_invariant(&*self);
            self.lemma_cursor();
            lemma_index_at_byte(held(self.buf), 0);
        }
        let mut b = self.detach(zeroizing(String::new()));
        held_zeroize(&mut b);
        proof {
            assert(Seq::<char>::empty().take(0) =~= Seq::<char>::empty());
            lemma_index_at_byte(held(b), 0);
        }
        self.attach(b, 0);
    }

    /// The one deliberate exit: borrow the secret to hand it to an
    /// authenticator. Keep the borrow short and never store it.
    pub fn expose_secret(&self) -> (r: &str)
        ensures
            r@ == self.chars(),
    {
        held_string(&self.buf).as_str()
    }

    /// Move the secret out, leaving this input empty. The returned buffer
    /// zeroes itself when dropped.
    pub fn take(&mut self) -> (r: SecretBuf)
        ensures
            held(r) == old(self).chars(),
            final(self).chars() == Seq::<char>::empty(),
            final(self).char_cursor() == 0,
            final(self).has_focus() == old(self).has_focus(),
    {
        proof {
            use_type_invariant(&*self);
            self.lemma_cursor();
            lemma_index_at_byte(held(self.buf), 0);
        }
        self.detach(zeroizing(string_with_capacity(DEFAULT_CAPACITY)))
    }

    /// What the input shows of itself when debugged: the mask length and
    /// the focus, never the characters.
    pub fn debug_summary(&self) -> (r: String)
        ensures
            r@ == summary_text(grapheme_count(self.chars()) as usize, self.has_focus()),
    {
        let mut r = String::from_str("SecretInput { mask_len: ");
        let digits = decimal_string(self.mask_len());
        r.append(digits.as_str());
        r.append(", focused: ");
        if self.focused {
            r.append("true");
            proof {
                reveal_strlit("true");
            }
        } else {
            r.append("false");
            proof {
                reveal_strlit("false");
            }
        }
        r.append(", .. }");
        r
    }
}

impl Default for SecretInput {
    fn default() -> (r: Self)
        ensures
            r.chars() == Seq::<char>::empty(),
            r.char_cursor() == 0,
            !r.has_focus(),
    {
        Self::new()
    }
}

/// What `grapheme_starts` reports of `p`, restated over all its clusters.
proof fn lemma_starts_facts(p: Seq<char>, starts: Seq<usize>)
    requires
        starts.len() == grapheme_split(p).len(),
        grapheme_split(p).take(starts.len() as int).flatten() == p,
        forall|i: int|
            0 <= i < starts.len() ==> #[trigger] starts[i] == byte_offset(p, grapheme_prefix_len(p, i))
                && grapheme_split(p)[i].len() > 0,
    ensures
        grapheme_split(p).flatten() == p,
        forall|i: int|
            0 <= i < grapheme_split(p).len() ==> (#[trigger] grapheme_split(p)[i]).len() > 0,
{
    assert(grapheme_split(p).take(starts.len() as int) =~= grapheme_split(p));
    assert forall|i: int| 0 <= i < grapheme_split(p).len() implies (#[trigger] grapheme_split(p)[i]).len() > 0 by {
        assert(starts[i] == byte_offset(p, grapheme_prefix_len(p, i)));
    }
}

/// The clusters of the characters before a cursor that is not at the start:
/// the last one starts at `ci - last_cluster_len`, whose byte offset is what
/// `grapheme_starts` reports for it.
proof fn lemma_before_last_cluster(t: Seq<char>, ci: int)
    requires
        0 < ci <= t.len(),
        grapheme_split(t.take(ci)).flatten() == t.take(ci),
        forall|i: int|
            0 <= i < grapheme_split(t.take(ci)).len() ==> (#[trigger] grapheme_split(
                t.take(ci),
            )[i]).len() > 0,
    ensures
        grapheme_split(t.take(ci)).len() > 0,
        grapheme_prefix_len(t.take(ci), grapheme_split(t.take(ci)).len() - 1) == ci - last_cluster_len(
            t.take(ci),
        ),
        byte_offset(t.take(ci), ci - last_cluster_len(t.take(ci))) == byte_offset(
            t,
            ci - last_cluster_len(t.take(ci)),
        ),
        0 <= ci - last_cluster_len(t.take(ci)) < ci,
{
    let p = t.take(ci);
    let gs = grapheme_split(p);
    if gs.len() == 0 {
        assert(gs.flatten() =~= Seq::<char>::empty());
    }
    let k = gs.len() - 1;
    lemma_flatten_take_step(gs, k);
    assert(gs.take(k + 1) =~= gs);
    assert(gs.last() == gs[k]);
    lemma_piece_le_whole(gs, k);
    assert(p.len() == ci);
    let start = ci - last_cluster_len(p);
    assert(p.take(start) =~= t.take(start));
}

/// The clusters of the characters from a cursor that is not at the end: the
/// first one is `first_cluster_len` long, and it is all there is exactly
/// when it reaches the end.
proof fn lemma_after_first_cluster(t: Seq<char>, ci: int)
    requires
        0 <= ci < t.len(),
        grapheme_split(t.skip(ci)).flatten() == t.skip(ci),
        forall|i: int|
            0 <= i < grapheme_split(t.skip(ci)).len() ==> (#[trigger] grapheme_split(
                t.skip(ci),
            )[i]).len() > 0,
    ensures
        grapheme_split(t.skip(ci)).len() > 0,
        grapheme_prefix_len(t.skip(ci), 1) == first_cluster_len(t.skip(ci)),
        1 <= first_cluster_len(t.skip(ci)),
        ci + first_cluster_len(t.skip(ci)) <= t.len(),
        grapheme_split(t.skip(ci)).len() <= 1 ==> ci + first_cluster_len(t.skip(ci)) == t.len(),
{
    let a = t.skip(ci);
    let gs = grapheme_split(a);
    if gs.len() == 0 {
        assert(gs.flatten() =~= Seq::<char>::empty());
    }
    lemma_flatten_take_step(gs, 0);
    assert(gs.take(0) =~= Seq::<Seq<char>>::empty());
    assert(gs.take(0).flatten() =~= Seq::<char>::empty());
    lemma_piece_le_whole(gs, 0);
    if gs.len() == 1 {
        assert(gs.take(1) =~= gs);
    }
}

} // verus!
