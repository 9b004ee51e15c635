//! Single-line text input with a byte cursor, select-all, and grapheme-aware
//! editing.
use vstd::prelude::*;
use crate::strings::{
    byte_offset, byte_offset_of, char_index_at, char_len_utf8, char_width, chars_between, chars_of,
    first_cluster_len, first_grapheme_len, last_cluster_len, last_grapheme_len,
    lemma_byte_offset_strict, lemma_splice, splice, str_byte_len, string_of_parts, utf8_len,
};

verus! {

/// Single-line text input with cursor, selection, and grapheme-aware editing.
#[derive(Debug)]
pub struct TextInput {
    text: String,
    cursor: usize,
    selection: Option<(usize, usize)>,
}

impl TextInput {
    /// The cursor sits on a character boundary of the text, and a selection,
    /// when there is one, spans the whole text.
    #[verifier::type_invariant]
    spec fn inv(self) -> bool {
        &&& utf8_len(self.text@) <= usize::MAX
        &&& exists|i: int| 0 <= i <= self.text@.len() && byte_offset(self.text@, i) == self.cursor
        &&& (self.selection matches Some((s, e)) ==> s == 0 && e == utf8_len(self.text@))
    }

    /// The characters of the text.
    pub closed spec fn chars(&self) -> Seq<char> {
        self.text@
    }

    /// The cursor as a character index.
    pub closed spec fn char_cursor(&self) -> int {
        choose|i: int| 0 <= i <= self.text@.len() && byte_offset(self.text@, i) == self.cursor
    }

    /// Whether the whole text is selected.
    pub closed spec fn has_selection(&self) -> bool {
        self.selection is Some
    }

    /// The text and character cursor left once a selection is deleted.
    pub open spec fn unselected(&self) -> (Seq<char>, int) {
        if self.has_selection() {
            (Seq::empty(), 0)
        } else {
            (self.chars(), self.char_cursor())
        }
    }

    proof fn lemma_cursor(&self)
        requires
            self.inv(),
        ensures
            0 <= self.char_cursor() <= self.text@.len(),
            byte_offset(self.text@, self.char_cursor()) == self.cursor,
            utf8_len(self.text@) <= usize::MAX,
            byte_offset(self.text@, self.text@.len() as int) == utf8_len(self.text@),
            forall|i: int|
                0 <= i <= self.text@.len() && byte_offset(self.text@, i) == self.cursor ==> i
                    == self.char_cursor(),
            self.selection matches Some((s, e)) ==> s == 0 && e == utf8_len(self.text@),
            self.cursor <= utf8_len(self.text@),
    {
        assert(self.text@.take(self.text@.len() as int) =~= self.text@);
        let c = self.char_cursor();
        if c < self.text@.len() {
            lemma_byte_offset_strict(self.text@, c, self.text@.len() as int);
        }
        assert forall|i: int|
            0 <= i <= self.text@.len() && byte_offset(self.text@, i) == self.cursor implies i == c by {
            if i < c {
                lemma_byte_offset_strict(self.text@, i, c);
            } else if c < i {
                lemma_byte_offset_strict(self.text@, c, i);
            }
        }
    }

    pub fn new() -> (r: Self)
        ensures
            r.chars() == Seq::<char>::empty(),
            r.char_cursor() == 0,
            !r.has_selection(),
    {
        let text = String::new();
        proof {
            assert(byte_offset(text@, 0) == 0) by {
                assert(text@.take(0) =~= Seq::<char>::empty());
            }
            assert(utf8_len(text@) == 0);
        }
        let r = TextInput { text, cursor: 0, selection: None };
        proof {
            use_type_invariant(&r);
            r.lemma_cursor();
        }
        r
    }

    pub fn with_text(s: &str) -> (r: Self)
        ensures
            r.chars() == s@,
            r.char_cursor() == s@.len(),
            !r.has_selection(),
    {
        let len = str_byte_len(s);
        let text = s.to_owned();
        proof {
            assert(s@.take(s@.len() as int) =~= s@);
            assert(byte_offset(text@, s@.len() as int) == len);
        }
        let r = TextInput { text, cursor: len, selection: None };
        proof {
            use_type_invariant(&r);
            r.lemma_cursor();
        }
        r
    }

    /// Returns the full text content.
    pub fn text(&self) -> (r: &str)
        ensures
            r@ == self.chars(),
    {
        self.text.as_str()
    }

    /// Returns the current cursor byte position.
    pub fn cursor(&self) -> (r: usize)
        ensures
            r == byte_offset(self.chars(), self.char_cursor()),
    {
        proof {
            use_type_invariant(&*self);
            self.lemma_cursor();
        }
        self.cursor
    }

    /// Returns true if the text is empty.
    pub fn is_empty(&self) -> (r: bool)
        ensures
            r == (self.chars().len() == 0),
    {
        self.text.as_str().is_empty()
    }

    /// Insert a character at the cursor, replacing the selection if any.
    pub fn insert_char(&mut self, c: char)
        requires
            utf8_len(old(self).chars()) + char_width(c) <= isize::MAX,
        ensures
            final(self).chars() == splice(
                old(self).unselected().0,
                old(self).unselected().1,
                old(self).unselected().1,
                seq![c],
            ),
            final(self).char_cursor() == old(self).unselected().1 + 1,
            !final(self).has_selection(),
    {
        proof {
            use_type_invariant(&*self);
            self.lemma_cursor();
        }
        self.delete_selection();
        proof {
            use_type_invariant(&*self);
            self.lemma_cursor();
        }
        let chars = chars_of(self.text.as_str());
        let ci = char_index_at(&chars, self.cursor, Ghost(self.char_cursor()));
        let len = chars.len();
        let head = chars_between(chars.as_slice(), 0, ci);
        let mut mid: Vec<char> = Vec::new();
        mid.push(c);
        let tail = chars_between(chars.as_slice(), ci, len);
        let mut left = head;
        left.push(c);
        let text = string_of_parts(left.as_slice(), tail.as_slice());
        let w = char_len_utf8(c);
        let cursor = self.cursor + w;
        proof {
            assert(text@ =~= splice(chars@, ci as int, ci as int, seq![c]));
            lemma_splice(chars@, ci as int, ci as int, seq![c]);
            assert(chars@.subrange(ci as int, ci as int) =~= Seq::<char>::empty());
            assert(utf8_len(seq![c]) == char_width(c)) by {
                crate::strings::lemma_utf8_len_single(c);
            }
            assert(utf8_len(Seq::<char>::empty()) == 0);
        }
        *self = TextInput { text, cursor, selection: None };
        proof {
            use_type_invariant(&*self);
            self.lemma_cursor();
        }
    }

    /// Delete the grapheme cluster before the cursor (backspace), or the
    /// selection if there is one.
    pub fn delete_back(&mut self)
        ensures
            0 <= old(self).char_cursor() <= old(self).chars().len(),
            old(self).has_selection() ==> final(self).chars() == Seq::<char>::empty()
                && final(self).char_cursor() == 0,
            !old(self).has_selection() && old(self).char_cursor() == 0 ==> final(self).chars()
                == old(self).chars() && final(self).char_cursor() == 0,
            !old(self).has_selection() && old(self).char_cursor() > 0 ==> {
                let t = old(self).chars();
                let ci = old(self).char_cursor();
                let start = ci - last_cluster_len(t.take(ci));
                &&& 0 <= start < ci
                &&& final(self).chars() == splice(t, start, ci, Seq::empty())
                &&& final(self).char_cursor() == start
            },
            !final(self).has_selection(),
    {
        proof {
            use_type_invariant(&*self);
            self.lemma_cursor();
        }
        if self.delete_selection() {
            return;
        }
        proof {
            use_type_invariant(&*self);
            self.lemma_cursor();
        }
        if self.cursor == 0 {
            proof {
                assert(byte_offset(self.text@, 0) == 0) by {
                    assert(self.text@.take(0) =~= Seq::<char>::empty());
                }
            }
            return;
        }
        let chars = chars_of(self.text.as_str());
        let ci = char_index_at(&chars, self.cursor, Ghost(self.char_cursor()));
        proof {
            assert(chars@.take(0) =~= Seq::<char>::empty());
        }
        let len = chars.len();
        let before = chars_between(chars.as_slice(), 0, ci);
        let l = last_grapheme_len(before.as_slice());
        let start = ci - l;
        let head = chars_between(chars.as_slice(), 0, start);
        let tail = chars_between(chars.as_slice(), ci, len);
        let text = string_of_parts(head.as_slice(), tail.as_slice());
        let cursor = byte_offset_of(&chars, start);
        proof {
            assert(before@ =~= chars@.take(ci as int));
            assert(text@ =~= splice(chars@, start as int, ci as int, Seq::empty()));
            lemma_splice(chars@, start as int, ci as int, Seq::empty());
        }
        *self = TextInput { text, cursor, selection: None };
        proof {
            use_type_invariant(&*self);
            self.lemma_cursor();
        }
    }

    /// Delete the grapheme cluster after the cursor (delete key), or the
    /// selection if there is one.
    pub fn delete_forward(&mut self)
        ensures
            old(self).has_selection() ==> final(self).chars() == Seq::<char>::empty()
                && final(self).char_cursor() == 0,
            !old(self).has_selection() && old(self).char_cursor() == old(self).chars().len()
                ==> final(self).chars() == old(self).chars() && final(self).char_cursor()
                == old(self).char_cursor(),
            !old(self).has_selection() && old(self).char_cursor() < old(self).chars().len() ==> {
                let t = old(self).chars();
                let ci = old(self).char_cursor();
                &&& final(self).chars() == splice(t, ci, ci + first_cluster_len(t.skip(ci)), Seq::empty())
                &&& final(self).char_cursor() == ci
            },
            !final(self).has_selection(),
    {
        proof {
            use_type_invariant(&*self);
            self.lemma_cursor();
        }
        if self.delete_selection() {
            return;
        }
        proof {
            use_type_invariant(&*self);
            self.lemma_cursor();
        }
        let total = str_byte_len(self.text.as_str());
        if self.cursor >= total {
            proof {
                let ci = self.char_cursor();
                if ci < self.text@.len() {
                    lemma_byte_offset_strict(self.text@, ci, self.text@.len() as int);
                }
            }
            return;
        }
        let chars = chars_of(self.text.as_str());
        let ci = char_index_at(&chars, self.cursor, Ghost(self.char_cursor()));
        let len = chars.len();
        let after = chars_between(chars.as_slice(), ci, len);
        let l = first_grapheme_len(after.as_slice());
        let head = chars_between(chars.as_slice(), 0, ci);
        let tail = chars_between(chars.as_slice(), ci + l, len);
        let text = string_of_parts(head.as_slice(), tail.as_slice());
        let cursor = self.cursor;
        proof {
            assert(after@ =~= chars@.skip(ci as int));
            assert(text@ =~= splice(chars@, ci as int, ci + l, Seq::empty()));
            lemma_splice(chars@, ci as int, ci + l, Seq::empty());
        }
        *self = TextInput { text, cursor, selection: None };
        proof {
            use_type_invariant(&*self);
            self.lemma_cursor();
        }
    }

    /// Move the cursor one grapheme cluster to the left.
    pub fn move_left(&mut self)
        ensures
            final(self).chars() == old(self).chars(),
            !final(self).has_selection(),
            old(self).char_cursor() == 0 ==> final(self).char_cursor() == 0,
            old(self).char_cursor() > 0 ==> final(self).char_cursor() == old(self).char_cursor()
                - last_cluster_len(old(self).chars().take(old(self).char_cursor())),
    {
        proof {
            use_type_invariant(&*self);
            self.lemma_cursor();
            assert(byte_offset(self.text@, 0) == 0) by {
                assert(self.text@.take(0) =~= Seq::<char>::empty());
            }
        }
        if self.cursor == 0 {
            let text = self.text.clone();
            *self = TextInput { text, cursor: 0, selection: None };
            proof {
                use_type_invariant(&*self);
            self.lemma_cursor();
            }
            return;
        }
        let chars = chars_of(self.text.as_str());
        let ci = char_index_at(&chars, self.cursor, Ghost(self.char_cursor()));
        let before = chars_between(chars.as_slice(), 0, ci);
        let l = last_grapheme_len(before.as_slice());
        let cursor = byte_offset_of(&chars, ci - l);
        proof {
            assert(before@ =~= chars@.take(ci as int));
        }
        let text = self.text.clone();
        *self = TextInput { text, cursor, selection: None };
        proof {
            use_type_invariant(&*self);
            self.lemma_cursor();
        }
    }

    /// Move the cursor one grapheme cluster to the right.
    pub fn move_right(&mut self)
        ensures
            final(self).chars() == old(self).chars(),
            !final(self).has_selection(),
            old(self).char_cursor() == old(self).chars().len() ==> final(self).char_cursor()
                == old(self).char_cursor(),
            old(self).char_cursor() < old(self).chars().len() ==> final(self).char_cursor()
                == old(self).char_cursor() + first_cluster_len(
                old(self).chars().skip(old(self).char_cursor()),
            ),
    {
        proof {
            use_type_invariant(&*self);
            self.lemma_cursor();
        }
        let total = str_byte_len(self.text.as_str());
        if self.cursor >= total {
            proof {
                let ci = self.char_cursor();
                if ci < self.text@.len() {
                    lemma_byte_offset_strict(self.text@, ci, self.text@.len() as int);
                }
            }
            let text = self.text.clone();
            let cursor = self.cursor;
            *self = TextInput { text, cursor, selection: None };
            proof {
                use_type_invariant(&*self);
            self.lemma_cursor();
            }
            return;
        }
        let chars = chars_of(self.text.as_str());
        let ci = char_index_at(&chars, self.cursor, Ghost(self.char_cursor()));
        let len = chars.len();
        let after = chars_between(chars.as_slice(), ci, len);
        let l = first_grapheme_len(after.as_slice());
        proof {
            assert(after@ =~= chars@.skip(ci as int));
            assert(chars@.take(len as int) =~= chars@);
        }
        let cursor = byte_offset_of(&chars, ci + l);
        let text = self.text.clone();
        *self = TextInput { text, cursor, selection: None };
        proof {
            use_type_invariant(&*self);
            self.lemma_cursor();
        }
    }

    /// Move the cursor to the start of the text.
    pub fn move_to_start(&mut self)
        ensures
            final(self).chars() == old(self).chars(),
            final(self).char_cursor() == 0,
            !final(self).has_selection(),
    {
        proof {
            use_type_invariant(&*self);
            self.lemma_cursor();
        }
        let text = self.text.clone();
        proof {
            assert(byte_offset(text@, 0) == 0) by {
                assert(text@.take(0) =~= Seq::<char>::empty());
            }
        }
        *self = TextInput { text, cursor: 0, selection: None };
        proof {
            use_type_invariant(&*self);
            self.lemma_cursor();
        }
    }

    /// Move the cursor to the end of the text.
    pub fn move_to_end(&mut self)
        ensures
            final(self).chars() == old(self).chars(),
            final(self).char_cursor() == old(self).chars().len(),
            !final(self).has_selection(),
    {
        proof {
            use_type_invariant(&*self);
            self.lemma_cursor();
        }
        let cursor = str_byte_len(self.text.as_str());
        let text = self.text.clone();
        *self = TextInput { text, cursor, selection: None };
        proof {
            use_type_invariant(&*self);
            self.lemma_cursor();
        }
    }

    /// Select all text (a no-op on empty text).
    pub fn select_all(&mut self)
        ensures
            final(self).chars() == old(self).chars(),
            old(self).chars().len() == 0 ==> final(self).char_cursor() == old(self).char_cursor()
                && final(self).has_selection() == old(self).has_selection(),
            old(self).chars().len() > 0 ==> final(self).char_cursor() == old(self).chars().len()
                && final(self).has_selection(),
    {
        proof {
            use_type_invariant(&*self);
            self.lemma_cursor();
        }
        if self.text.as_str().is_empty() {
            return;
        }
        let len = str_byte_len(self.text.as_str());
        let text = self.text.clone();
        *self = TextInput { text, cursor: len, selection: Some((0, len)) };
        proof {
            use_type_invariant(&*self);
            self.lemma_cursor();
        }
    }

    /// Returns the currently selected text, if any.
    pub fn selected_text(&self) -> (r: Option<&str>)
        ensures
            r is Some == self.has_selection(),
            r matches Some(t) ==> t@ == self.chars(),
    {
        proof {
            use_type_invariant(&*self);
            self.lemma_cursor();
        }
        match self.selection {
            // A selection always spans the whole text.
            Some(_) => Some(self.text.as_str()),
            None => None,
        }
    }

    /// Delete the current selection. Returns true if a selection was deleted.
    pub fn delete_selection(&mut self) -> (r: bool)
        ensures
            r == old(self).has_selection(),
            final(self).chars() == old(self).unselected().0,
            final(self).char_cursor() == old(self).unselected().1,
            !final(self).has_selection(),
            0 <= final(self).char_cursor() <= final(self).chars().len(),
    {
        proof {
            use_type_invariant(&*self);
            self.lemma_cursor();
        }
        match self.selection {
            None => false,
            Some(_) => {
                let text = String::new();
                proof {
                    assert(byte_offset(text@, 0) == 0) by {
                        assert(text@.take(0) =~= Seq::<char>::empty());
                    }
                    assert(utf8_len(text@) == 0);
                }
                *self = TextInput { text, cursor: 0, selection: None };
                proof {
                    use_type_invariant(&*self);
            self.lemma_cursor();
                }
                true
            },
        }
    }
}

impl Default for TextInput {
    fn default() -> (r: Self)
        ensures
            r.chars() == Seq::<char>::empty(),
            r.char_cursor() == 0,
            !r.has_selection(),
    {
        TextInput::new()
    }
}

impl Clone for TextInput {
    fn clone(&self) -> (r: Self)
        ensures
            r.chars() == self.chars(),
            r.char_cursor() == self.char_cursor(),
            r.has_selection() == self.has_selection(),
    {
        proof {
            use_type_invariant(self);
        }
        TextInput { text: self.text.clone(), cursor: self.cursor, selection: self.selection }
    }
}

} // verus!
