//! Character-level string helpers shared by the text widgets.
use vstd::prelude::*;
use unicode_segmentation::UnicodeSegmentation;

verus! {

/// Appends one character to a `String` (`String::push`).
#[verifier::external_body]
pub(crate) fn push_char(s: &mut String, c: char)
    ensures
        final(s)@ == old(s)@.push(c),
{
    s.push(c);
}

/// The decimal digits of `n`, as `Display` writes an unsigned integer: no
/// sign, no leading zeros, `"0"` for zero.
pub open spec fn decimal_text(n: nat) -> Seq<char>
    decreases n,
{
    let d = seq!['0', '1', '2', '3', '4', '5', '6', '7', '8', '9'][(n % 10) as int];
    if n < 10 {
        seq![d]
    } else {
        decimal_text(n / 10).push(d)
    }
}

/// `usize::to_string`: `n` written in decimal, as `Display` writes an
/// unsigned integer.
#[verifier::external_body]
pub(crate) fn decimal_string(n: usize) -> (r: String)
    ensures
        r@ == decimal_text(n as nat),
{
    n.to_string()
}

/// Whether two string slices hold the same characters.
pub(crate) fn str_eq(a: &str, b: &str) -> (r: bool)
    ensures
        r == (a@ == b@),
{
    let x = chars_of(a);
    let y = chars_of(b);
    crate::diff_text::chars_eq(x.as_slice(), y.as_slice())
}

/// Whether `c` has the Unicode `White_Space` property (`char::is_whitespace`):
/// `'\t'` through `'\r'`, the space, U+0085, U+00A0, U+1680, U+2000 through
/// U+200A, the line and paragraph separators U+2028 and U+2029, U+202F,
/// U+205F and U+3000.
pub open spec fn white_space(c: char) -> bool {
    let v = c as int;
    ||| 0x09 <= v <= 0x0d
    ||| v == 0x20
    ||| v == 0x85
    ||| v == 0xa0
    ||| v == 0x1680
    ||| 0x2000 <= v <= 0x200a
    ||| v == 0x2028
    ||| v == 0x2029
    ||| v == 0x202f
    ||| v == 0x205f
    ||| v == 0x3000
}

/// `char::is_whitespace`: whether `c` has the Unicode `White_Space` property.
#[verifier::external_body]
pub(crate) fn is_whitespace(c: char) -> (r: bool)
    ensures
        r == white_space(c),
{
    c.is_whitespace()
}

/// `String::with_capacity`: an empty string (with room reserved).
#[verifier::external_body]
pub(crate) fn string_with_capacity(capacity: usize) -> (s: String)
    requires
        capacity <= isize::MAX,
    ensures
        s@ == Seq::<char>::empty(),
{
    String::with_capacity(capacity)
}

/// The characters of `s`, in order.
pub fn chars_of(s: &str) -> (v: Vec<char>)
    ensures
        v@ == s@,
{
    let mut v: Vec<char> = Vec::new();
    for c in it: s.chars()
        invariant
            v@ == it.seq().take(it.index() as int),
            it.seq() == s@,
    {
        v.push(c);
    }
    v
}

/// A `String` holding exactly the characters of `v`.
pub fn string_of(v: &[char]) -> (s: String)
    ensures
        s@ == v@,
{
    let mut s = String::new();
    let mut i: usize = 0;
    while i < v.len()
        invariant
            i <= v.len(),
            s@ == v@.take(i as int),
        decreases v.len() - i,
    {
        push_char(&mut s, v[i]);
        i += 1;
        assert(s@ =~= v@.take(i as int));
    }
    assert(v@.take(v.len() as int) =~= v@);
    s
}

/// Index of the first `c` in `s` at or after `from` (`s.len()` if none).
pub open spec fn find_char(s: Seq<char>, c: char, from: int) -> int
    decreases s.len() - from,
{
    if from >= s.len() || from < 0 {
        s.len() as int
    } else if s[from] == c {
        from
    } else {
        find_char(s, c, from + 1)
    }
}

/// `line` without one trailing `'\r'`.
pub open spec fn strip_cr(line: Seq<char>) -> Seq<char> {
    if line.len() > 0 && line.last() == '\r' {
        line.drop_last()
    } else {
        line
    }
}

/// The lines of `s` as `str::lines` documents them: split at `'\n'`, a
/// `'\r'` right before the `'\n'` belongs to the line ending, and a final
/// line ending does not start an empty line.
pub open spec fn lines_spec(s: Seq<char>) -> Seq<Seq<char>>
    decreases s.len(),
{
    if s.len() == 0 {
        Seq::empty()
    } else {
        let i = find_char(s, '\n', 0);
        proof {
            lemma_find_char_bounds(s, '\n', 0);
        }
        if i >= s.len() {
            seq![s]
        } else {
            seq![strip_cr(s.take(i))] + lines_spec(s.skip(i + 1))
        }
    }
}

pub proof fn lemma_find_char_bounds(s: Seq<char>, c: char, from: int)
    requires
        0 <= from <= s.len(),
    ensures
        from <= find_char(s, c, from) <= s.len(),
        find_char(s, c, from) < s.len() ==> s[find_char(s, c, from)] == c,
        forall|j: int| from <= j < find_char(s, c, from) ==> s[j] != c,
    decreases s.len() - from,
{
    if from < s.len() && s[from] != c {
        lemma_find_char_bounds(s, c, from + 1);
    }
}

pub proof fn lemma_lines_count(s: Seq<char>)
    ensures
        lines_spec(s).len() <= s.len(),
    decreases s.len(),
{
    if s.len() > 0 {
        lemma_find_char_bounds(s, '\n', 0);
        let i = find_char(s, '\n', 0);
        if i < s.len() {
            lemma_lines_count(s.skip(i + 1));
        }
    }
}

/// The lines of `s` (`str::lines`), borrowed from `s`.
#[verifier::external_body]
pub(crate) fn lines_of<'a>(s: &'a str) -> (r: Vec<&'a str>)
    ensures
        r@.map_values(|l: &str| l@) == lines_spec(s@),
{
    s.lines().collect()
}

// ---------------------------------------------------------------------------
// UTF-8 byte lengths of character sequences.
// ---------------------------------------------------------------------------

/// Bytes `c` takes in UTF-8.
pub open spec fn char_width(c: char) -> nat {
    let v = c as u32;
    if v <= 0x7F {
        1
    } else if v <= 0x7FF {
        2
    } else if v <= 0xFFFF {
        3
    } else {
        4
    }
}

/// Bytes `s` takes in UTF-8.
pub open spec fn utf8_len(s: Seq<char>) -> nat
    decreases s.len(),
{
    if s.len() == 0 {
        0
    } else {
        utf8_len(s.drop_last()) + char_width(s.last())
    }
}

/// The byte offset of character index `i` of `s`.
pub open spec fn byte_offset(s: Seq<char>, i: int) -> nat {
    utf8_len(s.take(i))
}

/// `c.len_utf8()`.
pub fn char_len_utf8(c: char) -> (w: usize)
    ensures
        w == char_width(c),
        1 <= w <= 4,
{
    let v = c as u32;
    if v <= 0x7F {
        1
    } else if v <= 0x7FF {
        2
    } else if v <= 0xFFFF {
        3
    } else {
        4
    }
}

pub proof fn lemma_utf8_len_concat(a: Seq<char>, b: Seq<char>)
    ensures
        utf8_len(a + b) == utf8_len(a) + utf8_len(b),
    decreases b.len(),
{
    if b.len() == 0 {
        assert(a + b =~= a);
    } else {
        assert((a + b).drop_last() =~= a + b.drop_last());
        lemma_utf8_len_concat(a, b.drop_last());
    }
}

pub proof fn lemma_utf8_len_single(c: char)
    ensures
        utf8_len(seq![c]) == char_width(c),
{
    assert(seq![c].drop_last() =~= Seq::<char>::empty());
    assert(utf8_len(Seq::<char>::empty()) == 0);
    assert(seq![c].last() == c);
}

pub proof fn lemma_utf8_len_bounds(s: Seq<char>)
    ensures
        s.len() <= utf8_len(s) <= 4 * s.len(),
    decreases s.len(),
{
    if s.len() > 0 {
        lemma_utf8_len_bounds(s.drop_last());
    }
}

/// Byte offsets grow strictly with the character index.
pub proof fn lemma_byte_offset_strict(s: Seq<char>, i: int, j: int)
    requires
        0 <= i < j <= s.len(),
    ensures
        byte_offset(s, i) + (j - i) <= byte_offset(s, j),
{
    assert(s.take(j) =~= s.take(i) + s.subrange(i, j));
    lemma_utf8_len_concat(s.take(i), s.subrange(i, j));
    lemma_utf8_len_bounds(s.subrange(i, j));
}

pub proof fn lemma_byte_offset_step(s: Seq<char>, i: int)
    requires
        0 <= i < s.len(),
    ensures
        byte_offset(s, i + 1) == byte_offset(s, i) + char_width(s[i]),
{
    assert(s.take(i + 1).drop_last() =~= s.take(i));
}

/// The UTF-8 length of a `str` is what `str::len` reports.
pub proof fn lemma_utf8_len_is_encoding_len(s: Seq<char>)
    ensures
        utf8_len(s) == vstd::utf8::encode_utf8(s).len(),
    decreases s.len(),
{
    if s.len() > 0 {
        lemma_utf8_len_is_encoding_len(s.drop_first());
        assert(s =~= seq![s[0]] + s.drop_first());
        lemma_utf8_len_concat(seq![s[0]], s.drop_first());
        lemma_utf8_len_single(s[0]);
        vstd::utf8::char_is_scalar(s[0]);
    }
}

/// `b` is the byte offset of some character index of `s`.
pub open spec fn on_boundary(s: Seq<char>, b: int) -> bool {
    exists|i: int| 0 <= i <= s.len() && byte_offset(s, i) == b
}

/// The character index whose byte offset in `s` is `b`.
pub open spec fn index_at_byte(s: Seq<char>, b: int) -> int {
    choose|i: int| 0 <= i <= s.len() && byte_offset(s, i) == b
}

/// A byte offset on a boundary names exactly one character index.
pub proof fn lemma_index_at_byte(s: Seq<char>, i: int)
    requires
        0 <= i <= s.len(),
    ensures
        on_boundary(s, byte_offset(s, i) as int),
        index_at_byte(s, byte_offset(s, i) as int) == i,
{
    let b = byte_offset(s, i) as int;
    assert(0 <= i <= s.len() && byte_offset(s, i) == b);
    let j = index_at_byte(s, b);
    if j < i {
        lemma_byte_offset_strict(s, j, i);
    } else if i < j {
        lemma_byte_offset_strict(s, i, j);
    }
}

/// Splitting the UTF-8 encoding of `s` at the byte offset of character `i`
/// splits it at a character boundary, into the encodings of the characters
/// before and after `i`.
pub proof fn lemma_encode_split(s: Seq<char>, i: int)
    requires
        0 <= i <= s.len(),
    ensures
        vstd::utf8::is_char_boundary(vstd::utf8::encode_utf8(s), byte_offset(s, i) as int),
        vstd::utf8::encode_utf8(s).subrange(0, byte_offset(s, i) as int) == vstd::utf8::encode_utf8(
            s.take(i),
        ),
        vstd::utf8::encode_utf8(s).subrange(
            byte_offset(s, i) as int,
            vstd::utf8::encode_utf8(s).len() as int,
        ) == vstd::utf8::encode_utf8(s.skip(i)),
    decreases i,
{
    let bytes = vstd::utf8::encode_utf8(s);
    vstd::utf8::encode_utf8_valid_utf8(s);
    if i == 0 {
        assert(s.take(0) =~= Seq::<char>::empty());
        assert(s.skip(0) =~= s);
        assert(bytes.subrange(0, 0) =~= Seq::<u8>::empty());
        assert(bytes.subrange(0, bytes.len() as int) =~= bytes);
        assert(byte_offset(s, 0) == 0);
    } else {
        let rest = s.drop_first();
        let head = vstd::utf8::encode_scalar(s[0] as u32);
        let tail = vstd::utf8::encode_utf8(rest);
        vstd::utf8::encode_utf8_first_scalar(s);
        lemma_utf8_len_is_encoding_len(seq![s[0]]);
        assert(seq![s[0]].drop_first() =~= Seq::<char>::empty());
        assert(seq![s[0]][0] == s[0]);
        assert(vstd::utf8::encode_utf8(Seq::<char>::empty()) =~= Seq::<u8>::empty());
        assert(vstd::utf8::encode_utf8(seq![s[0]]) =~= head);
        lemma_utf8_len_single(s[0]);
        let w = head.len() as int;
        assert(w == char_width(s[0]));
        assert(bytes =~= head + tail);
        lemma_encode_split(rest, i - 1);
        assert(s.take(i) =~= seq![s[0]] + rest.take(i - 1));
        lemma_utf8_len_concat(seq![s[0]], rest.take(i - 1));
        assert(byte_offset(s, i) == w + byte_offset(rest, i - 1));
        assert(vstd::utf8::pop_first_scalar(bytes) =~= tail);
        assert(s.take(i).drop_first() =~= rest.take(i - 1));
        assert(s.take(i)[0] == s[0]);
        assert(s.skip(i) =~= rest.skip(i - 1));
        let b = byte_offset(s, i) as int;
        assert(bytes.subrange(0, b) =~= head + tail.subrange(0, b - w));
        assert(bytes.subrange(b, bytes.len() as int) =~= tail.subrange(b - w, tail.len() as int));
    }
}

/// Splits `s` at byte offset `b`, a character boundary: the characters
/// before it and the characters from it on.
pub fn split_at_byte(s: &str, b: usize) -> (r: (&str, &str))
    requires
        on_boundary(s@, b as int),
    ensures
        r.0@ == s@.take(index_at_byte(s@, b as int)),
        r.1@ == s@.skip(index_at_byte(s@, b as int)),
{
    let ghost i = index_at_byte(s@, b as int);
    proof {
        lemma_encode_split(s@, i);
    }
    let r = s.split_at(b);
    proof {
        vstd::utf8::encode_utf8_decode_utf8(r.0@);
        vstd::utf8::encode_utf8_decode_utf8(r.1@);
        vstd::utf8::encode_utf8_decode_utf8(s@.take(i));
        vstd::utf8::encode_utf8_decode_utf8(s@.skip(i));
    }
    r
}

/// `s.len()`: the UTF-8 length of `s` in bytes.
pub fn str_byte_len(s: &str) -> (n: usize)
    ensures
        n == utf8_len(s@),
{
    proof {
        lemma_utf8_len_is_encoding_len(s@);
    }
    let bytes = s.as_bytes();
    bytes.len()
}

/// The character index whose byte offset in `s` is `b`.
pub fn char_index_at(s: &Vec<char>, b: usize, Ghost(ci): Ghost<int>) -> (r: usize)
    requires
        0 <= ci <= s@.len(),
        byte_offset(s@, ci) == b,
    ensures
        r == ci,
{
    let len = s.len();
    let mut i: usize = 0;
    let mut acc: usize = 0;
    while acc < b
        invariant
            len == s@.len(),
            0 <= ci <= s@.len(),
            byte_offset(s@, ci) == b,
            i <= ci,
            acc == byte_offset(s@, i as int),
        decreases b - acc,
    {
        proof {
            if i == ci {
                assert(false);
            }
            lemma_byte_offset_step(s@, i as int);
            if i + 1 < ci {
                lemma_byte_offset_strict(s@, i + 1, ci);
            }
            assert(acc + char_width(s@[i as int]) <= b);
        }
        let w = char_len_utf8(s[i]);
        assert(w == char_width(s@[i as int]));
        acc = acc + w;
        i += 1;
        proof {
            if i < ci {
                lemma_byte_offset_strict(s@, i as int, ci);
            }
        }
    }
    proof {
        if i < ci {
            lemma_byte_offset_strict(s@, i as int, ci);
        }
    }
    i
}

/// The byte offset of character index `i` (`len_utf8` summed over `s[..i]`).
pub fn byte_offset_of(s: &Vec<char>, i: usize) -> (b: usize)
    requires
        i <= s@.len(),
        utf8_len(s@) <= usize::MAX,
    ensures
        b == byte_offset(s@, i as int),
{
    let mut j: usize = 0;
    let mut acc: usize = 0;
    while j < i
        invariant
            j <= i <= s@.len(),
            utf8_len(s@) <= usize::MAX,
            acc == byte_offset(s@, j as int),
        decreases i - j,
    {
        proof {
            lemma_byte_offset_step(s@, j as int);
            if j + 1 < s@.len() {
                lemma_byte_offset_strict(s@, j + 1, s@.len() as int);
            }
            assert(s@.take(s@.len() as int) =~= s@);
        }
        acc = acc + char_len_utf8(s[j]);
        j += 1;
    }
    acc
}

// ---------------------------------------------------------------------------
// Grapheme clusters (unicode-segmentation).
// ---------------------------------------------------------------------------

/// The extended grapheme clusters of `s`, as `UnicodeSegmentation::graphemes`
/// splits them.
pub uninterp spec fn grapheme_split(s: Seq<char>) -> Seq<Seq<char>>;

pub open spec fn string_views(v: Seq<String>) -> Seq<Seq<char>> {
    v.map_values(|g: String| g@)
}

/// The grapheme clusters of `s` (`UnicodeSegmentation::graphemes(s, true)`),
/// each as an owned string. The clusters partition `s`: none is empty and
/// together, in order, they spell `s`.
#[verifier::external_body]
pub(crate) fn graphemes_of(s: &str) -> (r: Vec<String>)
    ensures
        string_views(r@) == grapheme_split(s@),
        string_views(r@).flatten() == s@,
        forall|i: int| 0 <= i < r@.len() ==> (#[trigger] r@[i])@.len() > 0,
{
    s.graphemes(true).map(String::from).collect()
}

/// The byte offset at which each grapheme cluster of `s` starts
/// (`UnicodeSegmentation::grapheme_indices(s, true)`, offsets only). The
/// clusters are the ones `graphemes` yields: none is empty and together, in
/// order, they spell `s`.
#[verifier::external_body]
pub(crate) fn grapheme_starts(s: &str) -> (r: Vec<usize>)
    ensures
        r@.len() == grapheme_split(s@).len(),
        grapheme_split(s@).take(r@.len() as int).flatten() == s@,
        forall|i: int|
            0 <= i < r@.len() ==> #[trigger] r@[i] == byte_offset(s@, grapheme_prefix_len(s@, i))
                && grapheme_split(s@)[i].len() > 0,
{
    s.grapheme_indices(true).map(|(i, _)| i).collect()
}

/// Number of grapheme clusters in `s`.
pub open spec fn grapheme_count(s: Seq<char>) -> nat {
    grapheme_split(s).len()
}

/// Characters in the first `k` grapheme clusters of `s`.
pub open spec fn grapheme_prefix_len(s: Seq<char>, k: int) -> int {
    grapheme_split(s).take(k).flatten().len() as int
}

/// The grapheme clusters of the characters in `v`, as character counts.
pub fn grapheme_lengths(v: &[char]) -> (r: Vec<usize>)
    ensures
        r@.len() == grapheme_split(v@).len(),
        forall|i: int| 0 <= i < r@.len() ==> r@[i] == grapheme_split(v@)[i].len(),
        forall|i: int| 0 <= i < r@.len() ==> r@[i] >= 1,
        grapheme_split(v@).flatten() == v@,
{
    let s = string_of(v);
    let gs = graphemes_of(s.as_str());
    let mut r: Vec<usize> = Vec::new();
    let mut i: usize = 0;
    while i < gs.len()
        invariant
            i <= gs@.len(),
            s@ == v@,
            string_views(gs@) == grapheme_split(v@),
            forall|j: int| 0 <= j < gs@.len() ==> (#[trigger] gs@[j])@.len() > 0,
            r@.len() == i,
            forall|j: int| 0 <= j < i ==> r@[j] == gs@[j]@.len(),
        decreases gs@.len() - i,
    {
        let cs = chars_of(gs[i].as_str());
        r.push(cs.len());
        i += 1;
    }
    r
}

/// The first `k + 1` clusters spell the first `k` plus cluster `k`.
pub proof fn lemma_flatten_take_step(gs: Seq<Seq<char>>, k: int)
    requires
        0 <= k < gs.len(),
    ensures
        gs.take(k + 1).flatten() == gs.take(k).flatten() + gs[k],
{
    assert(gs.take(k + 1) =~= gs.take(k).push(gs[k]));
    gs.take(k).lemma_flatten_push(gs[k]);
}

/// A piece of a partition is no longer than the whole.
pub proof fn lemma_piece_le_whole(gs: Seq<Seq<char>>, i: int)
    requires
        0 <= i < gs.len(),
    ensures
        gs[i].len() <= gs.flatten().len(),
{
    gs.lemma_flatten_length_ge_single_element_length(i);
    gs.lemma_flatten_and_flatten_alt_are_equivalent();
}

/// Characters in the last grapheme cluster of the non-empty `v`.
pub fn last_grapheme_len(v: &[char]) -> (r: usize)
    requires
        v@.len() > 0,
    ensures
        grapheme_split(v@).len() > 0,
        r == grapheme_split(v@).last().len(),
        1 <= r <= v@.len(),
{
    let lens = grapheme_lengths(v);
    proof {
        let gs = grapheme_split(v@);
        if gs.len() == 0 {
            assert(gs.flatten() =~= Seq::<char>::empty());
        }
        lemma_piece_le_whole(gs, gs.len() - 1);
    }
    lens[lens.len() - 1]
}

/// Characters in the first grapheme cluster of the non-empty `v`.
pub fn first_grapheme_len(v: &[char]) -> (r: usize)
    requires
        v@.len() > 0,
    ensures
        grapheme_split(v@).len() > 0,
        r == grapheme_split(v@)[0].len(),
        1 <= r <= v@.len(),
{
    let lens = grapheme_lengths(v);
    proof {
        let gs = grapheme_split(v@);
        if gs.len() == 0 {
            assert(gs.flatten() =~= Seq::<char>::empty());
        }
        lemma_piece_le_whole(gs, 0);
    }
    lens[0]
}

/// `v[lo..hi]` as a new vector.
pub fn chars_between(v: &[char], lo: usize, hi: usize) -> (r: Vec<char>)
    requires
        lo <= hi <= v@.len(),
    ensures
        r@ == v@.subrange(lo as int, hi as int),
{
    vstd::slice::slice_to_vec(vstd::slice::slice_subrange(v, lo, hi))
}

/// `a` followed by `b`, as a `String`.
pub fn string_of_parts(a: &[char], b: &[char]) -> (s: String)
    ensures
        s@ == a@ + b@,
{
    let mut s = string_of(a);
    let mut i: usize = 0;
    while i < b.len()
        invariant
            i <= b@.len(),
            s@ == a@ + b@.take(i as int),
        decreases b@.len() - i,
    {
        push_char(&mut s, b[i]);
        i += 1;
        assert(s@ =~= a@ + b@.take(i as int));
    }
    assert(b@.take(b@.len() as int) =~= b@);
    s
}

/// Characters in the last grapheme cluster of `s`.
pub open spec fn last_cluster_len(s: Seq<char>) -> int {
    grapheme_split(s).last().len() as int
}

/// Characters in the first grapheme cluster of `s`.
pub open spec fn first_cluster_len(s: Seq<char>) -> int {
    grapheme_split(s)[0].len() as int
}

/// `s` with `s[a..b]` replaced by `ins`.
pub open spec fn splice(s: Seq<char>, a: int, b: int, ins: Seq<char>) -> Seq<char> {
    s.take(a) + ins + s.skip(b)
}

/// Facts about a splice: its UTF-8 length adds up, and character offsets
/// before the splice point keep their byte offsets.
pub proof fn lemma_splice(s: Seq<char>, a: int, b: int, ins: Seq<char>)
    requires
        0 <= a <= b <= s.len(),
    ensures
        utf8_len(splice(s, a, b, ins)) + utf8_len(s.subrange(a, b)) == utf8_len(s) + utf8_len(ins),
        splice(s, a, b, ins).take(a) == s.take(a),
        byte_offset(splice(s, a, b, ins), a) == byte_offset(s, a),
        byte_offset(splice(s, a, b, ins), a + ins.len()) == byte_offset(s, a) + utf8_len(ins),
        splice(s, a, b, ins).len() == s.len() - (b - a) + ins.len(),
{
    let t = splice(s, a, b, ins);
    assert(s =~= s.take(a) + s.subrange(a, b) + s.skip(b));
    lemma_utf8_len_concat(s.take(a) + s.subrange(a, b), s.skip(b));
    lemma_utf8_len_concat(s.take(a), s.subrange(a, b));
    lemma_utf8_len_concat(s.take(a) + ins, s.skip(b));
    lemma_utf8_len_concat(s.take(a), ins);
    assert(t.take(a) =~= s.take(a));
    assert(t.take(a + ins.len()) =~= s.take(a) + ins);
}

} // verus!
verus! {

/// Two texts are equal exactly when their UTF-8 encodings are.
pub proof fn lemma_encoding_injective(a: Seq<char>, b: Seq<char>)
    ensures
        vstd::utf8::encode_utf8(a) == vstd::utf8::encode_utf8(b) <==> a == b,
{
    vstd::utf8::encode_utf8_decode_utf8(a);
    vstd::utf8::encode_utf8_decode_utf8(b);
}

/// Each line as its UTF-8 bytes: a key that compares as the line does.
pub(crate) fn line_keys(lines: &Vec<&str>) -> (r: Vec<Vec<u8>>)
    ensures
        r@.len() == lines@.len(),
        forall|i: int| 0 <= i < lines@.len() ==> (#[trigger] r@[i])@ == vstd::utf8::encode_utf8(lines@[i]@),
{
    let mut r: Vec<Vec<u8>> = Vec::new();
    let mut i: usize = 0;
    while i < lines.len()
        invariant
            i <= lines@.len(),
            r@.len() == i,
            forall|j: int| 0 <= j < i ==> (#[trigger] r@[j])@ == vstd::utf8::encode_utf8(lines@[j]@),
        decreases lines@.len() - i,
    {
        r.push(lines[i].as_bytes_vec());
        i += 1;
    }
    r
}

} // verus!
