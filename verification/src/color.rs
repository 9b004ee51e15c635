//! `#RRGGBB` colour text: reading the three channel bytes out of it, and
//! writing them back.
use vstd::prelude::*;
use crate::strings::push_char;

verus! {

/// The value of an ASCII hex digit byte.
pub open spec fn hex_digit(b: u8) -> Option<int> {
    if 0x30 <= b <= 0x39 {
        Some(b - 0x30)
    } else if 0x41 <= b <= 0x46 {
        Some(b - 0x41 + 10)
    } else if 0x61 <= b <= 0x66 {
        Some(b - 0x61 + 10)
    } else {
        None
    }
}

/// Two bytes read as `u8::from_str_radix(.., 16)` reads them: two hex
/// digits, or a `+` sign and one.
pub open spec fn pair_value(a: u8, b: u8) -> Option<int> {
    if a == 0x2b {
        hex_digit(b)
    } else {
        match (hex_digit(a), hex_digit(b)) {
            (Some(x), Some(y)) => Some(16 * x + y),
            _ => None,
        }
    }
}

/// How many `#` bytes `bytes` starts with, from index `i` on.
pub open spec fn hashes_from(bytes: Seq<u8>, i: int) -> int
    decreases bytes.len() - i,
{
    if 0 <= i < bytes.len() && bytes[i] == 0x23 {
        hashes_from(bytes, i + 1)
    } else {
        i
    }
}

/// The text after the leading `#`s.
pub open spec fn after_hashes(bytes: Seq<u8>) -> Seq<u8> {
    bytes.skip(hashes_from(bytes, 0))
}

/// The channels of the colour text `bytes`: exactly six bytes once the
/// leading `#`s are gone, read as three pairs.
pub open spec fn rgb_of(bytes: Seq<u8>) -> Option<(u8, u8, u8)> {
    let t = after_hashes(bytes);
    if t.len() != 6 {
        None
    } else {
        match (pair_value(t[0], t[1]), pair_value(t[2], t[3]), pair_value(t[4], t[5])) {
            (Some(r), Some(g), Some(b)) => Some((r as u8, g as u8, b as u8)),
            _ => None,
        }
    }
}

proof fn lemma_hashes_bounds(bytes: Seq<u8>, i: int)
    requires
        0 <= i <= bytes.len(),
    ensures
        i <= hashes_from(bytes, i) <= bytes.len(),
    decreases bytes.len() - i,
{
    if i < bytes.len() && bytes[i] == 0x23 {
        lemma_hashes_bounds(bytes, i + 1);
    }
}

fn digit(b: u8) -> (r: Option<u8>)
    ensures
        match r {
            Some(v) => hex_digit(b) == Some(v as int),
            None => hex_digit(b) is None,
        },
{
    if 0x30 <= b && b <= 0x39 {
        Some(b - 0x30)
    } else if 0x41 <= b && b <= 0x46 {
        Some(b - 0x41 + 10)
    } else if 0x61 <= b && b <= 0x66 {
        Some(b - 0x61 + 10)
    } else {
        None
    }
}

fn pair(a: u8, b: u8) -> (r: Option<u8>)
    ensures
        match r {
            Some(v) => pair_value(a, b) == Some(v as int),
            None => pair_value(a, b) is None,
        },
{
    if a == 0x2b {
        return digit(b);
    }
    match (digit(a), digit(b)) {
        (Some(x), Some(y)) => Some(16 * x + y),
        _ => None,
    }
}

/// The red, green and blue bytes of a colour written `#RRGGBB` (the `#`s
/// optional), each pair read as `u8::from_str_radix(pair, 16)` reads it;
/// `None` when the text is not six bytes long once its leading `#`s are gone,
/// or a pair does not read (as none with a byte of a non-ASCII character
/// does).
pub fn hex_rgb(hex: &str) -> (r: Option<(u8, u8, u8)>)
    ensures
        r == rgb_of(vstd::utf8::encode_utf8(hex@)),
{
    let bytes = hex.as_bytes();
    let ghost bs = vstd::utf8::encode_utf8(hex@);
    let mut k: usize = 0;
    while k < bytes.len() && bytes[k] == 0x23
        invariant
            bytes@ == bs,
            k <= bs.len(),
            hashes_from(bs, 0) == hashes_from(bs, k as int),
        decreases bs.len() - k,
    {
        k += 1;
    }
    proof {
        lemma_hashes_bounds(bs, k as int);
    }
    if bytes.len() - k != 6 {
        return None;
    }
    let ghost t = after_hashes(bs);
    assert(t[0] == bs[k as int] && t[1] == bs[k + 1] && t[2] == bs[k + 2]);
    assert(t[3] == bs[k + 3] && t[4] == bs[k + 4] && t[5] == bs[k + 5]);
    let r = pair(bytes[k], bytes[k + 1]);
    let g = pair(bytes[k + 2], bytes[k + 3]);
    let b = pair(bytes[k + 4], bytes[k + 5]);
    match (r, g, b) {
        (Some(r), Some(g), Some(b)) => Some((r, g, b)),
        _ => None,
    }
}

/// The upper-case hex digit for `v`.
pub open spec fn hex_char(v: int) -> char {
    if v < 10 {
        (0x30 + v) as char
    } else {
        (0x41 + v - 10) as char
    }
}

/// The text `#RRGGBB` for the channel bytes, in upper-case hex.
pub open spec fn hex_text(r: u8, g: u8, b: u8) -> Seq<char> {
    seq![
        '#',
        hex_char((r / 16) as int),
        hex_char((r % 16) as int),
        hex_char((g / 16) as int),
        hex_char((g % 16) as int),
        hex_char((b / 16) as int),
        hex_char((b % 16) as int),
    ]
}

fn digit_char(v: u8) -> (c: char)
    requires
        v < 16,
    ensures
        c == hex_char(v as int),
{
    if v < 10 {
        (0x30 + v) as char
    } else {
        (0x41 + v - 10) as char
    }
}

/// Writes the channel bytes as `#RRGGBB`, two upper-case hex digits each.
pub fn rgb_hex(r: u8, g: u8, b: u8) -> (s: String)
    ensures
        s@ == hex_text(r, g, b),
{
    let mut s = String::new();
    push_char(&mut s, '#');
    push_char(&mut s, digit_char(r / 16));
    push_char(&mut s, digit_char(r % 16));
    push_char(&mut s, digit_char(g / 16));
    push_char(&mut s, digit_char(g % 16));
    push_char(&mut s, digit_char(b / 16));
    push_char(&mut s, digit_char(b % 16));
    assert(s@ =~= hex_text(r, g, b));
    s
}

proof fn lemma_hex_char(v: int)
    requires
        0 <= v < 16,
    ensures
        hex_char(v) as u32 == (if v < 10 { 0x30 + v } else { 0x41 + v - 10 }),
        hex_digit(hex_char(v) as u8) == Some(v),
        (hex_char(v) as u32) < 0x80,
        hex_char(v) != '#',
        hex_char(v) != '+',
{
    let c = hex_char(v);
    let u: u32 = if v < 10 { (0x30 + v) as u32 } else { (0x41 + v - 10) as u32 };
    assert(c as u32 == u) by {
        vstd::utf8::char_u32_cast(c, u);
    }
    assert(c as u8 == u as u8);
}

/// Writing the channel bytes as `#RRGGBB` and reading them back gives the
/// same bytes.
pub proof fn law_hex_round_trip(r: u8, g: u8, b: u8)
    ensures
        rgb_of(vstd::utf8::encode_utf8(hex_text(r, g, b))) == Some((r, g, b)),
{
    let t = hex_text(r, g, b);
    lemma_hex_char((r / 16) as int);
    lemma_hex_char((r % 16) as int);
    lemma_hex_char((g / 16) as int);
    lemma_hex_char((g % 16) as int);
    lemma_hex_char((b / 16) as int);
    lemma_hex_char((b % 16) as int);
    assert(vstd::utf8::is_ascii_chars(t));
    vstd::utf8::is_ascii_chars_encode_utf8(t);
    let bytes = vstd::utf8::encode_utf8(t);
    assert(bytes.len() == 7);
    assert(bytes[0] == 0x23);
    assert(hashes_from(bytes, 1) == 1);
    assert(hashes_from(bytes, 0) == 1);
    let rest = after_hashes(bytes);
    assert(rest[0] == hex_char((r / 16) as int) as u8);
    assert(rest[1] == hex_char((r % 16) as int) as u8);
    assert(rest[2] == hex_char((g / 16) as int) as u8);
    assert(rest[3] == hex_char((g % 16) as int) as u8);
    assert(rest[4] == hex_char((b / 16) as int) as u8);
    assert(rest[5] == hex_char((b % 16) as int) as u8);
}

} // verus!
