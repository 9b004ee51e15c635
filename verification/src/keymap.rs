//! Keybindings: key combinations canonicalised through `awase`, so that two
//! spellings of one chord are one value, and a map from combinations to
//! actions.
//!
//! `awase` resolves the chord vocabulary (`esc` and `escape` are one key,
//! modifiers are a set where order and repetition cannot be expressed). A
//! name `awase` does not know is kept as written, trimmed and lower-cased,
//! with its modifiers trimmed, lower-cased, sorted and de-duplicated, so case
//! and repeated modifiers still do not split a chord.
use vstd::prelude::*;
use crate::diff_text::{chars_eq, trim_end};
use crate::sorting::{lemma_lex_irreflexive, lemma_lex_total, lemma_lex_transitive, lex_less, lex_lt};
use crate::strings::{chars_of, is_whitespace, string_of, string_views, white_space};

verus! {

// ---------------------------------------------------------------------------
// Text: ASCII lower case and trimming.
// ---------------------------------------------------------------------------

/// `c` in ASCII lower case (`char::to_ascii_lowercase`).
pub open spec fn ascii_lower(c: char) -> char {
    if 'A' <= c <= 'Z' {
        ((c as int) + 32) as char
    } else {
        c
    }
}

/// `s` in ASCII lower case (`str::to_ascii_lowercase`).
pub open spec fn lower(s: Seq<char>) -> Seq<char> {
    s.map_values(|c: char| ascii_lower(c))
}

/// `s` without its leading whitespace.
pub open spec fn trim_start(s: Seq<char>) -> Seq<char>
    decreases s.len(),
{
    if s.len() > 0 && white_space(s[0]) {
        trim_start(s.skip(1))
    } else {
        s
    }
}

/// `s` without leading and trailing whitespace (`str::trim`).
pub open spec fn trim(s: Seq<char>) -> Seq<char> {
    trim_end(trim_start(s))
}

fn lower_char(c: char) -> (r: char)
    ensures
        r == ascii_lower(c),
{
    if 'A' <= c && c <= 'Z' {
        let v = c as u32;
        let w = (v + 32) as u8;
        w as char
    } else {
        c
    }
}

fn lower_chars(v: &[char]) -> (r: Vec<char>)
    ensures
        r@ == lower(v@),
{
    let mut r: Vec<char> = Vec::new();
    let mut i: usize = 0;
    while i < v.len()
        invariant
            i <= v@.len(),
            r@ == lower(v@.take(i as int)),
        decreases v@.len() - i,
    {
        r.push(lower_char(v[i]));
        i += 1;
        assert(r@ =~= lower(v@.take(i as int)));
    }
    assert(v@.take(v@.len() as int) =~= v@);
    r
}

fn trim_chars(v: &[char]) -> (r: Vec<char>)
    ensures
        r@ == trim(v@),
{
    let mut a: usize = 0;
    assert(v@.skip(0) =~= v@);
    while a < v.len() && is_whitespace(v[a])
        invariant
            a <= v@.len(),
            trim_start(v@) == trim_start(v@.skip(a as int)),
        decreases v@.len() - a,
    {
        assert(v@.skip(a as int).skip(1) =~= v@.skip(a + 1));
        a += 1;
    }
    let mut b: usize = v.len();
    assert(v@.skip(a as int) =~= v@.subrange(a as int, b as int));
    while b > a && is_whitespace(v[b - 1])
        invariant
            a <= b <= v@.len(),
            trim_end(trim_start(v@)) == trim_end(v@.subrange(a as int, b as int)),
        decreases b - a,
    {
        assert(v@.subrange(a as int, b as int).drop_last() =~= v@.subrange(a as int, b - 1));
        b -= 1;
    }
    let r = vstd::slice::slice_to_vec(vstd::slice::slice_subrange(v, a, b));
    r
}

// ---------------------------------------------------------------------------
// awase.
// ---------------------------------------------------------------------------

/// What `awase::Hotkey::parse_atlas_chord` makes of a chord, when it parses:
/// the key's display name and the modifier set's bits.
pub uninterp spec fn atlas_chord(chord: Seq<char>) -> Option<(Seq<char>, u8)>;

/// `awase::Hotkey::parse_atlas_chord`: parses a chord such as `ctrl+s` or
/// `C-s`. On success gives the key's `Display` name and
/// `Modifiers::bits()`; `None` when awase refuses the chord. The contract
/// claims only that the answer is a function of the chord's text.
#[verifier::external_body]
fn parse_chord(chord: &str) -> (r: Option<(String, u8)>)
    ensures
        match r {
            Some((k, m)) => atlas_chord(chord@) == Some((k@, m)),
            None => atlas_chord(chord@) is None,
        },
{
    match awase::Hotkey::parse_atlas_chord(chord) {
        Ok(h) => Some((h.key.to_string(), h.modifiers.bits())),
        Err(_) => None,
    }
}

/// awase's modifier bits (`Modifiers::CMD` … `Modifiers::CAPS_LOCK`).
pub const MOD_CMD: u8 = 1;
pub const MOD_CTRL: u8 = 2;
pub const MOD_ALT: u8 = 4;
pub const MOD_SHIFT: u8 = 8;
pub const MOD_FN: u8 = 16;
pub const MOD_CAPS_LOCK: u8 = 32;

/// `bits` holds the modifier `flag` (`Modifiers::contains`).
pub open spec fn has_flag(bits: u8, flag: u8) -> bool {
    bits & flag == flag
}

pub open spec fn name_if(bits: u8, flag: u8, name: Seq<char>) -> Seq<Seq<char>> {
    if has_flag(bits, flag) {
        seq![name]
    } else {
        Seq::empty()
    }
}

/// The modifier names stored for a set of awase modifier bits, in a fixed
/// order: `ctrl`, `alt`, `shift`, `super` (awase's `cmd`), `fn`,
/// `caps_lock`.
pub open spec fn flag_names(bits: u8) -> Seq<Seq<char>> {
    name_if(bits, MOD_CTRL, "ctrl"@) + name_if(bits, MOD_ALT, "alt"@) + name_if(
        bits,
        MOD_SHIFT,
        "shift"@,
    ) + name_if(bits, MOD_CMD, "super"@) + name_if(bits, MOD_FN, "fn"@) + name_if(
        bits,
        MOD_CAPS_LOCK,
        "caps_lock"@,
    )
}

fn push_name_if(v: &mut Vec<String>, bits: u8, flag: u8, name: &str)
    ensures
        string_views(final(v)@) == string_views(old(v)@) + name_if(bits, flag, name@),
{
    if bits & flag == flag {
        let ghost before = v@;
        v.push(name.to_owned());
        assert(string_views(v@) =~= string_views(before) + seq![name@]);
    } else {
        assert(string_views(v@) =~= string_views(v@) + Seq::<Seq<char>>::empty());
    }
}

/// The names of the modifiers in `bits`, in the fixed order.
pub fn modifier_names(bits: u8) -> (r: Vec<String>)
    ensures
        string_views(r@) == flag_names(bits),
{
    let mut v: Vec<String> = Vec::new();
    assert(string_views(v@) =~= Seq::<Seq<char>>::empty());
    push_name_if(&mut v, bits, MOD_CTRL, "ctrl");
    push_name_if(&mut v, bits, MOD_ALT, "alt");
    push_name_if(&mut v, bits, MOD_SHIFT, "shift");
    push_name_if(&mut v, bits, MOD_CMD, "super");
    push_name_if(&mut v, bits, MOD_FN, "fn");
    push_name_if(&mut v, bits, MOD_CAPS_LOCK, "caps_lock");
    assert(Seq::<Seq<char>>::empty() + name_if(bits, MOD_CTRL, "ctrl"@) =~= name_if(
        bits,
        MOD_CTRL,
        "ctrl"@,
    ));
    v
}

// ---------------------------------------------------------------------------
// Canonical key combinations.
// ---------------------------------------------------------------------------

/// The key name sent to awase: an all-whitespace (non-empty) key is the
/// spacebar, `backtab` in any case is `shift+tab`, anything else is trimmed.
pub open spec fn raw_key(key: Seq<char>) -> Seq<char> {
    let t = trim(key);
    if key.len() > 0 && t.len() == 0 {
        "space"@
    } else if lower(t) == lower("backtab"@) {
        "shift+tab"@
    } else {
        t
    }
}

/// The chord text: each modifier, trimmed, followed by `+`, then the key.
pub open spec fn chord_text(mods: Seq<Seq<char>>, raw: Seq<char>) -> Seq<char>
    decreases mods.len(),
{
    if mods.len() == 0 {
        raw
    } else {
        trim(mods[0]) + seq!['+'] + chord_text(mods.skip(1), raw)
    }
}

/// Strictly increasing in `str` order: sorted, no repeats.
pub open spec fn strictly_sorted(s: Seq<Seq<char>>) -> bool {
    forall|i: int, j: int| 0 <= i < j < s.len() ==> lex_lt(s[i], s[j])
}

/// `a` and `b` hold the same values.
pub open spec fn same_values(a: Seq<Seq<char>>, b: Seq<Seq<char>>) -> bool {
    forall|x: Seq<char>| a.contains(x) <==> b.contains(x)
}

/// The modifiers kept when awase does not know the chord: each trimmed and
/// lower-cased.
pub open spec fn verbatim_mods(mods: Seq<Seq<char>>) -> Seq<Seq<char>> {
    mods.map_values(|m: Seq<char>| lower(trim(m)))
}

/// A key combination (key name and modifier names), canonicalised so that
/// two spellings of one chord are one value.
#[derive(Debug, Clone, Hash, PartialEq, Eq)]
pub struct KeyCombo {
    pub key: String,
    pub modifiers: Vec<String>,
}

impl View for KeyCombo {
    type V = (Seq<char>, Seq<Seq<char>>);

    open spec fn view(&self) -> (Seq<char>, Seq<Seq<char>>) {
        (self.key@, string_views(self.modifiers@))
    }
}

/// What canonicalising `key` with `mods` gives: awase's key name (lower
/// case) and modifier names when awase parses the chord; otherwise the raw
/// key in lower case with the trimmed, lower-cased modifiers sorted and
/// de-duplicated.
pub open spec fn canonical_ok(key: Seq<char>, mods: Seq<Seq<char>>, r: (Seq<char>, Seq<Seq<char>>)) -> bool {
    let raw = raw_key(key);
    match atlas_chord(chord_text(mods, raw)) {
        Some((k, bits)) => r.0 == lower(k) && r.1 == flag_names(bits),
        None => r.0 == lower(raw) && strictly_sorted(r.1) && same_values(r.1, verbatim_mods(mods)),
    }
}

/// Adds `s` to the sorted, repeat-free `v`, unless it is there already.
fn insert_sorted(v: &mut Vec<String>, s: String)
    requires
        strictly_sorted(string_views(old(v)@)),
    ensures
        strictly_sorted(string_views(final(v)@)),
        forall|x: Seq<char>|
            string_views(final(v)@).contains(x) <==> (string_views(old(v)@).contains(x) || x == s@),
{
    let ghost vs = string_views(v@);
    let sc = chars_of(s.as_str());
    let mut pos: usize = 0;
    while pos < v.len() && lex_less(chars_of(v[pos].as_str()).as_slice(), sc.as_slice())
        invariant
            vs == string_views(v@),
            sc@ == s@,
            pos <= v@.len(),
            forall|i: int| 0 <= i < pos ==> lex_lt(#[trigger] vs[i], s@),
        decreases v@.len() - pos,
    {
        assert(vs[pos as int] == v@[pos as int]@);
        pos += 1;
    }
    if pos < v.len() {
        assert(vs[pos as int] == v@[pos as int]@);
        if chars_eq(chars_of(v[pos].as_str()).as_slice(), sc.as_slice()) {
            assert(vs.contains(s@));
            return ;
        }
        proof {
            lemma_lex_total(vs[pos as int], s@);
        }
    }
    v.insert(pos, s);
    let ghost ws = string_views(v@);
    assert(ws =~= vs.insert(pos as int, s@));
    proof {
        assert forall|i: int, j: int| 0 <= i < j < ws.len() implies lex_lt(ws[i], ws[j]) by {
            if j < pos {
                assert(ws[i] == vs[i] && ws[j] == vs[j]);
            } else if j == pos {
                assert(ws[i] == vs[i]);
            } else if i == pos {
                assert(ws[j] == vs[j - 1]);
                if j - 1 > pos {
                    lemma_lex_transitive(s@, vs[pos as int], vs[j - 1]);
                }
            } else if i < pos {
                assert(ws[i] == vs[i] && ws[j] == vs[j - 1]);
            } else {
                assert(ws[i] == vs[i - 1] && ws[j] == vs[j - 1]);
            }
        }
        assert forall|x: Seq<char>| ws.contains(x) <==> (vs.contains(x) || x == s@) by {
            if ws.contains(x) {
                let k = choose|k: int| 0 <= k < ws.len() && ws[k] == x;
                if k < pos {
                    assert(vs[k] == x);
                } else if k > pos {
                    assert(vs[k - 1] == x);
                }
            }
            if vs.contains(x) {
                let k = choose|k: int| 0 <= k < vs.len() && vs[k] == x;
                if k < pos {
                    assert(ws[k] == x);
                } else {
                    assert(ws[k + 1] == x);
                }
            }
            if x == s@ {
                assert(ws[pos as int] == x);
            }
        }
    }
}

impl KeyCombo {
    pub fn new(key: &str, modifiers: Vec<String>) -> (r: Self)
        ensures
            canonical_ok(key@, string_views(modifiers@), r@),
    {
        KeyCombo::canonical(key, modifiers.as_slice())
    }

    /// A combination with no modifiers.
    pub fn key(key: &str) -> (r: Self)
        ensures
            canonical_ok(key@, Seq::empty(), r@),
    {
        let none: Vec<String> = Vec::new();
        assert(string_views(none@) =~= Seq::<Seq<char>>::empty());
        KeyCombo::canonical(key, none.as_slice())
    }

    /// Resolve `key` with `modifiers` to one canonical spelling.
    fn canonical(key: &str, modifiers: &[String]) -> (r: Self)
        ensures
            canonical_ok(key@, string_views(modifiers@), r@),
    {
        let ghost mods = string_views(modifiers@);
        let kc = chars_of(key);
        let t = trim_chars(kc.as_slice());
        let backtab = lower_chars(chars_of("backtab").as_slice());
        let raw: Vec<char> = if kc.len() > 0 && t.len() == 0 {
            chars_of("space")
        } else if chars_eq(lower_chars(t.as_slice()).as_slice(), backtab.as_slice()) {
            chars_of("shift+tab")
        } else {
            t
        };
        assert(raw@ == raw_key(key@));
        let mut chord: Vec<char> = Vec::new();
        let mut i: usize = 0;
        assert(mods.skip(0) =~= mods);
        while i < modifiers.len()
            invariant
                mods == string_views(modifiers@),
                i <= modifiers@.len(),
                chord@ + chord_text(mods.skip(i as int), raw@) == chord_text(mods, raw@),
            decreases modifiers@.len() - i,
        {
            let ghost before = chord@;
            assert(mods.skip(i as int).skip(1) =~= mods.skip(i + 1));
            assert(mods.skip(i as int)[0] == modifiers@[i as int]@);
            let m = trim_chars(chars_of(modifiers[i].as_str()).as_slice());
            let mut k: usize = 0;
            while k < m.len()
                invariant
                    k <= m@.len(),
                    chord@ == before + m@.take(k as int),
                decreases m@.len() - k,
            {
                chord.push(m[k]);
                k += 1;
                assert(chord@ =~= before + m@.take(k as int));
            }
            assert(m@.take(m@.len() as int) =~= m@);
            chord.push('+');
            assert(chord@ + chord_text(mods.skip(i + 1), raw@) =~= before + (m@ + seq!['+']
                + chord_text(mods.skip(i + 1), raw@)));
            i += 1;
        }
        let ghost before = chord@;
        let mut k: usize = 0;
        while k < raw.len()
            invariant
                k <= raw@.len(),
                chord@ == before + raw@.take(k as int),
            decreases raw@.len() - k,
        {
            chord.push(raw[k]);
            k += 1;
            assert(chord@ =~= before + raw@.take(k as int));
        }
        assert(raw@.take(raw@.len() as int) =~= raw@);
        assert(mods.skip(mods.len() as int) =~= Seq::<Seq<char>>::empty());
        let chord_s = string_of(chord.as_slice());
        let parsed = parse_chord(chord_s.as_str());
        KeyCombo::from_chord(parsed, raw.as_slice(), modifiers)
    }

    /// The combination for a chord, given what awase made of its text
    /// (`parsed`: the key's name and the modifier bits, or nothing): awase's
    /// key in lower case and the names of its modifier bits; else the raw key
    /// `raw` in lower case with the trimmed, lower-cased modifiers sorted and
    /// de-duplicated.
    pub fn from_chord(parsed: Option<(String, u8)>, raw: &[char], modifiers: &[String]) -> (r: Self)
        ensures
            match parsed {
                Some((k, bits)) => r@.0 == lower(k@) && r@.1 == flag_names(bits),
                None => r@.0 == lower(raw@) && strictly_sorted(r@.1) && same_values(
                    r@.1,
                    verbatim_mods(string_views(modifiers@)),
                ),
            },
    {
        let ghost mods = string_views(modifiers@);
        match parsed {
            Some((k, bits)) => {
                let key = string_of(lower_chars(chars_of(k.as_str()).as_slice()).as_slice());
                KeyCombo { key, modifiers: modifier_names(bits) }
            },
            None => {
                let mut out: Vec<String> = Vec::new();
                let mut j: usize = 0;
                while j < modifiers.len()
                    invariant
                        mods == string_views(modifiers@),
                        j <= modifiers@.len(),
                        strictly_sorted(string_views(out@)),
                        same_values(string_views(out@), verbatim_mods(mods.take(j as int))),
                    decreases modifiers@.len() - j,
                {
                    let lm = lower_chars(trim_chars(chars_of(modifiers[j].as_str()).as_slice()).as_slice());
                    assert(lm@ == lower(trim(mods[j as int])));
                    let ghost before = string_views(out@);
                    insert_sorted(&mut out, string_of(lm.as_slice()));
                    proof {
                        let vm = verbatim_mods(mods.take(j + 1));
                        assert(vm =~= verbatim_mods(mods.take(j as int)).push(lm@));
                        assert forall|x: Seq<char>| string_views(out@).contains(x) <==> vm.contains(x) by {
                            if vm.contains(x) {
                                let q = choose|q: int| 0 <= q < vm.len() && vm[q] == x;
                                if q < j {
                                    assert(verbatim_mods(mods.take(j as int))[q] == x);
                                }
                            }
                            if verbatim_mods(mods.take(j as int)).contains(x) {
                                let q = choose|q: int|
                                    0 <= q < verbatim_mods(mods.take(j as int)).len() && verbatim_mods(
                                        mods.take(j as int),
                                    )[q] == x;
                                assert(vm[q] == x);
                            }
                            if x == lm@ {
                                assert(vm[j as int] == x);
                            }
                        }
                    }
                    j += 1;
                }
                assert(mods.take(mods.len() as int) =~= mods);
                let key = string_of(lower_chars(raw).as_slice());
                KeyCombo { key, modifiers: out }
            },
        }
    }
}

/// Whether two combinations are the same chord.
pub fn combo_eq(a: &KeyCombo, b: &KeyCombo) -> (r: bool)
    ensures
        r == (a@ == b@),
{
    if a.key != b.key || a.modifiers.len() != b.modifiers.len() {
        assert(a@.0 != b@.0 || a@.1.len() != b@.1.len());
        return false;
    }
    let mut i: usize = 0;
    while i < a.modifiers.len()
        invariant
            a.modifiers@.len() == b.modifiers@.len(),
            a@.0 == b@.0,
            i <= a.modifiers@.len(),
            forall|j: int| 0 <= j < i ==> a.modifiers@[j]@ == b.modifiers@[j]@,
        decreases a.modifiers@.len() - i,
    {
        if a.modifiers[i] != b.modifiers[i] {
            assert(a@.1[i as int] != b@.1[i as int]);
            return false;
        }
        i += 1;
    }
    assert(a@.1 =~= b@.1);
    true
}

// ---------------------------------------------------------------------------
// The map.
// ---------------------------------------------------------------------------

/// The bindings of `e`, a later entry for a combination replacing an earlier.
pub open spec fn map_of<A>(e: Seq<(KeyCombo, A)>) -> Map<(Seq<char>, Seq<Seq<char>>), A>
    decreases e.len(),
{
    if e.len() == 0 {
        Map::empty()
    } else {
        map_of(e.drop_last()).insert(e.last().0@, e.last().1)
    }
}

/// No combination appears twice.
pub open spec fn distinct_keys<A>(e: Seq<(KeyCombo, A)>) -> bool {
    forall|i: int, j: int| 0 <= i < j < e.len() ==> (#[trigger] e[i]).0@ != (#[trigger] e[j]).0@
}

proof fn lemma_map_of<A>(e: Seq<(KeyCombo, A)>)
    requires
        distinct_keys(e),
    ensures
        map_of(e).dom().finite(),
        map_of(e).dom().len() == e.len(),
        forall|k: (Seq<char>, Seq<Seq<char>>)|
            map_of(e).dom().contains(k) <==> exists|i: int| 0 <= i < e.len() && (#[trigger] e[i]).0@ == k,
        forall|i: int| 0 <= i < e.len() ==> map_of(e)[(#[trigger] e[i]).0@] == e[i].1,
    decreases e.len(),
{
    if e.len() > 0 {
        let d = e.drop_last();
        assert forall|i: int, j: int| 0 <= i < j < d.len() implies (#[trigger] d[i]).0@
            != (#[trigger] d[j]).0@ by {
            assert(d[i] == e[i] && d[j] == e[j]);
        }
        lemma_map_of(d);
        let last = e.last();
        assert(!map_of(d).dom().contains(last.0@)) by {
            if map_of(d).dom().contains(last.0@) {
                let i = choose|i: int| 0 <= i < d.len() && (#[trigger] d[i]).0@ == last.0@;
                assert(e[i].0@ == e[e.len() - 1].0@);
            }
        }
        assert forall|k: (Seq<char>, Seq<Seq<char>>)|
            map_of(e).dom().contains(k) <==> exists|i: int|
                0 <= i < e.len() && (#[trigger] e[i]).0@ == k by {
            if map_of(d).dom().contains(k) {
                let i = choose|i: int| 0 <= i < d.len() && (#[trigger] d[i]).0@ == k;
                assert(e[i].0@ == k);
            }
            if exists|i: int| 0 <= i < e.len() && (#[trigger] e[i]).0@ == k {
                let i = choose|i: int| 0 <= i < e.len() && (#[trigger] e[i]).0@ == k;
                if i < e.len() - 1 {
                    assert(d[i].0@ == k);
                }
            }
        }
        assert forall|i: int| 0 <= i < e.len() implies map_of(e)[(#[trigger] e[i]).0@] == e[i].1 by {
            if i < e.len() - 1 {
                assert(d[i] == e[i]);
                assert(map_of(d)[d[i].0@] == d[i].1);
            }
        }
    }
}

/// A copy of `c`.
fn copy_combo(c: &KeyCombo) -> (r: KeyCombo)
    ensures
        r@ == c@,
{
    let mods = crate::focus::clone_strings(&c.modifiers);
    KeyCombo { key: c.key.clone(), modifiers: mods }
}

/// A map from key combinations to actions; one action per chord.
#[derive(Debug)]
pub struct KeyMap<A> {
    entries: Vec<(KeyCombo, A)>,
}

impl<A> KeyMap<A> {
    #[verifier::type_invariant]
    spec fn inv(self) -> bool {
        distinct_keys(self.entries@)
    }

    /// The bindings, by chord.
    pub closed spec fn bindings(&self) -> Map<(Seq<char>, Seq<Seq<char>>), A> {
        map_of(self.entries@)
    }

    /// The index of the entry for `combo`, if there is one.
    fn find(&self, combo: &KeyCombo) -> (r: Option<usize>)
        ensures
            r matches Some(i) ==> i < self.entries@.len() && self.entries@[i as int].0@ == combo@,
            r is None ==> forall|i: int|
                0 <= i < self.entries@.len() ==> (#[trigger] self.entries@[i]).0@ != combo@,
    {
        let mut i: usize = 0;
        while i < self.entries.len()
            invariant
                i <= self.entries@.len(),
                forall|j: int| 0 <= j < i ==> (#[trigger] self.entries@[j]).0@ != combo@,
            decreases self.entries@.len() - i,
        {
            if combo_eq(&self.entries[i].0, combo) {
                return Some(i);
            }
            i += 1;
        }
        None
    }

    pub fn new() -> (r: Self)
        ensures
            r.bindings() == Map::<(Seq<char>, Seq<Seq<char>>), A>::empty(),
            r.bindings().dom().finite(),
    {
        KeyMap { entries: Vec::new() }
    }

    /// Bind a combination to an action, replacing any earlier action.
    pub fn bind(&mut self, combo: KeyCombo, action: A)
        ensures
            final(self).bindings() == old(self).bindings().insert(combo@, action),
            old(self).bindings().dom().finite(),
            final(self).bindings().dom().finite(),
    {
        proof {
            use_type_invariant(&*self);
            lemma_map_of(self.entries@);
        }
        let ghost e = self.entries@;
        match self.find(&combo) {
            Some(i) => {
                let mut entries: Vec<(KeyCombo, A)> = Vec::new();
                std::mem::swap(&mut entries, &mut self.entries);
                let (c, _) = entries.remove(i);
                entries.insert(i, (c, action));
                proof {
                    let e2 = entries@;
                    assert(e2 =~= e.update(i as int, (e[i as int].0, action)));
                    assert forall|a: int, b: int| 0 <= a < b < e2.len() implies (#[trigger] e2[a]).0@
                        != (#[trigger] e2[b]).0@ by {
                        assert(e2[a].0 == e[a].0 && e2[b].0 == e[b].0);
                    }
                    lemma_map_of(e2);
                    assert(map_of(e2) =~= map_of(e).insert(combo@, action)) by {
                        assert forall|k| #[trigger] map_of(e2).dom().contains(k) <==> map_of(e).insert(combo@, action).dom().contains(k) by {
                            if exists|q: int| 0 <= q < e2.len() && (#[trigger] e2[q]).0@ == k {
                                let q = choose|q: int| 0 <= q < e2.len() && (#[trigger] e2[q]).0@ == k;
                                assert(e[q].0@ == k);
                            }
                            if exists|q: int| 0 <= q < e.len() && (#[trigger] e[q]).0@ == k {
                                let q = choose|q: int| 0 <= q < e.len() && (#[trigger] e[q]).0@ == k;
                                assert(e2[q].0@ == k);
                            }
                            if k == combo@ {
                                assert(e2[i as int].0@ == k);
                            }
                        }
                        assert forall|k| #[trigger] map_of(e2).dom().contains(k) implies map_of(e2)[k] == map_of(e).insert(combo@, action)[k] by {
                            let q = choose|q: int| 0 <= q < e2.len() && (#[trigger] e2[q]).0@ == k;
                            assert(map_of(e2)[e2[q].0@] == e2[q].1);
                            if q != i {
                                assert(e[q] == e2[q]);
                                assert(map_of(e)[e[q].0@] == e[q].1);
                            }
                        }
                    }
                }
                self.entries = entries;
            },
            None => {
                let mut entries: Vec<(KeyCombo, A)> = Vec::new();
                std::mem::swap(&mut entries, &mut self.entries);
                entries.push((combo, action));
                proof {
                    let e2 = entries@;
                    assert(e2.drop_last() =~= e);
                }
                self.entries = entries;
            },
        }
    }

    /// The action bound to a combination.
    pub fn lookup(&self, combo: &KeyCombo) -> (r: Option<&A>)
        ensures
            r is Some == self.bindings().dom().contains(combo@),
            r matches Some(a) ==> *a == self.bindings()[combo@],
    {
        proof {
            use_type_invariant(self);
            lemma_map_of(self.entries@);
        }
        match self.find(combo) {
            Some(i) => Some(&self.entries[i].1),
            None => None,
        }
    }

    /// Remove the binding of a combination, if there is one.
    pub fn unbind(&mut self, combo: &KeyCombo)
        ensures
            final(self).bindings() == old(self).bindings().remove(combo@),
            old(self).bindings().dom().finite(),
            final(self).bindings().dom().finite(),
    {
        proof {
            use_type_invariant(&*self);
            lemma_map_of(self.entries@);
        }
        let ghost e = self.entries@;
        match self.find(combo) {
            Some(i) => {
                let mut entries: Vec<(KeyCombo, A)> = Vec::new();
                std::mem::swap(&mut entries, &mut self.entries);
                let _ = entries.remove(i);
                proof {
                    let e2 = entries@;
                    assert forall|a: int, b: int| 0 <= a < b < e2.len() implies (#[trigger] e2[a]).0@
                        != (#[trigger] e2[b]).0@ by {
                        let a0 = if a < i { a } else { a + 1 };
                        let b0 = if b < i { b } else { b + 1 };
                        assert(e2[a] == e[a0] && e2[b] == e[b0]);
                    }
                    assert(e2 =~= e.remove(i as int));
                    lemma_map_of(e2);
                    assert(map_of(e2) =~= map_of(e).remove(combo@)) by {
                        assert forall|k| #[trigger] map_of(e2).dom().contains(k) <==> map_of(e).remove(combo@).dom().contains(k) by {
                            if exists|q: int| 0 <= q < e2.len() && (#[trigger] e2[q]).0@ == k {
                                let q = choose|q: int| 0 <= q < e2.len() && (#[trigger] e2[q]).0@ == k;
                                if q < i {
                                    assert(e[q].0@ == k);
                                } else {
                                    assert(e[q + 1].0@ == k);
                                }
                            }
                            if k != combo@ && exists|q: int| 0 <= q < e.len() && (#[trigger] e[q]).0@ == k {
                                let q = choose|q: int| 0 <= q < e.len() && (#[trigger] e[q]).0@ == k;
                                if q < i {
                                    assert(e2[q].0@ == k);
                                } else {
                                    assert(e2[q - 1].0@ == k);
                                }
                            }
                        }
                        assert forall|k| #[trigger] map_of(e2).dom().contains(k) implies map_of(e2)[k] == map_of(e).remove(combo@)[k] by {
                            let q = choose|q: int| 0 <= q < e2.len() && (#[trigger] e2[q]).0@ == k;
                            assert(map_of(e2)[e2[q].0@] == e2[q].1);
                            if q < i {
                                assert(e[q] == e2[q]);
                                assert(map_of(e)[e[q].0@] == e[q].1);
                            } else {
                                assert(e[q + 1] == e2[q]);
                                assert(map_of(e)[e[q + 1].0@] == e[q + 1].1);
                            }
                        }
                    }
                }
                self.entries = entries;
            },
            None => {
                assert(!map_of(e).dom().contains(combo@));
                assert(map_of(e).remove(combo@) =~= map_of(e));
            },
        }
    }

    /// The number of bound combinations.
    pub fn len(&self) -> (r: usize)
        ensures
            r == self.bindings().dom().len(),
            self.bindings().dom().finite(),
    {
        proof {
            use_type_invariant(self);
            lemma_map_of(self.entries@);
        }
        self.entries.len()
    }

    pub fn is_empty(&self) -> (r: bool)
        ensures
            r == (self.bindings().dom().len() == 0),
    {
        proof {
            use_type_invariant(self);
            lemma_map_of(self.entries@);
        }
        self.entries.len() == 0
    }
}

impl<A: Clone> Clone for KeyMap<A> {
    fn clone(&self) -> (r: Self)
        ensures
            r.bindings().dom() == self.bindings().dom(),
    {
        proof {
            use_type_invariant(self);
        }
        let mut entries: Vec<(KeyCombo, A)> = Vec::new();
        let mut i: usize = 0;
        while i < self.entries.len()
            invariant
                i <= self.entries@.len(),
                distinct_keys(self.entries@),
                entries@.len() == i,
                forall|j: int| 0 <= j < i ==> (#[trigger] entries@[j]).0@ == self.entries@[j].0@,
            decreases self.entries@.len() - i,
        {
            let c = copy_combo(&self.entries[i].0);
            let a = self.entries[i].1.clone();
            entries.push((c, a));
            i += 1;
        }
        proof {
            let e = self.entries@;
            let e2 = entries@;
            assert forall|a: int, b: int| 0 <= a < b < e2.len() implies (#[trigger] e2[a]).0@
                != (#[trigger] e2[b]).0@ by {
                assert(e2[a].0@ == e[a].0@ && e2[b].0@ == e[b].0@);
            }
            lemma_map_of(e);
            lemma_map_of(e2);
            assert forall|k| #[trigger] map_of(e2).dom().contains(k) <==> map_of(e).dom().contains(k) by {
                if exists|q: int| 0 <= q < e2.len() && (#[trigger] e2[q]).0@ == k {
                    let q = choose|q: int| 0 <= q < e2.len() && (#[trigger] e2[q]).0@ == k;
                    assert(e[q].0@ == k);
                }
                if exists|q: int| 0 <= q < e.len() && (#[trigger] e[q]).0@ == k {
                    let q = choose|q: int| 0 <= q < e.len() && (#[trigger] e[q]).0@ == k;
                    assert(e2[q].0@ == k);
                }
            }
            assert(map_of(e2).dom() =~= map_of(e).dom());
        }
        KeyMap { entries }
    }
}

impl<A> Default for KeyMap<A> {
    fn default() -> (r: Self)
        ensures
            r.bindings() == Map::<(Seq<char>, Seq<Seq<char>>), A>::empty(),
    {
        KeyMap::new()
    }
}

// ---------------------------------------------------------------------------
// Laws.
// ---------------------------------------------------------------------------

/// A sorted, repeat-free list is determined by its values.
proof fn lemma_sorted_by_values(a: Seq<Seq<char>>, b: Seq<Seq<char>>)
    requires
        strictly_sorted(a),
        strictly_sorted(b),
        same_values(a, b),
    ensures
        a == b,
    decreases a.len() + b.len(),
{
    if a.len() == 0 || b.len() == 0 {
        if a.len() > 0 {
            assert(a.contains(a[0]));
        }
        if b.len() > 0 {
            assert(b.contains(b[0]));
        }
        assert(a =~= b);
    } else {
        assert(a.contains(a[0]));
        assert(b.contains(b[0]));
        let j = choose|j: int| 0 <= j < b.len() && b[j] == a[0];
        let i = choose|i: int| 0 <= i < a.len() && a[i] == b[0];
        if j > 0 {
            if i > 0 {
                lemma_lex_total(a[0], a[i]);
            } else {
                lemma_lex_irreflexive(b[0]);
            }
        }
        assert(a[0] == b[0]);
        let ta = a.skip(1);
        let tb = b.skip(1);
        assert forall|x: Seq<char>| ta.contains(x) <==> tb.contains(x) by {
            if ta.contains(x) {
                let q = choose|q: int| 0 <= q < ta.len() && ta[q] == x;
                assert(a[q + 1] == x);
                assert(a.contains(x));
                let r = choose|r: int| 0 <= r < b.len() && b[r] == x;
                if r == 0 {
                    lemma_lex_irreflexive(a[0]);
                }
                assert(tb[r - 1] == x);
            }
            if tb.contains(x) {
                let q = choose|q: int| 0 <= q < tb.len() && tb[q] == x;
                assert(b[q + 1] == x);
                assert(b.contains(x));
                let r = choose|r: int| 0 <= r < a.len() && a[r] == x;
                if r == 0 {
                    lemma_lex_irreflexive(b[0]);
                }
                assert(ta[r - 1] == x);
            }
        }
        lemma_sorted_by_values(ta, tb);
        assert(a =~= seq![a[0]] + ta);
        assert(b =~= seq![b[0]] + tb);
    }
}

/// Order and repetition of modifiers do not split a chord that awase does
/// not know: two modifier lists with the same trimmed, lower-cased values
/// are stored as the same list.
pub proof fn law_verbatim_modifiers_ignore_order_and_repeats(
    m1: Seq<Seq<char>>,
    m2: Seq<Seq<char>>,
    r1: Seq<Seq<char>>,
    r2: Seq<Seq<char>>,
)
    requires
        same_values(verbatim_mods(m1), verbatim_mods(m2)),
        strictly_sorted(r1) && same_values(r1, verbatim_mods(m1)),
        strictly_sorted(r2) && same_values(r2, verbatim_mods(m2)),
    ensures
        r1 == r2,
{
    lemma_sorted_by_values(r1, r2);
}

/// What is bound is what is looked up: after binding `k` to `a`, `k` is
/// bound and to `a`; other combinations keep their actions.
pub proof fn law_lookup_after_bind<A>(m: Map<(Seq<char>, Seq<Seq<char>>), A>, k: (Seq<char>, Seq<Seq<char>>), a: A, other: (Seq<char>, Seq<Seq<char>>))
    requires
        other != k,
    ensures
        m.insert(k, a).dom().contains(k),
        m.insert(k, a)[k] == a,
        m.insert(k, a).dom().contains(other) == m.dom().contains(other),
        m.dom().contains(other) ==> m.insert(k, a)[other] == m[other],
{
}

/// After unbinding `k`, looking `k` up finds nothing.
pub proof fn law_lookup_after_unbind<A>(m: Map<(Seq<char>, Seq<Seq<char>>), A>, k: (Seq<char>, Seq<Seq<char>>))
    ensures
        !m.remove(k).dom().contains(k),
{
}

/// Rebinding a bound combination replaces its action and keeps the count.
pub proof fn law_rebinding_keeps_the_count<A>(m: Map<(Seq<char>, Seq<Seq<char>>), A>, k: (Seq<char>, Seq<Seq<char>>), a: A)
    requires
        m.dom().finite(),
        m.dom().contains(k),
    ensures
        m.insert(k, a).dom().len() == m.dom().len(),
{
    assert(m.insert(k, a).dom() =~= m.dom());
}

proof fn lemma_char_lower(c: char)
    ensures
        ascii_lower(ascii_lower(c)) == ascii_lower(c),
        white_space(ascii_lower(c)) == white_space(c),
{
}

proof fn lemma_trim_start_lower(s: Seq<char>)
    ensures
        trim_start(lower(s)) == lower(trim_start(s)),
    decreases s.len(),
{
    if s.len() > 0 {
        lemma_char_lower(s[0]);
        assert(lower(s)[0] == ascii_lower(s[0]));
        if white_space(s[0]) {
            assert(lower(s).skip(1) =~= lower(s.skip(1)));
            lemma_trim_start_lower(s.skip(1));
        }
    } else {
        assert(lower(s) =~= s);
    }
}

proof fn lemma_trim_end_lower(s: Seq<char>)
    ensures
        trim_end(lower(s)) == lower(trim_end(s)),
    decreases s.len(),
{
    if s.len() > 0 {
        lemma_char_lower(s.last());
        assert(lower(s).last() == ascii_lower(s.last()));
        if white_space(s.last()) {
            assert(lower(s).drop_last() =~= lower(s.drop_last()));
            lemma_trim_end_lower(s.drop_last());
        }
    } else {
        assert(lower(s) =~= s);
    }
}

proof fn lemma_lower_lower(s: Seq<char>)
    ensures
        lower(lower(s)) == lower(s),
{
    assert forall|i: int| 0 <= i < s.len() implies lower(lower(s))[i] == lower(s)[i] by {
        lemma_char_lower(s[i]);
    }
    assert(lower(lower(s)) =~= lower(s));
}

/// `trim_start` leaves nothing to trim at the front.
proof fn lemma_trim_start_done(s: Seq<char>)
    ensures
        trim_start(s).len() == 0 || !white_space(trim_start(s)[0]),
        trim_start(trim_start(s)) == trim_start(s),
    decreases s.len(),
{
    if s.len() > 0 && white_space(s[0]) {
        lemma_trim_start_done(s.skip(1));
    }
}

/// `trim_end` of a text whose front needs no trimming still needs none
/// there, and leaves nothing to trim at the back.
proof fn lemma_trim_end_done(s: Seq<char>)
    requires
        s.len() == 0 || !white_space(s[0]),
    ensures
        trim_end(s).len() == 0 || !white_space(trim_end(s)[0]),
        trim_end(s).len() == 0 || !white_space(trim_end(s).last()),
        trim_end(trim_end(s)) == trim_end(s),
        trim_start(trim_end(s)) == trim_end(s),
    decreases s.len(),
{
    if s.len() > 0 && white_space(s.last()) {
        if s.len() > 1 {
            assert(s.drop_last()[0] == s[0]);
        }
        lemma_trim_end_done(s.drop_last());
    }
}

/// Trimming twice trims once.
proof fn lemma_trim_trim(s: Seq<char>)
    ensures
        trim(trim(s)) == trim(s),
{
    lemma_trim_start_done(s);
    lemma_trim_end_done(trim_start(s));
}

/// Trimming commutes with ASCII lower case.
proof fn lemma_trim_lower(s: Seq<char>)
    ensures
        trim(lower(s)) == lower(trim(s)),
{
    lemma_trim_start_lower(s);
    lemma_trim_end_lower(trim_start(s));
}

/// A modifier kept verbatim keeps its spelling when kept verbatim again.
proof fn lemma_verbatim_fixed(m: Seq<char>)
    ensures
        lower(trim(lower(trim(m)))) == lower(trim(m)),
{
    lemma_trim_lower(trim(m));
    lemma_trim_trim(m);
    lemma_lower_lower(trim(m));
}

/// The raw key of a key made canonical is that key again, in lower case.
proof fn lemma_raw_key_fixed(key: Seq<char>)
    ensures
        lower(raw_key(lower(raw_key(key)))) == lower(raw_key(key)),
{
    reveal_strlit("space");
    reveal_strlit("shift+tab");
    reveal_strlit("backtab");
    let t = trim(key);
    lemma_trim_lower(t);
    lemma_trim_trim(key);
    lemma_lower_lower(t);
    if key.len() > 0 && t.len() == 0 {
        assert(lower("space"@) =~= "space"@);
        assert(trim("space"@) =~= "space"@) by {
            assert(!white_space('s'));
            assert(!white_space('e'));
        }
        lemma_lower_lower("space"@);
        assert(lower("space"@) != lower("backtab"@)) by {
            assert(lower("space"@).len() != lower("backtab"@).len());
        }
    } else if lower(t) == lower("backtab"@) {
        assert(lower("shift+tab"@) =~= "shift+tab"@);
        assert(trim("shift+tab"@) =~= "shift+tab"@) by {
            assert(!white_space('s'));
            assert(!white_space('b'));
        }
        assert(lower("shift+tab"@) != lower("backtab"@)) by {
            assert(lower("shift+tab"@).len() != lower("backtab"@).len());
        }
    } else {
        if t.len() == 0 {
            assert(lower(t) =~= t);
        }
    }
}

/// Canonicalising is idempotent for chords awase does not know: making a
/// combination from the key and modifiers of one made that way, when awase
/// knows neither chord, gives the same combination.
pub proof fn law_verbatim_canonical_is_idempotent(
    key: Seq<char>,
    mods: Seq<Seq<char>>,
    r: (Seq<char>, Seq<Seq<char>>),
    r2: (Seq<char>, Seq<Seq<char>>),
)
    requires
        atlas_chord(chord_text(mods, raw_key(key))) is None,
        canonical_ok(key, mods, r),
        atlas_chord(chord_text(r.1, raw_key(r.0))) is None,
        canonical_ok(r.0, r.1, r2),
    ensures
        r2 == r,
{
    lemma_raw_key_fixed(key);
    assert forall|x: Seq<char>| r.1.contains(x) <==> verbatim_mods(r.1).contains(x) by {
        if r.1.contains(x) {
            assert(verbatim_mods(mods).contains(x));
            let q = choose|q: int| 0 <= q < mods.len() && verbatim_mods(mods)[q] == x;
            lemma_verbatim_fixed(mods[q]);
            let p = choose|p: int| 0 <= p < r.1.len() && r.1[p] == x;
            assert(verbatim_mods(r.1)[p] == x);
        }
        if verbatim_mods(r.1).contains(x) {
            let p = choose|p: int| 0 <= p < r.1.len() && verbatim_mods(r.1)[p] == x;
            let y = r.1[p];
            assert(r.1.contains(y));
            assert(verbatim_mods(mods).contains(y));
            let q = choose|q: int| 0 <= q < mods.len() && verbatim_mods(mods)[q] == y;
            lemma_verbatim_fixed(mods[q]);
        }
    }
    lemma_sorted_by_values(r2.1, r.1);
}

/// The stored modifier names say exactly which modifier bits are set: each
/// of the six names is listed exactly when its bit is (`ctrl` 2, `alt` 4,
/// `shift` 8, `super` 1, `fn` 16, `caps_lock` 32), so two different sets of
/// modifier bits never give the same names, and `alt+x` is never `x`.
pub proof fn law_modifier_names_follow_the_bits(bits: u8, other: u8)
    ensures
        flag_names(bits).contains("ctrl"@) <==> bits & 2 == 2,
        flag_names(bits).contains("alt"@) <==> bits & 4 == 4,
        flag_names(bits).contains("shift"@) <==> bits & 8 == 8,
        flag_names(bits).contains("super"@) <==> bits & 1 == 1,
        flag_names(bits).contains("fn"@) <==> bits & 16 == 16,
        flag_names(bits).contains("caps_lock"@) <==> bits & 32 == 32,
        flag_names(bits) == flag_names(other) ==> bits & 63 == other & 63,
{
    reveal_strlit("ctrl");
    reveal_strlit("alt");
    reveal_strlit("shift");
    reveal_strlit("super");
    reveal_strlit("fn");
    reveal_strlit("caps_lock");
    lemma_names_contain(bits);
    lemma_names_contain(other);
    if flag_names(bits) == flag_names(other) {
        assert(bits & 63 == other & 63) by (bit_vector)
            requires
                (bits & 2 == 2) == (other & 2 == 2),
                (bits & 4 == 4) == (other & 4 == 4),
                (bits & 8 == 8) == (other & 8 == 8),
                (bits & 1 == 1) == (other & 1 == 1),
                (bits & 16 == 16) == (other & 16 == 16),
                (bits & 32 == 32) == (other & 32 == 32),
        ;
    }
}

proof fn lemma_contains_concat(a: Seq<Seq<char>>, b: Seq<Seq<char>>, x: Seq<char>)
    ensures
        (a + b).contains(x) <==> a.contains(x) || b.contains(x),
{
    if (a + b).contains(x) {
        let k = choose|k: int| 0 <= k < (a + b).len() && (a + b)[k] == x;
        if k < a.len() {
            assert(a[k] == x);
        } else {
            assert(b[k - a.len()] == x);
        }
    }
    if a.contains(x) {
        let k = choose|k: int| 0 <= k < a.len() && a[k] == x;
        assert((a + b)[k] == x);
    }
    if b.contains(x) {
        let k = choose|k: int| 0 <= k < b.len() && b[k] == x;
        assert((a + b)[k + a.len()] == x);
    }
}

proof fn lemma_name_if_contains(bits: u8, flag: u8, name: Seq<char>, x: Seq<char>)
    ensures
        name_if(bits, flag, name).contains(x) <==> bits & flag == flag && x == name,
{
    if bits & flag == flag && x == name {
        assert(name_if(bits, flag, name)[0] == x);
    }
}

proof fn lemma_six(
    a: Seq<Seq<char>>,
    b: Seq<Seq<char>>,
    c: Seq<Seq<char>>,
    d: Seq<Seq<char>>,
    e: Seq<Seq<char>>,
    f: Seq<Seq<char>>,
    x: Seq<char>,
)
    ensures
        (a + b + c + d + e + f).contains(x) <==> (a.contains(x) || b.contains(x) || c.contains(x) || d.contains(x)
            || e.contains(x) || f.contains(x)),
{
    lemma_contains_concat(a + b + c + d + e, f, x);
    lemma_contains_concat(a + b + c + d, e, x);
    lemma_contains_concat(a + b + c, d, x);
    lemma_contains_concat(a + b, c, x);
    lemma_contains_concat(a, b, x);
}

proof fn lemma_names_contain(bits: u8)
    ensures
        flag_names(bits).contains("ctrl"@) <==> bits & 2 == 2,
        flag_names(bits).contains("alt"@) <==> bits & 4 == 4,
        flag_names(bits).contains("shift"@) <==> bits & 8 == 8,
        flag_names(bits).contains("super"@) <==> bits & 1 == 1,
        flag_names(bits).contains("fn"@) <==> bits & 16 == 16,
        flag_names(bits).contains("caps_lock"@) <==> bits & 32 == 32,
{
    reveal_strlit("ctrl");
    reveal_strlit("alt");
    reveal_strlit("shift");
    reveal_strlit("super");
    reveal_strlit("fn");
    reveal_strlit("caps_lock");
    let a = name_if(bits, MOD_CTRL, "ctrl"@);
    let b = name_if(bits, MOD_ALT, "alt"@);
    let c = name_if(bits, MOD_SHIFT, "shift"@);
    let d = name_if(bits, MOD_CMD, "super"@);
    let e = name_if(bits, MOD_FN, "fn"@);
    let f = name_if(bits, MOD_CAPS_LOCK, "caps_lock"@);
    assert(flag_names(bits) == a + b + c + d + e + f);
    assert("ctrl"@.len() == 4 && "alt"@.len() == 3 && "shift"@.len() == 5 && "super"@.len() == 5
        && "fn"@.len() == 2 && "caps_lock"@.len() == 9);
    assert("shift"@[1] != "super"@[1]);
    assert("shift"@ != "super"@);
    lemma_six(a, b, c, d, e, f, "ctrl"@);
    lemma_six(a, b, c, d, e, f, "alt"@);
    lemma_six(a, b, c, d, e, f, "shift"@);
    lemma_six(a, b, c, d, e, f, "super"@);
    lemma_six(a, b, c, d, e, f, "fn"@);
    lemma_six(a, b, c, d, e, f, "caps_lock"@);
    let ns = seq!["ctrl"@, "alt"@, "shift"@, "super"@, "fn"@, "caps_lock"@];
    let fs = seq![MOD_CTRL, MOD_ALT, MOD_SHIFT, MOD_CMD, MOD_FN, MOD_CAPS_LOCK];
    assert forall|x: int, y: int| 0 <= x < 6 && 0 <= y < 6 implies (#[trigger] name_if(bits, fs[x], ns[x]).contains(#[trigger] ns[y]) <==> x == y && bits & fs[x] == fs[x]) by {
        lemma_name_if_contains(bits, fs[x], ns[x], ns[y]);
        if x != y {
            assert(ns[x] != ns[y]);
        }
    }
    assert(a == name_if(bits, fs[0], ns[0]) && b == name_if(bits, fs[1], ns[1]) && c == name_if(bits, fs[2], ns[2])
        && d == name_if(bits, fs[3], ns[3]) && e == name_if(bits, fs[4], ns[4]) && f == name_if(bits, fs[5], ns[5]));
    lemma_name_if_contains(bits, MOD_CTRL, "ctrl"@, "ctrl"@);
    lemma_name_if_contains(bits, MOD_ALT, "alt"@, "alt"@);
    lemma_name_if_contains(bits, MOD_SHIFT, "shift"@, "shift"@);
    lemma_name_if_contains(bits, MOD_CMD, "super"@, "super"@);
    lemma_name_if_contains(bits, MOD_FN, "fn"@, "fn"@);
    lemma_name_if_contains(bits, MOD_CAPS_LOCK, "caps_lock"@, "caps_lock"@);
}

} // verus!
