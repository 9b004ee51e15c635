//! A read-only, scrolled, wrapped, styled document: a PR body, a review
//! thread, a log tail.
//!
//! Wrapping is a function of the width, so it is recomputed whenever the
//! width or the lines change and is never served stale. A [`Span`] carries a
//! caller-defined style index that this module never interprets; wrapping
//! splits spans at the wrap point and both halves keep the style.
use vstd::prelude::*;
use crate::strings::{
    chars_of, grapheme_count, grapheme_split, graphemes_of, string_of, string_views,
};
use crate::textarea::{split_rows, text_rows};

verus! {

/// A run of text sharing one caller-defined style index.
#[derive(Debug)]
pub struct Span {
    text: String,
    style: u8,
}

/// What a [`Span`] holds.
pub struct SpanModel {
    pub text: Seq<char>,
    pub style: u8,
}

impl View for Span {
    type V = SpanModel;

    closed spec fn view(&self) -> SpanModel {
        SpanModel { text: self.text@, style: self.style }
    }
}

pub open spec fn spans_model(v: Seq<Span>) -> Seq<SpanModel> {
    v.map_values(|s: Span| s@)
}

impl Span {
    pub fn new(text: &str, style: u8) -> (r: Self)
        ensures
            r@ == (SpanModel { text: text@, style }),
    {
        Span { text: text.to_owned(), style }
    }

    /// Style 0, the caller's default.
    pub fn plain(text: &str) -> (r: Self)
        ensures
            r@ == (SpanModel { text: text@, style: 0 }),
    {
        Span::new(text, 0)
    }

    pub fn text(&self) -> (r: &str)
        ensures
            r@ == self@.text,
    {
        self.text.as_str()
    }

    /// Index into the renderer's palette; never interpreted here.
    pub fn style(&self) -> (r: u8)
        ensures
            r == self@.style,
    {
        self.style
    }

    /// Width in grapheme clusters.
    pub fn width(&self) -> (r: usize)
        ensures
            r == grapheme_count(self@.text),
    {
        let gs = graphemes_of(self.text.as_str());
        gs.len()
    }
}

impl Clone for Span {
    fn clone(&self) -> (r: Self)
        ensures
            r@ == self@,
    {
        Span { text: self.text.clone(), style: self.style }
    }
}

fn clone_spans(v: &[Span]) -> (r: Vec<Span>)
    ensures
        spans_model(r@) == spans_model(v@),
{
    let mut r: Vec<Span> = Vec::new();
    let mut i: usize = 0;
    while i < v.len()
        invariant
            i <= v@.len(),
            spans_model(r@) == spans_model(v@.take(i as int)),
        decreases v@.len() - i,
    {
        let ghost before = r@;
        let s = Span { text: v[i].text.clone(), style: v[i].style };
        r.push(s);
        assert(spans_model(r@) =~= spans_model(before).push(s@));
        assert(spans_model(v@.take(i + 1)) =~= spans_model(v@.take(i as int)).push(v@[i as int]@));
        i += 1;
    }
    assert(v@.take(v@.len() as int) =~= v@);
    r
}

/// One visual row after wrapping.
#[derive(Debug)]
pub struct WrappedLine {
    spans: Vec<Span>,
    source_line: usize,
}

/// What a [`WrappedLine`] holds: its spans and the index of the logical line
/// it came from.
pub struct WrappedModel {
    pub spans: Seq<SpanModel>,
    pub source_line: int,
}

impl View for WrappedLine {
    type V = WrappedModel;

    closed spec fn view(&self) -> WrappedModel {
        WrappedModel { spans: spans_model(self.spans@), source_line: self.source_line as int }
    }
}

pub open spec fn wrapped_model(v: Seq<WrappedLine>) -> Seq<WrappedModel> {
    v.map_values(|w: WrappedLine| w@)
}

/// The spans' texts, one after another.
pub open spec fn spans_text(spans: Seq<SpanModel>) -> Seq<char>
    decreases spans.len(),
{
    if spans.len() == 0 {
        Seq::empty()
    } else {
        spans_text(spans.drop_last()) + spans.last().text
    }
}

/// The spans' widths in grapheme clusters, added up.
pub open spec fn spans_width(spans: Seq<SpanModel>) -> int
    decreases spans.len(),
{
    if spans.len() == 0 {
        0
    } else {
        spans_width(spans.drop_last()) + grapheme_count(spans.last().text)
    }
}

impl WrappedLine {
    pub fn spans(&self) -> (r: &[Span])
        ensures
            spans_model(r@) == self@.spans,
    {
        self.spans.as_slice()
    }

    /// The logical (pre-wrap) line this row came from.
    pub fn source_line(&self) -> (r: usize)
        ensures
            r == self@.source_line,
    {
        self.source_line
    }

    /// Plain text of this row, styles discarded.
    pub fn text(&self) -> (r: String)
        ensures
            r@ == spans_text(self@.spans),
    {
        let mut s = String::new();
        let mut i: usize = 0;
        while i < self.spans.len()
            invariant
                i <= self.spans@.len(),
                s@ == spans_text(spans_model(self.spans@.take(i as int))),
            decreases self.spans@.len() - i,
        {
            let ghost prev = spans_model(self.spans@.take(i as int));
            assert(spans_model(self.spans@.take(i + 1)).drop_last() =~= prev);
            let v = chars_of(self.spans[i].text.as_str());
            let mut k: usize = 0;
            let ghost base = s@;
            while k < v.len()
                invariant
                    k <= v@.len(),
                    s@ == base + v@.take(k as int),
                decreases v@.len() - k,
            {
                crate::strings::push_char(&mut s, v[k]);
                k += 1;
                assert(s@ =~= base + v@.take(k as int));
            }
            assert(v@.take(v@.len() as int) =~= v@);
            i += 1;
        }
        assert(self.spans@.take(self.spans@.len() as int) =~= self.spans@);
        s
    }

    /// Width in grapheme clusters. The widths add up to no more than
    /// `usize::MAX`.
    pub fn width(&self) -> (r: usize)
        requires
            spans_width(self@.spans) <= usize::MAX,
        ensures
            r == spans_width(self@.spans),
    {
        let mut w: usize = 0;
        let mut i: usize = 0;
        while i < self.spans.len()
            invariant
                i <= self.spans@.len(),
                spans_width(self@.spans) <= usize::MAX,
                w == spans_width(spans_model(self.spans@.take(i as int))),
            decreases self.spans@.len() - i,
        {
            let ghost prev = spans_model(self.spans@.take(i as int));
            assert(spans_model(self.spans@.take(i + 1)).drop_last() =~= prev);
            proof {
                lemma_spans_width_prefix(self@.spans, i + 1);
                assert(self@.spans.take(i + 1) =~= spans_model(self.spans@.take(i + 1)));
            }
            w = w + self.spans[i].width();
            i += 1;
        }
        assert(self.spans@.take(self.spans@.len() as int) =~= self.spans@);
        w
    }
}

proof fn lemma_spans_width_prefix(spans: Seq<SpanModel>, n: int)
    requires
        0 <= n <= spans.len(),
    ensures
        spans_width(spans.take(n)) <= spans_width(spans),
    decreases spans.len(),
{
    if n < spans.len() {
        assert(spans.drop_last().take(n) =~= spans.take(n));
        lemma_spans_width_prefix(spans.drop_last(), n);
    } else {
        assert(spans.take(n) =~= spans);
    }
}

// ---------------------------------------------------------------------------
// Wrapping, one grapheme cluster at a time.
// ---------------------------------------------------------------------------

/// Wrapping in progress: the rows emitted so far, the spans of the row being
/// filled, the text of the span being cut, and how many clusters the row
/// already holds.
pub struct WrapState {
    pub out: Seq<WrappedModel>,
    pub current: Seq<SpanModel>,
    pub chunk: Seq<char>,
    pub used: int,
}

/// The row being filled, with the cut text closed into a span of `style`.
pub open spec fn close_chunk(current: Seq<SpanModel>, chunk: Seq<char>, style: u8) -> Seq<SpanModel> {
    if chunk.len() > 0 {
        current.push(SpanModel { text: chunk, style })
    } else {
        current
    }
}

/// Emits the full row.
pub open spec fn flush(st: WrapState, style: u8, src: int) -> WrapState {
    WrapState {
        out: st.out.push(
            WrappedModel { spans: close_chunk(st.current, st.chunk, style), source_line: src },
        ),
        current: Seq::empty(),
        chunk: Seq::empty(),
        used: 0,
    }
}

/// One cluster `g`: a full row is emitted first, then `g` joins the row.
pub open spec fn wrap_grapheme(st: WrapState, g: Seq<char>, width: int, style: u8, src: int) -> WrapState {
    let s2 = if st.used == width {
        flush(st, style, src)
    } else {
        st
    };
    WrapState { chunk: s2.chunk + g, used: s2.used + 1, ..s2 }
}

pub open spec fn wrap_graphemes(st: WrapState, gs: Seq<Seq<char>>, width: int, style: u8, src: int) -> WrapState
    decreases gs.len(),
{
    if gs.len() == 0 {
        st
    } else {
        wrap_graphemes(wrap_grapheme(st, gs[0], width, style, src), gs.skip(1), width, style, src)
    }
}

/// One span: its clusters in order, then what is left of it closed into the
/// row.
pub open spec fn wrap_span(st: WrapState, sp: SpanModel, width: int, src: int) -> WrapState {
    let st1 = wrap_graphemes(
        WrapState { chunk: Seq::empty(), ..st },
        grapheme_split(sp.text),
        width,
        sp.style,
        src,
    );
    WrapState { current: close_chunk(st1.current, st1.chunk, sp.style), chunk: Seq::empty(), ..st1 }
}

pub open spec fn wrap_span_seq(st: WrapState, spans: Seq<SpanModel>, width: int, src: int) -> WrapState
    decreases spans.len(),
{
    if spans.len() == 0 {
        st
    } else {
        wrap_span_seq(wrap_span(st, spans[0], width, src), spans.skip(1), width, src)
    }
}

/// `out` followed by the rows of logical line `src` wrapped at `width`
/// clusters. Width 0 means "not sized yet": the line is one row, unwrapped.
/// A line that wraps to nothing (an empty line) still gets one row.
pub open spec fn wrap_line(out: Seq<WrappedModel>, spans: Seq<SpanModel>, width: int, src: int) -> Seq<WrappedModel> {
    if width == 0 {
        out.push(WrappedModel { spans, source_line: src })
    } else {
        let st = wrap_span_seq(
            WrapState { out, current: Seq::empty(), chunk: Seq::empty(), used: 0 },
            spans,
            width,
            src,
        );
        if st.current.len() > 0 || !(st.out.len() > 0 && st.out.last().source_line == src) {
            st.out.push(WrappedModel { spans: st.current, source_line: src })
        } else {
            st.out
        }
    }
}

/// The rows of the first `n` lines.
pub open spec fn wrap_upto(lines: Seq<Seq<SpanModel>>, width: int, n: int) -> Seq<WrappedModel>
    decreases n,
{
    if n <= 0 {
        Seq::empty()
    } else {
        wrap_line(wrap_upto(lines, width, n - 1), lines[n - 1], width, n - 1)
    }
}

/// Every line wrapped at `width`.
pub open spec fn wrap_all(lines: Seq<Seq<SpanModel>>, width: int) -> Seq<WrappedModel> {
    wrap_upto(lines, width, lines.len() as int)
}

proof fn lemma_wrapped_push(v: Seq<WrappedLine>, w: WrappedLine)
    ensures
        wrapped_model(v.push(w)) == wrapped_model(v).push(w@),
{
    assert(wrapped_model(v.push(w)) =~= wrapped_model(v).push(w@));
}

proof fn lemma_spans_push(v: Seq<Span>, s: Span)
    ensures
        spans_model(v.push(s)) == spans_model(v).push(s@),
{
    assert(spans_model(v.push(s)) =~= spans_model(v).push(s@));
}

/// Appends the rows of one logical line wrapped at `width` clusters.
fn wrap_spans(spans: &[Span], width: usize, source_line: usize, out: &mut Vec<WrappedLine>)
    ensures
        wrapped_model(final(out)@) == wrap_line(
            wrapped_model(old(out)@),
            spans_model(spans@),
            width as int,
            source_line as int,
        ),
{
    if width == 0 {
        let w = WrappedLine { spans: clone_spans(spans), source_line };
        proof {
            lemma_wrapped_push(out@, w);
        }
        out.push(w);
        return ;
    }
    let ghost sm = spans_model(spans@);
    let ghost src = source_line as int;
    let ghost w = width as int;
    let mut current: Vec<Span> = Vec::new();
    let mut used: usize = 0;
    let mut j: usize = 0;
    let ghost start = WrapState {
        out: wrapped_model(out@),
        current: Seq::empty(),
        chunk: Seq::empty(),
        used: 0,
    };
    assert(spans_model(current@) =~= Seq::<SpanModel>::empty());
    assert(sm.skip(0) =~= sm);
    while j < spans.len()
        invariant
            width > 0,
            w == width,
            src == source_line as int,
            sm == spans_model(spans@),
            j <= spans@.len(),
            used <= width,
            wrap_span_seq(start, sm, w, src) == wrap_span_seq(
                WrapState {
                    out: wrapped_model(out@),
                    current: spans_model(current@),
                    chunk: Seq::empty(),
                    used: used as int,
                },
                sm.skip(j as int),
                w,
                src,
            ),
        decreases spans@.len() - j,
    {
        let style = spans[j].style;
        let ghost sp = sm[j as int];
        assert(sp == spans@[j as int]@);
        assert(sm.skip(j as int).skip(1) =~= sm.skip(j + 1));
        assert(sm.skip(j as int)[0] == sp);
        let gs = graphemes_of(spans[j].text.as_str());
        let ghost g_all = string_views(gs@);
        let ghost span_start = WrapState {
            out: wrapped_model(out@),
            current: spans_model(current@),
            chunk: Seq::empty(),
            used: used as int,
        };
        let mut chunk: Vec<char> = Vec::new();
        let mut k: usize = 0;
        assert(g_all.skip(0) =~= g_all);
        while k < gs.len()
            invariant
                width > 0,
                w == width,
                src == source_line as int,
                style == sp.style,
                g_all == string_views(gs@),
                g_all == grapheme_split(sp.text),
                k <= gs@.len(),
                used <= width,
                wrap_graphemes(span_start, g_all, w, style, src) == wrap_graphemes(
                    WrapState {
                        out: wrapped_model(out@),
                        current: spans_model(current@),
                        chunk: chunk@,
                        used: used as int,
                    },
                    g_all.skip(k as int),
                    w,
                    style,
                    src,
                ),
            decreases gs@.len() - k,
        {
            let ghost before = WrapState {
                out: wrapped_model(out@),
                current: spans_model(current@),
                chunk: chunk@,
                used: used as int,
            };
            assert(g_all.skip(k as int).skip(1) =~= g_all.skip(k + 1));
            assert(g_all.skip(k as int)[0] == gs@[k as int]@);
            if used == width {
                if chunk.len() > 0 {
                    let piece = Span { text: string_of(chunk.as_slice()), style };
                    proof {
                        lemma_spans_push(current@, piece);
                    }
                    current.push(piece);
                    chunk = Vec::new();
                }
                assert(spans_model(current@) == close_chunk(before.current, before.chunk, style));
                let mut row: Vec<Span> = Vec::new();
                std::mem::swap(&mut row, &mut current);
                let wl = WrappedLine { spans: row, source_line };
                assert(wl@.spans =~= close_chunk(before.current, before.chunk, style));
                assert(wl@.source_line == src);
                let ghost wlv = wl@;
                assert(wlv == WrappedModel {
                    spans: close_chunk(before.current, before.chunk, style),
                    source_line: src,
                });
                proof {
                    lemma_wrapped_push(out@, wl);
                }
                out.push(wl);
                used = 0;
                assert(spans_model(current@) =~= Seq::<SpanModel>::empty());
                assert(chunk@ =~= Seq::<char>::empty());
                assert(wrapped_model(out@) =~= flush(before, style, src).out);
            }
            let ghost mid = WrapState {
                out: wrapped_model(out@),
                current: spans_model(current@),
                chunk: chunk@,
                used: used as int,
            };
            assert(mid == (if before.used == w {
                flush(before, style, src)
            } else {
                before
            }));
            let gc = chars_of(gs[k].as_str());
            let mut t: usize = 0;
            let ghost base = chunk@;
            while t < gc.len()
                invariant
                    t <= gc@.len(),
                    chunk@ == base + gc@.take(t as int),
                decreases gc@.len() - t,
            {
                chunk.push(gc[t]);
                t += 1;
                assert(chunk@ =~= base + gc@.take(t as int));
            }
            assert(gc@.take(gc@.len() as int) =~= gc@);
            used += 1;
            assert(WrapState {
                out: wrapped_model(out@),
                current: spans_model(current@),
                chunk: chunk@,
                used: used as int,
            } == wrap_grapheme(before, gs@[k as int]@, w, style, src));
            k += 1;
        }
        assert(g_all.skip(gs@.len() as int) =~= Seq::<Seq<char>>::empty());
        if chunk.len() > 0 {
            let piece = Span { text: string_of(chunk.as_slice()), style };
            proof {
                lemma_spans_push(current@, piece);
            }
            current.push(piece);
        }
        j += 1;
    }
    assert(sm.skip(spans@.len() as int) =~= Seq::<SpanModel>::empty());
    let n = out.len();
    let last_is_this = n > 0 && out[n - 1].source_line == source_line;
    proof {
        if n > 0 {
            assert(wrapped_model(out@).last() == out@[n - 1]@);
        }
    }
    if current.len() > 0 || !last_is_this {
        let wl = WrappedLine { spans: current, source_line };
        proof {
            lemma_wrapped_push(out@, wl);
        }
        out.push(wl);
    }
}

/// The largest scroll offset: zero when the document fits.
pub open spec fn max_off(rows: int, height: int) -> int {
    if rows > height {
        rows - height
    } else {
        0
    }
}

pub open spec fn lines_model(v: Seq<Vec<Span>>) -> Seq<Seq<SpanModel>> {
    v.map_values(|l: Vec<Span>| spans_model(l@))
}

/// The first row at or after `i` that came from logical line `line`, or
/// `rows.len()`.
pub open spec fn first_row_of(rows: Seq<WrappedModel>, line: int, i: int) -> int
    decreases rows.len() - i,
{
    if i < 0 || i >= rows.len() {
        rows.len() as int
    } else if rows[i].source_line == line {
        i
    } else {
        first_row_of(rows, line, i + 1)
    }
}

/// Where scrolling by `delta` from `offset` aims, saturating at both ends of
/// `usize`.
pub open spec fn scroll_target(offset: int, delta: int) -> int {
    if delta >= 0 {
        if offset + delta > usize::MAX {
            usize::MAX as int
        } else {
            offset + delta
        }
    } else if offset + delta < 0 {
        0
    } else {
        offset + delta
    }
}

pub open spec fn min_of(a: int, b: int) -> int {
    if a <= b {
        a
    } else {
        b
    }
}

/// A scrollable, wrapped, styled read-only document.
#[derive(Debug)]
pub struct TextView {
    lines: Vec<Vec<Span>>,
    wrapped: Vec<WrappedLine>,
    width: usize,
    height: usize,
    offset: usize,
}

impl TextView {
    /// The rows are always the lines wrapped at the current width, and the
    /// offset never passes the largest one.
    #[verifier::type_invariant]
    spec fn inv(self) -> bool {
        &&& wrapped_model(self.wrapped@) == wrap_all(lines_model(self.lines@), self.width as int)
        &&& self.offset <= max_off(self.wrapped@.len() as int, self.height as int)
    }

    pub closed spec fn lines_spec(&self) -> Seq<Seq<SpanModel>> {
        lines_model(self.lines@)
    }

    pub closed spec fn width_spec(&self) -> int {
        self.width as int
    }

    pub closed spec fn height_spec(&self) -> int {
        self.height as int
    }

    pub closed spec fn offset_spec(&self) -> int {
        self.offset as int
    }

    /// The wrapped rows, from the lines and the width.
    pub open spec fn rows_spec(&self) -> Seq<WrappedModel> {
        wrap_all(self.lines_spec(), self.width_spec())
    }

    pub open spec fn max_offset_spec(&self) -> int {
        max_off(self.rows_spec().len() as int, self.height_spec())
    }

    /// The lines, width and height given, the rows wrapped from them, and
    /// the offset clamped.
    pub open spec fn shows(&self, lines: Seq<Seq<SpanModel>>, width: int, height: int, offset: int) -> bool {
        &&& self.lines_spec() == lines
        &&& self.width_spec() == width
        &&& self.height_spec() == height
        &&& self.offset_spec() == min_of(offset, max_off(wrap_all(lines, width).len() as int, height))
    }

    fn wrap_lines(lines: &Vec<Vec<Span>>, width: usize) -> (r: Vec<WrappedLine>)
        ensures
            wrapped_model(r@) == wrap_all(lines_model(lines@), width as int),
    {
        let ghost lm = lines_model(lines@);
        let mut out: Vec<WrappedLine> = Vec::new();
        let mut i: usize = 0;
        assert(wrapped_model(out@) =~= Seq::<WrappedModel>::empty());
        while i < lines.len()
            invariant
                lm == lines_model(lines@),
                i <= lines@.len(),
                wrapped_model(out@) == wrap_upto(lm, width as int, i as int),
            decreases lines@.len() - i,
        {
            assert(lm[i as int] == spans_model(lines@[i as int]@));
            wrap_spans(lines[i].as_slice(), width, i, &mut out);
            i += 1;
        }
        out
    }

    /// Takes the lines out, leaving an empty document behind for the moment.
    fn take_lines(&mut self) -> (lines: Vec<Vec<Span>>)
        ensures
            lines_model(lines@) == old(self).lines_spec(),
    {
        let mut tmp = TextView::new();
        std::mem::swap(self, &mut tmp);
        let TextView { lines, .. } = tmp;
        lines
    }

    /// Puts lines and layout in place, rewrapping and clamping `offset`.
    fn rebuild(&mut self, lines: Vec<Vec<Span>>, width: usize, height: usize, offset: usize)
        ensures
            final(self).shows(lines_model(lines@), width as int, height as int, offset as int),
    {
        let wrapped = TextView::wrap_lines(&lines, width);
        let n = wrapped.len();
        let max = if n > height {
            n - height
        } else {
            0
        };
        let off = if offset <= max {
            offset
        } else {
            max
        };
        *self = TextView { lines, wrapped, width, height, offset: off };
    }

    /// An empty view; a zero width shows lines unwrapped.
    pub fn new() -> (r: Self)
        ensures
            r.shows(Seq::empty(), 0, 0, 0),
    {
        let lines: Vec<Vec<Span>> = Vec::new();
        let wrapped: Vec<WrappedLine> = Vec::new();
        assert(lines_model(lines@) =~= Seq::<Seq<SpanModel>>::empty());
        assert(wrapped_model(wrapped@) =~= Seq::<WrappedModel>::empty());
        TextView { lines, wrapped, width: 0, height: 0, offset: 0 }
    }

    /// Plain text, one style for everything; `\r\n` and `\r` count as `\n`.
    pub fn from_text(s: &str, width: usize, height: usize) -> (r: Self)
        ensures
            r.shows(
                text_rows(s@).map_values(|t: Seq<char>| seq![SpanModel { text: t, style: 0 }]),
                width as int,
                height as int,
                0,
            ),
    {
        let rows = split_rows(s);
        let ghost tr = text_rows(s@);
        let mut lines: Vec<Vec<Span>> = Vec::new();
        let mut i: usize = 0;
        while i < rows.len()
            invariant
                string_views(rows@) == tr,
                i <= rows@.len(),
                lines_model(lines@) == tr.take(i as int).map_values(
                    |t: Seq<char>| seq![SpanModel { text: t, style: 0 }],
                ),
            decreases rows@.len() - i,
        {
            let ghost before = lines@;
            let sp = Span::plain(rows[i].as_str());
            let line: Vec<Span> = vec![sp];
            assert(spans_model(line@) =~= seq![sp@]);
            lines.push(line);
            assert(tr[i as int] == rows@[i as int]@);
            assert(lines_model(lines@) =~= lines_model(before).push(spans_model(line@)));
            assert(tr.take(i + 1).map_values(|t: Seq<char>| seq![SpanModel { text: t, style: 0 }])
                =~= tr.take(i as int).map_values(
                |t: Seq<char>| seq![SpanModel { text: t, style: 0 }],
            ).push(seq![SpanModel { text: tr[i as int], style: 0 }]));
            i += 1;
        }
        assert(tr.take(rows@.len() as int) =~= tr);
        let mut v = TextView::new();
        v.rebuild(lines, width, height, 0);
        v
    }

    /// Replace the document; rewraps and clamps.
    pub fn set_lines(&mut self, lines: Vec<Vec<Span>>)
        ensures
            final(self).shows(
                lines_model(lines@),
                old(self).width_spec(),
                old(self).height_spec(),
                old(self).offset_spec(),
            ),
    {
        let (w, h, o) = (self.width, self.height, self.offset);
        self.rebuild(lines, w, h, o);
    }

    /// Append a line; rewraps and clamps.
    pub fn push_line(&mut self, spans: Vec<Span>)
        ensures
            final(self).shows(
                old(self).lines_spec().push(spans_model(spans@)),
                old(self).width_spec(),
                old(self).height_spec(),
                old(self).offset_spec(),
            ),
    {
        let (w, h, o) = (self.width, self.height, self.offset);
        let mut lines = self.take_lines();
        let ghost before = lines@;
        lines.push(spans);
        assert(lines_model(lines@) =~= lines_model(before).push(spans_model(spans@)));
        self.rebuild(lines, w, h, o);
    }

    /// Set the wrap width; a new width always rewraps and re-clamps.
    pub fn set_width(&mut self, width: usize)
        ensures
            final(self).shows(
                old(self).lines_spec(),
                width as int,
                old(self).height_spec(),
                old(self).offset_spec(),
            ),
    {
        proof {
            use_type_invariant(&*self);
        }
        if self.width != width {
            let (h, o) = (self.height, self.offset);
            let lines = self.take_lines();
            self.rebuild(lines, width, h, o);
        }
    }

    /// Set the viewport height in rows; re-clamps the offset.
    pub fn set_height(&mut self, height: usize)
        ensures
            final(self).shows(
                old(self).lines_spec(),
                old(self).width_spec(),
                height as int,
                old(self).offset_spec(),
            ),
    {
        proof {
            use_type_invariant(&*self);
        }
        let n = self.wrapped.len();
        let max = if n > height {
            n - height
        } else {
            0
        };
        let off = if self.offset <= max {
            self.offset
        } else {
            max
        };
        self.offset = 0;
        self.height = height;
        self.offset = off;
    }

    pub fn width(&self) -> (r: usize)
        ensures
            r == self.width_spec(),
    {
        self.width
    }

    pub fn height(&self) -> (r: usize)
        ensures
            r == self.height_spec(),
    {
        self.height
    }

    /// Every wrapped row in the document.
    pub fn wrapped(&self) -> (r: &[WrappedLine])
        ensures
            wrapped_model(r@) == self.rows_spec(),
    {
        proof {
            use_type_invariant(self);
        }
        self.wrapped.as_slice()
    }

    /// Total wrapped rows.
    pub fn total_rows(&self) -> (r: usize)
        ensures
            r == self.rows_spec().len(),
    {
        proof {
            use_type_invariant(self);
        }
        self.wrapped.len()
    }

    /// First visible row; never past [`Self::max_offset`].
    pub fn offset(&self) -> (r: usize)
        ensures
            r == self.offset_spec(),
            r <= self.max_offset_spec(),
    {
        proof {
            use_type_invariant(self);
        }
        self.offset
    }

    /// The rows to draw now: `height` rows from the offset, fewer at the end.
    pub fn visible(&self) -> (r: &[WrappedLine])
        ensures
            wrapped_model(r@) == self.rows_spec().subrange(
                self.offset_spec(),
                min_of(self.offset_spec() + self.height_spec(), self.rows_spec().len() as int),
            ),
    {
        proof {
            use_type_invariant(self);
        }
        let n = self.wrapped.len();
        let end = if self.height <= n - self.offset {
            self.offset + self.height
        } else {
            n
        };
        let r = vstd::slice::slice_subrange(self.wrapped.as_slice(), self.offset, end);
        assert(wrapped_model(r@) =~= wrapped_model(self.wrapped@).subrange(
            self.offset as int,
            end as int,
        ));
        r
    }

    /// The largest valid offset; zero when the document fits.
    pub fn max_offset(&self) -> (r: usize)
        ensures
            r == self.max_offset_spec(),
    {
        proof {
            use_type_invariant(self);
        }
        let n = self.wrapped.len();
        if n > self.height {
            n - self.height
        } else {
            0
        }
    }

    pub fn scroll_to(&mut self, offset: usize)
        ensures
            final(self).shows(
                old(self).lines_spec(),
                old(self).width_spec(),
                old(self).height_spec(),
                offset as int,
            ),
    {
        proof {
            use_type_invariant(&*self);
        }
        let max = self.max_offset();
        let off = if offset <= max {
            offset
        } else {
            max
        };
        self.offset = off;
    }

    /// Scroll by `delta` rows, saturating, then clamp.
    pub fn scroll_by(&mut self, delta: isize)
        ensures
            final(self).shows(
                old(self).lines_spec(),
                old(self).width_spec(),
                old(self).height_spec(),
                scroll_target(old(self).offset_spec(), delta as int),
            ),
    {
        let next = if delta >= 0 {
            let d = delta as usize;
            if self.offset <= usize::MAX - d {
                self.offset + d
            } else {
                usize::MAX
            }
        } else {
            let d = ((-(delta + 1)) as usize) + 1;
            if self.offset >= d {
                self.offset - d
            } else {
                0
            }
        };
        self.scroll_to(next);
    }

    pub fn scroll_down(&mut self)
        ensures
            final(self).shows(
                old(self).lines_spec(),
                old(self).width_spec(),
                old(self).height_spec(),
                scroll_target(old(self).offset_spec(), 1),
            ),
    {
        self.scroll_by(1);
    }

    pub fn scroll_up(&mut self)
        ensures
            final(self).shows(
                old(self).lines_spec(),
                old(self).width_spec(),
                old(self).height_spec(),
                scroll_target(old(self).offset_spec(), -1),
            ),
    {
        self.scroll_by(-1);
    }

    /// Down by one viewport (at least one row).
    pub fn page_down(&mut self)
        ensures
            final(self).shows(
                old(self).lines_spec(),
                old(self).width_spec(),
                old(self).height_spec(),
                scroll_target(
                    old(self).offset_spec(),
                    (if old(self).height_spec() >= 1 {
                        old(self).height_spec()
                    } else {
                        1
                    }) as isize as int,
                ),
            ),
    {
        let h = if self.height >= 1 {
            self.height
        } else {
            1
        };
        self.scroll_by(h as isize);
    }

    /// Up by one viewport (at least one row). A height whose `isize` value
    /// is `isize::MIN` cannot be negated and is left out.
    pub fn page_up(&mut self)
        requires
            (if old(self).height_spec() >= 1 {
                old(self).height_spec()
            } else {
                1
            }) as isize != isize::MIN,
        ensures
            final(self).shows(
                old(self).lines_spec(),
                old(self).width_spec(),
                old(self).height_spec(),
                scroll_target(
                    old(self).offset_spec(),
                    -((if old(self).height_spec() >= 1 {
                        old(self).height_spec()
                    } else {
                        1
                    }) as isize as int),
                ),
            ),
    {
        let h = if self.height >= 1 {
            self.height
        } else {
            1
        };
        let d = h as isize;
        self.scroll_by(-d);
    }

    pub fn scroll_to_top(&mut self)
        ensures
            final(self).shows(
                old(self).lines_spec(),
                old(self).width_spec(),
                old(self).height_spec(),
                0,
            ),
    {
        proof {
            use_type_invariant(&*self);
        }
        self.offset = 0;
    }

    pub fn scroll_to_bottom(&mut self)
        ensures
            final(self).shows(
                old(self).lines_spec(),
                old(self).width_spec(),
                old(self).height_spec(),
                old(self).max_offset_spec(),
            ),
    {
        proof {
            use_type_invariant(&*self);
        }
        let m = self.max_offset();
        self.offset = m;
    }

    pub fn is_at_top(&self) -> (r: bool)
        ensures
            r == (self.offset_spec() == 0),
    {
        self.offset == 0
    }

    pub fn is_at_bottom(&self) -> (r: bool)
        ensures
            r == (self.offset_spec() >= self.max_offset_spec()),
    {
        let m = self.max_offset();
        self.offset >= m
    }

    /// How far the view is scrolled, as `(offset, max_offset)`: the fraction
    /// scrolled is `offset / max_offset`, and zero when `max_offset` is zero.
    pub fn scroll_position(&self) -> (r: (usize, usize))
        ensures
            r.0 == self.offset_spec(),
            r.1 == self.max_offset_spec(),
            r.0 <= r.1,
    {
        let m = self.max_offset();
        (self.offset(), m)
    }

    /// Scroll so that the first row of logical line `line` is at the top
    /// (clamped); no change when no row came from that line.
    pub fn scroll_to_source_line(&mut self, line: usize)
        ensures
            ({
                let i = first_row_of(old(self).rows_spec(), line as int, 0);
                final(self).shows(
                    old(self).lines_spec(),
                    old(self).width_spec(),
                    old(self).height_spec(),
                    if i < old(self).rows_spec().len() {
                        i
                    } else {
                        old(self).offset_spec()
                    },
                )
            }),
    {
        proof {
            use_type_invariant(&*self);
        }
        let ghost rows = self.rows_spec();
        let mut i: usize = 0;
        while i < self.wrapped.len() && self.wrapped[i].source_line != line
            invariant
                rows == wrapped_model(self.wrapped@),
                i <= self.wrapped@.len(),
                first_row_of(rows, line as int, 0) == first_row_of(rows, line as int, i as int),
            decreases self.wrapped@.len() - i,
        {
            assert(rows[i as int] == self.wrapped@[i as int]@);
            i += 1;
        }
        if i < self.wrapped.len() {
            assert(rows[i as int] == self.wrapped@[i as int]@);
            self.scroll_to(i);
        }
    }
}

// ---------------------------------------------------------------------------
// Laws.
// ---------------------------------------------------------------------------

/// Some row of `rows` came from logical line `l`.
pub open spec fn has_row_of(rows: Seq<WrappedModel>, l: int) -> bool {
    exists|i: int| 0 <= i < rows.len() && (#[trigger] rows[i]).source_line == l
}

/// Every row of `rows` came from logical line `src`.
pub open spec fn all_from(rows: Seq<WrappedModel>, src: int) -> bool {
    forall|i: int| 0 <= i < rows.len() ==> (#[trigger] rows[i]).source_line == src
}

/// Wrapping a cluster only appends rows of line `src`.
proof fn lemma_grapheme_appends(st: WrapState, g: Seq<char>, width: int, style: u8, src: int)
    ensures
        st.out.len() <= wrap_grapheme(st, g, width, style, src).out.len(),
        wrap_grapheme(st, g, width, style, src).out.take(st.out.len() as int) == st.out,
        all_from(wrap_grapheme(st, g, width, style, src).out.skip(st.out.len() as int), src),
{
    let r = wrap_grapheme(st, g, width, style, src);
    assert(r.out.take(st.out.len() as int) =~= st.out);
}

proof fn lemma_graphemes_append(st: WrapState, gs: Seq<Seq<char>>, width: int, style: u8, src: int)
    ensures
        st.out.len() <= wrap_graphemes(st, gs, width, style, src).out.len(),
        wrap_graphemes(st, gs, width, style, src).out.take(st.out.len() as int) == st.out,
        all_from(wrap_graphemes(st, gs, width, style, src).out.skip(st.out.len() as int), src),
    decreases gs.len(),
{
    if gs.len() > 0 {
        let s1 = wrap_grapheme(st, gs[0], width, style, src);
        lemma_grapheme_appends(st, gs[0], width, style, src);
        lemma_graphemes_append(s1, gs.skip(1), width, style, src);
        let r = wrap_graphemes(s1, gs.skip(1), width, style, src);
        assert(r.out.take(st.out.len() as int) =~= s1.out.take(st.out.len() as int));
        assert forall|i: int| 0 <= i < r.out.skip(st.out.len() as int).len() implies (#[trigger] r.out.skip(
            st.out.len() as int,
        )[i]).source_line == src by {
            let j = i + st.out.len();
            if j < s1.out.len() {
                assert(r.out[j] == s1.out[j]);
                assert(s1.out.skip(st.out.len() as int)[i] == s1.out[j]);
            } else {
                assert(r.out.skip(s1.out.len() as int)[j - s1.out.len()] == r.out[j]);
            }
        }
    } else {
        assert(st.out.take(st.out.len() as int) =~= st.out);
    }
}

proof fn lemma_spans_append(st: WrapState, spans: Seq<SpanModel>, width: int, src: int)
    ensures
        st.out.len() <= wrap_span_seq(st, spans, width, src).out.len(),
        wrap_span_seq(st, spans, width, src).out.take(st.out.len() as int) == st.out,
        all_from(wrap_span_seq(st, spans, width, src).out.skip(st.out.len() as int), src),
    decreases spans.len(),
{
    if spans.len() > 0 {
        let st0 = WrapState { chunk: Seq::empty(), ..st };
        lemma_graphemes_append(st0, grapheme_split(spans[0].text), width, spans[0].style, src);
        let s1 = wrap_span(st, spans[0], width, src);
        lemma_spans_append(s1, spans.skip(1), width, src);
        let r = wrap_span_seq(s1, spans.skip(1), width, src);
        assert(r.out.take(st.out.len() as int) =~= s1.out.take(st.out.len() as int));
        assert forall|i: int| 0 <= i < r.out.skip(st.out.len() as int).len() implies (#[trigger] r.out.skip(
            st.out.len() as int,
        )[i]).source_line == src by {
            let j = i + st.out.len();
            if j < s1.out.len() {
                assert(r.out[j] == s1.out[j]);
                assert(s1.out.skip(st.out.len() as int)[i] == s1.out[j]);
            } else {
                assert(r.out.skip(s1.out.len() as int)[j - s1.out.len()] == r.out[j]);
            }
        }
    } else {
        assert(st.out.take(st.out.len() as int) =~= st.out);
    }
}

/// Wrapping line `src` after rows of earlier lines appends at least one row,
/// and only rows of line `src`.
proof fn lemma_line_appends(out: Seq<WrappedModel>, spans: Seq<SpanModel>, width: int, src: int)
    requires
        forall|i: int| 0 <= i < out.len() ==> (#[trigger] out[i]).source_line < src,
    ensures
        out.len() < wrap_line(out, spans, width, src).len(),
        wrap_line(out, spans, width, src).take(out.len() as int) == out,
        all_from(wrap_line(out, spans, width, src).skip(out.len() as int), src),
{
    let r = wrap_line(out, spans, width, src);
    if width == 0 {
        assert(r.take(out.len() as int) =~= out);
    } else {
        let st0 = WrapState { out, current: Seq::empty(), chunk: Seq::empty(), used: 0 };
        lemma_spans_append(st0, spans, width, src);
        let st = wrap_span_seq(st0, spans, width, src);
        if st.out.len() > out.len() {
            assert(st.out.skip(out.len() as int)[st.out.len() - 1 - out.len()] == st.out.last());
        } else {
            assert(st.out =~= st.out.take(out.len() as int));
            if out.len() > 0 {
                assert(out[out.len() - 1].source_line < src);
            }
        }
        if r != st.out {
            assert(r.take(out.len() as int) =~= st.out.take(out.len() as int));
            assert forall|i: int| 0 <= i < r.skip(out.len() as int).len() implies (#[trigger] r.skip(
                out.len() as int,
            )[i]).source_line == src by {
                let j = i + out.len();
                if j < st.out.len() {
                    assert(st.out.skip(out.len() as int)[i] == st.out[j]);
                }
            }
        }
    }
}

/// The rows of the first `n` lines, each row naming its line, in order.
proof fn lemma_wrap_upto(lines: Seq<Seq<SpanModel>>, width: int, n: int)
    requires
        0 <= n <= lines.len(),
    ensures
        forall|i: int| 0 <= i < wrap_upto(lines, width, n).len() ==> 0 <= (#[trigger] wrap_upto(lines, width, n)[i]).source_line < n,
        forall|i: int, j: int| 0 <= i < j < wrap_upto(lines, width, n).len() ==> (#[trigger] wrap_upto(lines, width, n)[i]).source_line <= (#[trigger] wrap_upto(lines, width, n)[j]).source_line,
        forall|l: int| 0 <= l < n ==> #[trigger] has_row_of(wrap_upto(lines, width, n), l),
    decreases n,
{
    if n > 0 {
        lemma_wrap_upto(lines, width, n - 1);
        let prev = wrap_upto(lines, width, n - 1);
        lemma_line_appends(prev, lines[n - 1], width, n - 1);
        let cur = wrap_upto(lines, width, n);
        assert(cur == wrap_line(prev, lines[n - 1], width, n - 1));
        assert forall|i: int| 0 <= i < cur.len() implies 0 <= (#[trigger] cur[i]).source_line < n by {
            if i < prev.len() {
                assert(cur.take(prev.len() as int)[i] == cur[i]);
            } else {
                assert(cur.skip(prev.len() as int)[i - prev.len()] == cur[i]);
            }
        }
        assert forall|i: int, j: int| 0 <= i < j < cur.len() implies (#[trigger] cur[i]).source_line
            <= (#[trigger] cur[j]).source_line by {
            if i < prev.len() {
                assert(cur.take(prev.len() as int)[i] == cur[i]);
            } else {
                assert(cur.skip(prev.len() as int)[i - prev.len()] == cur[i]);
            }
            if j < prev.len() {
                assert(cur.take(prev.len() as int)[j] == cur[j]);
            } else {
                assert(cur.skip(prev.len() as int)[j - prev.len()] == cur[j]);
            }
        }
        assert forall|l: int| 0 <= l < n implies #[trigger] has_row_of(cur, l) by {
            if l < n - 1 {
                assert(has_row_of(prev, l));
                let i = choose|i: int| 0 <= i < prev.len() && (#[trigger] prev[i]).source_line == l;
                assert(cur.take(prev.len() as int)[i] == cur[i]);
                assert(cur[i].source_line == l);
            } else {
                assert(cur.skip(prev.len() as int)[0] == cur[prev.len() as int]);
                assert(cur[prev.len() as int].source_line == l);
            }
        }
    }
}

/// Every visual row names the logical line it came from; the rows come in
/// line order; and every logical line, an empty one too, has at least one
/// row.
pub proof fn law_rows_follow_the_lines(lines: Seq<Seq<SpanModel>>, width: int)
    ensures
        forall|i: int| 0 <= i < wrap_all(lines, width).len() ==> 0 <= (#[trigger] wrap_all(lines, width)[i]).source_line < lines.len(),
        forall|i: int, j: int| 0 <= i < j < wrap_all(lines, width).len() ==> (#[trigger] wrap_all(lines, width)[i]).source_line <= (#[trigger] wrap_all(lines, width)[j]).source_line,
        forall|l: int| 0 <= l < lines.len() ==> #[trigger] has_row_of(wrap_all(lines, width), l),
{
    lemma_wrap_upto(lines, width, lines.len() as int);
}

/// The text of rows, in order.
pub open spec fn rows_text(rs: Seq<WrappedModel>) -> Seq<char>
    decreases rs.len(),
{
    if rs.len() == 0 {
        Seq::empty()
    } else {
        rows_text(rs.drop_last()) + spans_text(rs.last().spans)
    }
}

/// The text wrapping has taken in so far.
pub open spec fn wrap_text(st: WrapState) -> Seq<char> {
    rows_text(st.out) + spans_text(st.current) + st.chunk
}

proof fn lemma_spans_text_push(ss: Seq<SpanModel>, sp: SpanModel)
    ensures
        spans_text(ss.push(sp)) == spans_text(ss) + sp.text,
{
    assert(ss.push(sp).drop_last() =~= ss);
}

proof fn lemma_spans_text_first(ss: Seq<SpanModel>)
    requires
        ss.len() > 0,
    ensures
        spans_text(ss) == ss[0].text + spans_text(ss.skip(1)),
    decreases ss.len(),
{
    if ss.len() == 1 {
        assert(ss.drop_last() =~= Seq::<SpanModel>::empty());
        assert(ss.skip(1) =~= Seq::<SpanModel>::empty());
        assert(spans_text(ss) =~= ss[0].text + spans_text(ss.skip(1)));
    } else {
        lemma_spans_text_first(ss.drop_last());
        assert(ss.drop_last().skip(1) =~= ss.skip(1).drop_last());
        assert(ss.skip(1).last() == ss.last());
        assert(spans_text(ss) =~= ss[0].text + spans_text(ss.skip(1)));
    }
}

proof fn lemma_close_chunk_text(current: Seq<SpanModel>, chunk: Seq<char>, style: u8)
    ensures
        spans_text(close_chunk(current, chunk, style)) == spans_text(current) + chunk,
{
    if chunk.len() > 0 {
        lemma_spans_text_push(current, SpanModel { text: chunk, style });
    } else {
        assert(spans_text(current) + chunk =~= spans_text(current));
    }
}

proof fn lemma_wrap_graphemes_text(st: WrapState, gs: Seq<Seq<char>>, width: int, style: u8, src: int)
    ensures
        wrap_text(wrap_graphemes(st, gs, width, style, src)) == wrap_text(st) + gs.flatten(),
    decreases gs.len(),
{
    if gs.len() > 0 {
        let s2 = if st.used == width {
            flush(st, style, src)
        } else {
            st
        };
        if st.used == width {
            let row = WrappedModel { spans: close_chunk(st.current, st.chunk, style), source_line: src };
            assert(s2.out.drop_last() =~= st.out);
            lemma_close_chunk_text(st.current, st.chunk, style);
            assert(spans_text(Seq::<SpanModel>::empty()) == Seq::<char>::empty());
            assert(wrap_text(s2) =~= wrap_text(st));
        }
        let st1 = wrap_grapheme(st, gs[0], width, style, src);
        assert(wrap_text(st1) =~= wrap_text(st) + gs[0]);
        lemma_wrap_graphemes_text(st1, gs.skip(1), width, style, src);
        assert(gs.skip(1) =~= gs.drop_first());
        assert(wrap_text(st) + gs.flatten() =~= wrap_text(st) + gs[0] + gs.drop_first().flatten());
    } else {
        assert(wrap_text(st) + gs.flatten() =~= wrap_text(st));
    }
}

proof fn lemma_wrap_span_seq_text(st: WrapState, spans: Seq<SpanModel>, width: int, src: int)
    requires
        st.chunk.len() == 0,
        forall|i: int| 0 <= i < spans.len() ==> #[trigger] grapheme_split(spans[i].text).flatten() == spans[i].text,
    ensures
        wrap_text(wrap_span_seq(st, spans, width, src)) == wrap_text(st) + spans_text(spans),
        wrap_span_seq(st, spans, width, src).chunk.len() == 0,
    decreases spans.len(),
{
    if spans.len() > 0 {
        let sp = spans[0];
        let st0 = WrapState { chunk: Seq::empty(), ..st };
        assert(wrap_text(st0) == wrap_text(st));
        let st1 = wrap_graphemes(st0, grapheme_split(sp.text), width, sp.style, src);
        lemma_wrap_graphemes_text(st0, grapheme_split(sp.text), width, sp.style, src);
        let st2 = wrap_span(st, sp, width, src);
        lemma_close_chunk_text(st1.current, st1.chunk, sp.style);
        assert(wrap_text(st2) =~= wrap_text(st1));
        assert(wrap_text(st2) == wrap_text(st) + sp.text);
        assert forall|i: int| 0 <= i < spans.skip(1).len() implies #[trigger] grapheme_split(spans.skip(1)[i].text).flatten()
            == spans.skip(1)[i].text by {
            assert(spans.skip(1)[i] == spans[i + 1]);
        }
        lemma_wrap_span_seq_text(st2, spans.skip(1), width, src);
        lemma_spans_text_first(spans);
        assert(wrap_text(st) + spans_text(spans) =~= wrap_text(st) + sp.text + spans_text(spans.skip(1)));
    } else {
        assert(wrap_text(st) + spans_text(spans) =~= wrap_text(st));
    }
}

/// Wrapping keeps the text: the rows a logical line wraps into spell out its
/// spans' text, in order, whatever the width (given that each span's
/// clusters spell out its text, as grapheme segmentation does).
pub proof fn law_wrapping_keeps_the_text(out: Seq<WrappedModel>, spans: Seq<SpanModel>, width: int, src: int)
    requires
        forall|i: int| 0 <= i < spans.len() ==> #[trigger] grapheme_split(spans[i].text).flatten() == spans[i].text,
    ensures
        rows_text(wrap_line(out, spans, width, src)) == rows_text(out) + spans_text(spans),
{
    let r = wrap_line(out, spans, width, src);
    if width == 0 {
        assert(r.drop_last() =~= out);
    } else {
        let st0 = WrapState { out, current: Seq::empty(), chunk: Seq::empty(), used: 0 };
        lemma_wrap_span_seq_text(st0, spans, width, src);
        let st = wrap_span_seq(st0, spans, width, src);
        assert(wrap_text(st0) =~= rows_text(out));
        if st.current.len() > 0 || !(st.out.len() > 0 && st.out.last().source_line == src) {
            assert(r.drop_last() =~= st.out);
            assert(rows_text(r) =~= rows_text(st.out) + spans_text(st.current));
            assert(wrap_text(st) =~= rows_text(st.out) + spans_text(st.current));
        } else {
            assert(wrap_text(st) =~= rows_text(st.out));
        }
    }
}

/// The grapheme clusters of a line's spans, span after span.
pub open spec fn line_clusters(spans: Seq<SpanModel>) -> Seq<Seq<char>>
    decreases spans.len(),
{
    if spans.len() == 0 {
        Seq::empty()
    } else {
        grapheme_split(spans[0].text) + line_clusters(spans.skip(1))
    }
}

/// Row `k` of `rows` holds the clusters `p[cuts[k]..cuts[k + 1]]` of line
/// `src`.
pub open spec fn row_holds(rows: Seq<WrappedModel>, p: Seq<Seq<char>>, cuts: Seq<int>, src: int, k: int) -> bool {
    &&& 0 <= cuts[k] <= cuts[k + 1] <= p.len()
    &&& spans_text(rows[k].spans) == p.subrange(cuts[k], cuts[k + 1]).flatten()
    &&& rows[k].source_line == src
}

/// Wrapping part of line `src` into `st`: after the rows `out0` of earlier
/// lines, every full row holds the next `w` of the clusters `p` read so far,
/// and the row being filled holds the `used` clusters after them.
pub open spec fn wrap_inv(
    st: WrapState,
    out0: Seq<WrappedModel>,
    src: int,
    w: int,
    p: Seq<Seq<char>>,
    cuts: Seq<int>,
) -> bool {
    let rs = st.out.skip(out0.len() as int);
    &&& out0.len() <= st.out.len()
    &&& st.out.take(out0.len() as int) == out0
    &&& cuts.len() == rs.len() + 1
    &&& cuts[0] == 0
    &&& forall|k: int| 0 <= k < rs.len() ==> #[trigger] row_holds(rs, p, cuts, src, k) && cuts[k + 1] == cuts[k] + w
    &&& cuts.last() + st.used == p.len()
    &&& 0 <= cuts.last()
    &&& 0 <= st.used <= w
    &&& spans_text(st.current) + st.chunk == p.subrange(cuts.last(), p.len() as int).flatten()
    &&& rs.len() > 0 ==> st.used > 0
    &&& forall|i: int| 0 <= i < p.len() ==> (#[trigger] p[i]).len() > 0
}

proof fn lemma_push_subrange(p: Seq<Seq<char>>, g: Seq<char>, a: int)
    requires
        0 <= a <= p.len(),
    ensures
        p.push(g).subrange(a, p.len() as int + 1).flatten() == p.subrange(a, p.len() as int).flatten() + g,
{
    assert(p.push(g).subrange(a, p.len() as int + 1) =~= p.subrange(a, p.len() as int).push(g));
    p.subrange(a, p.len() as int).lemma_flatten_push(g);
}

proof fn lemma_flatten_nonempty(q: Seq<Seq<char>>)
    requires
        q.len() > 0,
        forall|i: int| 0 <= i < q.len() ==> (#[trigger] q[i]).len() > 0,
    ensures
        q.flatten().len() > 0,
{
    assert(q.flatten() == q.first() + q.drop_first().flatten());
    assert(q[0].len() > 0);
}

proof fn lemma_wrap_one(st: WrapState, g: Seq<char>, w: int, style: u8, src: int, out0: Seq<WrappedModel>, p: Seq<Seq<char>>, cuts: Seq<int>) -> (c2: Seq<int>)
    requires
        w > 0,
        g.len() > 0,
        wrap_inv(st, out0, src, w, p, cuts),
    ensures
        wrap_inv(wrap_grapheme(st, g, w, style, src), out0, src, w, p.push(g), c2),
{
    let p2 = p.push(g);
    let rs = st.out.skip(out0.len() as int);
    let st2 = wrap_grapheme(st, g, w, style, src);
    let rs2 = st2.out.skip(out0.len() as int);
    assert forall|i: int| 0 <= i < p2.len() implies (#[trigger] p2[i]).len() > 0 by {
        if i < p.len() {
            assert(p2[i] == p[i]);
        }
    }
    if st.used == w {
        let row = WrappedModel { spans: close_chunk(st.current, st.chunk, style), source_line: src };
        let c2 = cuts.push(p.len() as int);
        assert(st2.out == st.out.push(row));
        assert(rs2 =~= rs.push(row));
        assert(st2.out.take(out0.len() as int) =~= st.out.take(out0.len() as int));
        lemma_close_chunk_text(st.current, st.chunk, style);
        assert forall|k: int| 0 <= k < rs2.len() implies #[trigger] row_holds(rs2, p2, c2, src, k) && c2[k + 1]
            == c2[k] + w by {
            assert(c2[k] == cuts[k]);
            if k < rs.len() {
                assert(row_holds(rs, p, cuts, src, k));
                assert(rs2[k] == rs[k]);
                assert(c2[k + 1] == cuts[k + 1]);
                assert(p2.subrange(cuts[k], cuts[k + 1]) =~= p.subrange(cuts[k], cuts[k + 1]));
            } else {
                assert(rs2[k] == row);
                assert(c2[k + 1] == p.len());
                assert(p2.subrange(cuts[k], p.len() as int) =~= p.subrange(cuts[k], p.len() as int));
            }
        }
        assert(spans_text(Seq::<SpanModel>::empty()) == Seq::<char>::empty());
        lemma_push_subrange(p, g, p.len() as int);
        assert(p.subrange(p.len() as int, p.len() as int) =~= Seq::<Seq<char>>::empty());
        assert(Seq::<Seq<char>>::empty().flatten() =~= Seq::<char>::empty());
        assert(spans_text(st2.current) + st2.chunk =~= g);
        c2
    } else {
        assert(st2.out == st.out);
        lemma_push_subrange(p, g, cuts.last());
        assert forall|k: int| 0 <= k < rs2.len() implies #[trigger] row_holds(rs2, p2, cuts, src, k) && cuts[k + 1]
            == cuts[k] + w by {
            assert(row_holds(rs, p, cuts, src, k));
            assert(p2.subrange(cuts[k], cuts[k + 1]) =~= p.subrange(cuts[k], cuts[k + 1]));
        }
        assert(spans_text(st2.current) + st2.chunk =~= spans_text(st.current) + st.chunk + g);
        cuts
    }
}

proof fn lemma_wrap_many(st: WrapState, gs: Seq<Seq<char>>, w: int, style: u8, src: int, out0: Seq<WrappedModel>, p: Seq<Seq<char>>, cuts: Seq<int>) -> (c2: Seq<int>)
    requires
        w > 0,
        forall|i: int| 0 <= i < gs.len() ==> (#[trigger] gs[i]).len() > 0,
        wrap_inv(st, out0, src, w, p, cuts),
    ensures
        wrap_inv(wrap_graphemes(st, gs, w, style, src), out0, src, w, p + gs, c2),
    decreases gs.len(),
{
    if gs.len() == 0 {
        assert(p + gs =~= p);
        cuts
    } else {
        let c1 = lemma_wrap_one(st, gs[0], w, style, src, out0, p, cuts);
        assert forall|i: int| 0 <= i < gs.skip(1).len() implies (#[trigger] gs.skip(1)[i]).len() > 0 by {
            assert(gs.skip(1)[i] == gs[i + 1]);
        }
        let c2 = lemma_wrap_many(wrap_grapheme(st, gs[0], w, style, src), gs.skip(1), w, style, src, out0, p.push(gs[0]), c1);
        assert(p.push(gs[0]) + gs.skip(1) =~= p + gs);
        c2
    }
}

proof fn lemma_wrap_spans_inv(st: WrapState, spans: Seq<SpanModel>, w: int, src: int, out0: Seq<WrappedModel>, p: Seq<Seq<char>>, cuts: Seq<int>) -> (c2: Seq<int>)
    requires
        w > 0,
        st.chunk.len() == 0,
        forall|i: int, k: int| 0 <= i < spans.len() && 0 <= k < grapheme_split(spans[i].text).len() ==> (#[trigger] grapheme_split(spans[i].text)[k]).len() > 0,
        wrap_inv(st, out0, src, w, p, cuts),
    ensures
        wrap_inv(wrap_span_seq(st, spans, w, src), out0, src, w, p + line_clusters(spans), c2),
        wrap_span_seq(st, spans, w, src).chunk.len() == 0,
    decreases spans.len(),
{
    if spans.len() == 0 {
        assert(p + line_clusters(spans) =~= p);
        cuts
    } else {
        let sp = spans[0];
        let gs = grapheme_split(sp.text);
        let st0 = WrapState { chunk: Seq::empty(), ..st };
        assert(st.chunk =~= Seq::<char>::empty());
        assert(wrap_inv(st0, out0, src, w, p, cuts)) by {
            assert(st0.out == st.out);
        }
        assert forall|i: int| 0 <= i < gs.len() implies (#[trigger] gs[i]).len() > 0 by {
            assert(grapheme_split(spans[0].text)[i].len() > 0);
        }
        let c1 = lemma_wrap_many(st0, gs, w, sp.style, src, out0, p, cuts);
        let st1 = wrap_graphemes(st0, gs, w, sp.style, src);
        let st2 = wrap_span(st, sp, w, src);
        lemma_close_chunk_text(st1.current, st1.chunk, sp.style);
        assert(spans_text(st2.current) + st2.chunk =~= spans_text(st1.current) + st1.chunk);
        assert(wrap_inv(st2, out0, src, w, p + gs, c1)) by {
            assert(st2.out == st1.out);
            assert(st2.used == st1.used);
        }
        assert forall|i: int, k: int| 0 <= i < spans.skip(1).len() && 0 <= k < grapheme_split(spans.skip(1)[i].text).len()
            implies (#[trigger] grapheme_split(spans.skip(1)[i].text)[k]).len() > 0 by {
            assert(spans.skip(1)[i] == spans[i + 1]);
        }
        let c2 = lemma_wrap_spans_inv(st2, spans.skip(1), w, src, out0, p + gs, c1);
        assert(p + gs + line_clusters(spans.skip(1)) =~= p + line_clusters(spans));
        c2
    }
}

/// The rows that wrapping line `src` (spans `spans`) at `width` adds after
/// `out` take the line's clusters in order at the cut points `cuts`: each
/// row holds at most `width` clusters, every row but the last exactly
/// `width`, and none is empty unless the line is.
pub open spec fn wraps_within(out: Seq<WrappedModel>, spans: Seq<SpanModel>, width: int, src: int, cuts: Seq<int>) -> bool {
    let gs = line_clusters(spans);
    let r = wrap_line(out, spans, width, src);
    let rows = r.skip(out.len() as int);
    &&& out.len() <= r.len()
    &&& r.take(out.len() as int) == out
    &&& rows.len() >= 1
    &&& cuts.len() == rows.len() + 1
    &&& cuts[0] == 0
    &&& cuts.last() == gs.len()
    &&& forall|k: int| 0 <= k < rows.len() ==> #[trigger] row_holds(rows, gs, cuts, src, k)
        && cuts[k + 1] <= cuts[k] + width
        && (k + 1 < rows.len() ==> cuts[k + 1] == cuts[k] + width)
        && (gs.len() > 0 ==> cuts[k] < cuts[k + 1])
}

/// At a width above zero a line wraps into rows of at most `width` grapheme
/// clusters, counted over all of its spans together: the rows take the
/// line's clusters in order, `width` at a time, the last row the rest (an
/// empty line makes one empty row). So `"abc"` then `"def"` at width 4 make
/// `"abcd"` and `"ef"`. (Given that each span's clusters spell it out and are
/// not empty, as grapheme segmentation gives them.)
pub proof fn law_rows_hold_at_most_width_clusters(out: Seq<WrappedModel>, spans: Seq<SpanModel>, width: int, src: int) -> (cuts: Seq<int>)
    requires
        width > 0,
        forall|i: int| 0 <= i < spans.len() ==> #[trigger] grapheme_split(spans[i].text).flatten() == spans[i].text,
        forall|i: int, k: int| 0 <= i < spans.len() && 0 <= k < grapheme_split(spans[i].text).len() ==> (#[trigger] grapheme_split(spans[i].text)[k]).len() > 0,
        out.len() == 0 || out.last().source_line != src,
    ensures
        wraps_within(out, spans, width, src, cuts),
{
    let gs = line_clusters(spans);
    let st0 = WrapState { out, current: Seq::empty(), chunk: Seq::empty(), used: 0 };
    let c0 = seq![0int];
    assert(out.skip(out.len() as int) =~= Seq::<WrappedModel>::empty());
    assert(out.take(out.len() as int) =~= out);
    assert(Seq::<Seq<char>>::empty().subrange(0, 0) =~= Seq::<Seq<char>>::empty());
    assert(Seq::<Seq<char>>::empty().flatten() =~= Seq::<char>::empty());
    assert(wrap_inv(st0, out, src, width, Seq::empty(), c0));
    let c1 = lemma_wrap_spans_inv(st0, spans, width, src, out, Seq::empty(), c0);
    assert(Seq::<Seq<char>>::empty() + gs =~= gs);
    let st = wrap_span_seq(st0, spans, width, src);
    let rs = st.out.skip(out.len() as int);
    let r = wrap_line(out, spans, width, src);
    // The row being filled is emitted: it has text, or it is the line's first row.
    if rs.len() > 0 {
        assert(st.used > 0);
        let tail = gs.subrange(c1.last(), gs.len() as int);
        assert(tail.len() > 0);
        assert forall|i: int| 0 <= i < tail.len() implies (#[trigger] tail[i]).len() > 0 by {
            assert(tail[i] == gs[c1.last() + i]);
        }
        lemma_flatten_nonempty(tail);
        assert(st.current.len() > 0);
    } else {
        assert(st.out =~= out);
    }
    let row = WrappedModel { spans: st.current, source_line: src };
    assert(r == st.out.push(row));
    let rows = r.skip(out.len() as int);
    assert(rows =~= rs.push(row));
    assert(r.take(out.len() as int) =~= st.out.take(out.len() as int));
    let cuts = c1.push(gs.len() as int);
    assert forall|k: int| 0 <= k < rows.len() implies #[trigger] row_holds(rows, gs, cuts, src, k) && cuts[k + 1]
        <= cuts[k] + width && (k + 1 < rows.len() ==> cuts[k + 1] == cuts[k] + width) && (gs.len() > 0
        ==> cuts[k] < cuts[k + 1]) by {
        assert(cuts[k] == c1[k]);
        if k < rs.len() {
            assert(row_holds(rs, gs, c1, src, k));
            assert(rows[k] == rs[k]);
            assert(cuts[k + 1] == c1[k + 1]);
        } else {
            assert(rows[k] == row);
            assert(spans_text(row.spans) =~= spans_text(st.current) + st.chunk);
            if gs.len() > 0 && rs.len() == 0 {
                assert(c1.last() == 0);
            }
        }
    }
    assert(wraps_within(out, spans, width, src, cuts));
    cuts
}

impl Default for TextView {
    fn default() -> (r: Self)
        ensures
            r.shows(Seq::empty(), 0, 0, 0),
    {
        TextView::new()
    }
}

} // verus!
