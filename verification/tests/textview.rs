use egaku::{Span, TextView, WrappedLine};

/// The fraction scrolled, `offset / max_offset`, or zero when nothing scrolls.
fn scroll_fraction(v: &TextView) -> f32 {
    let (offset, max) = v.scroll_position();
    if max == 0 {
        0.0
    } else {
        offset as f32 / max as f32
    }
}

#[test]
fn wraps_at_the_viewport_width() {
    let v = TextView::from_text("abcdefghij", 4, 10);
    assert_eq!(v.total_rows(), 3);
    assert_eq!(v.wrapped()[0].text(), "abcd");
    assert_eq!(v.wrapped()[2].text(), "ij");
}

/// Caching the wrap and forgetting to invalidate on resize is how a
/// document renders with the old wrap under a fresh scrollbar.
#[test]
fn resize_rewraps_rather_than_serving_a_stale_layout() {
    let mut v = TextView::from_text("abcdefghij", 4, 10);
    assert_eq!(v.total_rows(), 3);
    v.set_width(10);
    assert_eq!(v.total_rows(), 1);
    v.set_width(2);
    assert_eq!(v.total_rows(), 5);
}

/// An empty logical line occupies a visual row — otherwise the paragraph
/// gaps in a PR body silently close up.
#[test]
fn blank_lines_keep_their_row() {
    let v = TextView::from_text("a\n\nb", 10, 10);
    assert_eq!(v.total_rows(), 3);
    assert_eq!(v.wrapped()[1].text(), "");
}

/// Both cases in one: a line that wraps to several rows, and one that
/// fits in a single row. Every visual row must name the logical line it
/// came from, or "jump to line N" and comment anchoring land in the
/// wrong place.
#[test]
fn every_wrapped_row_maps_back_to_its_source_line() {
    //  line 0: "abcdefghij" at width 4 → abcd / efgh / ij   (3 rows)
    //  line 1: "hi"         at width 4 → hi                 (1 row)
    let v = TextView::from_text("abcdefghij\nhi", 4, 10);
    let srcs: Vec<usize> = v.wrapped().iter().map(WrappedLine::source_line).collect();
    assert_eq!(srcs, vec![0, 0, 0, 1]);

    //  and a two-row second line maps both of its rows back to line 1
    let v2 = TextView::from_text("abcdefghij\nshort", 4, 10);
    let srcs2: Vec<usize> = v2.wrapped().iter().map(WrappedLine::source_line).collect();
    assert_eq!(srcs2, vec![0, 0, 0, 1, 1], "\"short\" is 5 wide — it wraps too");
}

/// Wrapping splits a span at the wrap point and BOTH halves keep the
/// style — losing it on the continuation is the classic wrap bug.
#[test]
fn wrapping_preserves_style_across_the_split() {
    let mut v = TextView::new();
    v.set_width(3);
    v.set_height(10);
    v.set_lines(vec![vec![Span::new("abcdef", 7)]]);
    assert_eq!(v.total_rows(), 2);
    assert_eq!(v.wrapped()[0].spans()[0].style(), 7);
    assert_eq!(v.wrapped()[1].spans()[0].style(), 7);
    assert_eq!(v.wrapped()[1].spans()[0].text(), "def");
}

#[test]
fn multiple_spans_on_one_row_keep_their_own_styles() {
    let mut v = TextView::new();
    v.set_width(10);
    v.set_height(10);
    v.set_lines(vec![vec![Span::new("ab", 1), Span::new("cd", 2)]]);
    assert_eq!(v.total_rows(), 1);
    let s = v.wrapped()[0].spans();
    assert_eq!((s[0].text(), s[0].style()), ("ab", 1));
    assert_eq!((s[1].text(), s[1].style()), ("cd", 2));
}

/// A wrap must never land inside a grapheme.
#[test]
fn wrapping_counts_graphemes_not_bytes() {
    // Three graphemes, each multi-byte.
    let v = TextView::from_text("e\u{0301}e\u{0301}e\u{0301}", 2, 10);
    assert_eq!(v.total_rows(), 2);
    assert_eq!(v.wrapped()[0].width(), 2);
    assert_eq!(v.wrapped()[1].width(), 1);
}

/// A document shorter than its viewport must not scroll at all.
#[test]
fn a_short_document_does_not_scroll() {
    let mut v = TextView::from_text("a\nb", 10, 10);
    assert_eq!(v.max_offset(), 0);
    v.scroll_down();
    assert_eq!(v.offset(), 0);
    assert!(v.is_at_top() && v.is_at_bottom());
    assert_eq!(scroll_fraction(&v), 0.0, "no division by zero");
}

#[test]
fn scrolling_clamps_at_both_ends() {
    let mut v = TextView::from_text("1\n2\n3\n4\n5\n6", 10, 2);
    assert_eq!(v.max_offset(), 4);
    for _ in 0..50 {
        v.scroll_down();
    }
    assert_eq!(v.offset(), 4);
    assert!(v.is_at_bottom());
    for _ in 0..50 {
        v.scroll_up();
    }
    assert_eq!(v.offset(), 0);
}

#[test]
fn visible_returns_exactly_the_viewport() {
    let mut v = TextView::from_text("1\n2\n3\n4\n5", 10, 2);
    assert_eq!(v.visible().len(), 2);
    assert_eq!(v.visible()[0].text(), "1");
    v.scroll_to(3);
    assert_eq!(v.visible()[0].text(), "4");
    assert_eq!(v.visible().len(), 2);
}

/// Growing the viewport can leave the offset past the new maximum.
#[test]
fn growing_the_viewport_reclamps_the_offset() {
    let mut v = TextView::from_text("1\n2\n3\n4\n5\n6", 10, 2);
    v.scroll_to_bottom();
    assert_eq!(v.offset(), 4);
    v.set_height(6);
    assert_eq!(v.offset(), 0, "whole document fits — nothing to scroll");
}

#[test]
fn paging_moves_by_a_viewport() {
    let mut v = TextView::from_text("1\n2\n3\n4\n5\n6\n7\n8", 10, 3);
    v.page_down();
    assert_eq!(v.offset(), 3);
    v.page_up();
    assert_eq!(v.offset(), 0);
}

#[test]
fn scroll_to_source_line_finds_the_first_visual_row() {
    let mut v = TextView::from_text("aaaaaa\nbbbbbb\ncccccc", 3, 2);
    // each logical line wraps to 2 rows
    v.scroll_to_source_line(2);
    assert_eq!(v.visible()[0].text(), "ccc");
}

/// Width 0 means "not sized yet" — show something rather than nothing,
/// and above all do not loop.
#[test]
fn zero_width_emits_unwrapped_rows_and_terminates() {
    let v = TextView::from_text("abcdef\nghi", 0, 5);
    assert_eq!(v.total_rows(), 2);
    assert_eq!(v.wrapped()[0].text(), "abcdef");
}

#[test]
fn empty_document_is_safe() {
    let v = TextView::new();
    assert_eq!(v.total_rows(), 0);
    assert_eq!(v.visible().len(), 0);
    assert_eq!(v.max_offset(), 0);
    assert_eq!(scroll_fraction(&v), 0.0);
}

#[test]
fn crlf_normalizes_like_textarea() {
    assert_eq!(TextView::from_text("a\r\nb", 10, 10).total_rows(), 2);
}

#[test]
fn scroll_fraction_spans_zero_to_one() {
    let mut v = TextView::from_text("1\n2\n3\n4\n5", 10, 1);
    assert_eq!(scroll_fraction(&v), 0.0);
    v.scroll_to_bottom();
    assert!((scroll_fraction(&v) - 1.0).abs() < f32::EPSILON);
}
