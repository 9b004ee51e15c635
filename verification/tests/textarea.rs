use egaku::TextArea;

#[test]
fn starts_empty_with_one_row() {
    let t = TextArea::new();
    assert!(t.is_empty());
    assert_eq!(t.row_count(), 1);
    assert_eq!(t.cursor(), (0, 0));
    assert_eq!(t.text(), "");
}

#[test]
fn newline_splits_the_row_at_the_cursor() {
    let mut t = TextArea::with_text("abcd");
    t.move_to_row_start();
    t.move_right();
    t.move_right();
    t.insert_newline();
    assert_eq!(t.text(), "ab\ncd");
    assert_eq!(t.cursor(), (1, 0));
}

/// A caller routes Return straight to `insert_char` — no special case.
#[test]
fn insert_char_handles_newline() {
    let mut t = TextArea::new();
    t.insert_str("a\nb");
    assert_eq!(t.text(), "a\nb");
    assert_eq!(t.row_count(), 2);
}

/// Backspace at column 0 joins rows and leaves the cursor at the seam —
/// where the text used to end, which is where the operator is looking.
#[test]
fn backspace_at_row_start_joins_and_lands_on_the_seam() {
    let mut t = TextArea::with_text("ab\ncd");
    t.move_to_start();
    t.move_down();
    t.move_to_row_start();
    assert_eq!(t.cursor(), (1, 0));
    t.delete_back();
    assert_eq!(t.text(), "abcd");
    assert_eq!(t.cursor(), (0, 2), "cursor sits where the join happened");
}

#[test]
fn backspace_at_buffer_start_is_a_no_op() {
    let mut t = TextArea::with_text("abc");
    t.move_to_start();
    t.delete_back();
    assert_eq!(t.text(), "abc");
    assert_eq!(t.cursor(), (0, 0));
}

#[test]
fn delete_forward_at_row_end_pulls_the_next_row_up() {
    let mut t = TextArea::with_text("ab\ncd");
    t.move_to_start();
    t.move_to_row_end();
    t.delete_forward();
    assert_eq!(t.text(), "abcd");
}

/// The behaviour every editor has and whose absence is felt immediately:
/// travelling through a short row must not truncate the column.
#[test]
fn desired_column_survives_a_short_row() {
    let mut t = TextArea::with_text("aaaaaaaa\nbb\ncccccccc");
    t.move_to_start();
    for _ in 0..6 {
        t.move_right();
    }
    assert_eq!(t.cursor(), (0, 6));
    t.move_down();
    assert_eq!(t.cursor(), (1, 2), "clamped to the short row");
    t.move_down();
    assert_eq!(t.cursor(), (2, 6), "and RESTORED on the long one");
}

/// Horizontal movement is an explicit column choice, so it must forget
/// the remembered one — otherwise the cursor jumps somewhere the operator
/// did not put it on the next vertical move.
#[test]
fn horizontal_movement_forgets_the_desired_column() {
    let mut t = TextArea::with_text("aaaaaaaa\nbb\ncccccccc");
    t.move_to_start();
    for _ in 0..6 {
        t.move_right();
    }
    t.move_down(); // (1,2), desired = 6
    t.move_left(); // (1,1) — explicit choice
    t.move_down();
    assert_eq!(t.cursor(), (2, 1), "not 6");
}

#[test]
fn editing_also_forgets_the_desired_column() {
    let mut t = TextArea::with_text("aaaaaaaa\nbb\ncccccccc");
    t.move_to_start();
    for _ in 0..6 {
        t.move_right();
    }
    t.move_down();
    t.insert_char('X');
    t.move_down();
    assert_eq!(
        t.cursor(),
        (2, 3),
        "column follows the edit, not the memory"
    );
}

#[test]
fn horizontal_movement_wraps_between_rows() {
    let mut t = TextArea::with_text("ab\ncd");
    t.move_to_start();
    t.move_to_row_end();
    t.move_right();
    assert_eq!(t.cursor(), (1, 0), "past end-of-row goes to the next row");
    t.move_left();
    assert_eq!(t.cursor(), (0, 2), "and back to the previous row's end");
}

/// `é` as `e` + U+0301 is ONE grapheme, two chars, three bytes. A byte
/// cursor lands inside it; a char cursor splits the accent off its letter.
#[test]
fn cursor_columns_are_graphemes_not_bytes_or_chars() {
    let mut t = TextArea::with_text("e\u{0301}x");
    assert_eq!(t.cursor(), (0, 2), "two graphemes, not three chars");
    t.delete_back();
    assert_eq!(t.text(), "e\u{0301}", "deleted x, accent intact");
    t.delete_back();
    assert_eq!(t.text(), "", "the whole grapheme went, not half of it");
}

#[test]
fn wide_and_emoji_graphemes_count_as_one_column() {
    let t = TextArea::with_text("日本\u{1F44D}");
    assert_eq!(t.cursor(), (0, 3));
}

/// Windows-authored text pasted from a PR body must not grow stray rows.
#[test]
fn crlf_and_cr_normalize_to_lf() {
    assert_eq!(TextArea::with_text("a\r\nb").row_count(), 2);
    assert_eq!(TextArea::with_text("a\rb").row_count(), 2);
    assert_eq!(TextArea::with_text("a\r\nb").text(), "a\nb");
}

#[test]
fn vertical_movement_clamps_at_the_edges() {
    let mut t = TextArea::with_text("abc\ndef");
    t.move_to_start();
    t.move_up();
    assert_eq!(t.cursor(), (0, 0), "up from the top goes to the start");
    t.move_to_end();
    t.move_down();
    assert_eq!(t.cursor(), (1, 3), "down from the bottom goes to the end");
}

#[test]
fn clear_returns_to_the_initial_state() {
    let mut t = TextArea::with_text("a\nb\nc");
    t.clear();
    assert!(t.is_empty());
    assert_eq!(t.row_count(), 1);
    assert_eq!(t.cursor(), (0, 0));
}

/// A blank line of content is NOT an empty buffer — a comment that is
/// just a newline should not be treated as unwritten.
#[test]
fn a_blank_line_is_not_an_empty_buffer() {
    let mut t = TextArea::new();
    t.insert_newline();
    assert!(!t.is_empty());
    assert_eq!(t.row_count(), 2);
}

#[test]
fn focus_is_a_render_fact_and_does_not_gate_editing() {
    let mut t = TextArea::new();
    assert!(!t.is_focused());
    t.insert_char('a');
    assert_eq!(t.text(), "a", "unfocused edits still apply");
    t.set_focused(true);
    assert!(t.is_focused());
}

/// Fuzz-ish: no sequence of edits and moves may panic on a slice
/// boundary, which is the failure mode a byte/grapheme mismatch produces.
#[test]
fn mixed_operations_never_panic() {
    let mut t = TextArea::new();
    for (i, c) in "aé日\n本b\n\nx".chars().enumerate() {
        t.insert_char(c);
        if i % 2 == 0 {
            t.move_left();
        }
        if i % 3 == 0 {
            t.move_down();
        }
        if i % 5 == 0 {
            t.delete_forward();
        }
    }
    for _ in 0..40 {
        t.move_up();
        t.move_right();
        t.delete_back();
    }
    let _ = t.text();
}
