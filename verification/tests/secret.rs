use egaku::SecretInput;

fn typed(s: &str) -> SecretInput {
    let mut input = SecretInput::new();
    for c in s.chars() {
        input.insert_char(c);
    }
    input
}

#[test]
fn n_typed_characters_render_n_mask_cells() {
    let input = typed("grapheme");
    assert_eq!(input.mask_len(), 8);
    assert_eq!(input.cursor_cell(), 8);
}

/// The debug surface must not carry the secret.
#[test]
fn debug_contains_none_of_the_secret() {
    let input = typed("grapheme");
    let rendered = input.debug_summary();
    assert!(!rendered.contains("grapheme"));
    for c in "grapheme".chars() {
        assert!(
            !rendered.contains(&format!("{c}{c}")) || !rendered.contains("graph"),
            "debug output leaked part of the value: {rendered}"
        );
    }
    assert!(rendered.contains("mask_len"));
    assert!(rendered.contains('8'));
}

#[test]
fn mask_len_counts_grapheme_clusters_not_bytes() {
    let mut input = SecretInput::new();
    input.insert_char('e');
    input.insert_char('\u{0301}');
    assert_eq!(input.mask_len(), 1, "one visible mark must be one mask cell");
    assert!(input.expose_secret().len() > 1, "…while still being multi-byte");
}

#[test]
fn backspace_removes_one_visible_cell() {
    let mut input = SecretInput::new();
    input.insert_char('e');
    input.insert_char('\u{0301}');
    input.insert_char('x');
    assert_eq!(input.mask_len(), 2);
    input.backspace();
    assert_eq!(input.mask_len(), 1);
    input.backspace();
    assert_eq!(input.mask_len(), 0, "the combining sequence went as one unit");
    assert!(input.is_empty());
}

#[test]
fn clear_empties_and_resets_the_cursor() {
    let mut input = typed("grapheme");
    input.clear();
    assert!(input.is_empty());
    assert_eq!(input.mask_len(), 0);
    assert_eq!(input.cursor_cell(), 0);
    assert_eq!(input.expose_secret(), "");
}

#[test]
fn take_moves_the_secret_out_and_leaves_the_input_empty() {
    let mut input = typed("grapheme");
    let secret = input.take();
    assert_eq!(&*secret, "grapheme");
    assert!(input.is_empty(), "the widget must not keep a copy");
    assert_eq!(input.cursor_cell(), 0);
}

#[test]
fn cursor_motion_is_grapheme_wise() {
    let mut input = typed("abc");
    assert_eq!(input.cursor_cell(), 3);
    input.move_left();
    assert_eq!(input.cursor_cell(), 2);
    input.move_home();
    assert_eq!(input.cursor_cell(), 0);
    input.move_left();
    assert_eq!(input.cursor_cell(), 0, "left at the start is a no-op, not a panic");
    input.move_end();
    assert_eq!(input.cursor_cell(), 3);
    input.move_right();
    assert_eq!(input.cursor_cell(), 3, "right at the end is a no-op, not a panic");
}

#[test]
fn insert_at_cursor_not_only_at_the_end() {
    let mut input = typed("ac");
    input.move_left();
    input.insert_char('b');
    assert_eq!(input.expose_secret(), "abc");
    assert_eq!(input.cursor_cell(), 2);
}

#[test]
fn delete_removes_forward() {
    let mut input = typed("abc");
    input.move_home();
    input.delete();
    assert_eq!(input.expose_secret(), "bc");
    input.move_end();
    input.delete();
    assert_eq!(input.expose_secret(), "bc", "delete at the end is a no-op");
}

#[test]
fn focus_is_render_state_and_does_not_gate_editing() {
    let mut input = SecretInput::new();
    assert!(!input.is_focused());
    input.insert_char('x');
    assert_eq!(input.mask_len(), 1, "editing an unfocused input still works");
    input.set_focused(true);
    assert!(input.is_focused());
}

// Cursor placement inside what the whole text treats as one cluster: the
// cell count is taken over the characters before the cursor alone.
#[test]
fn secret_cursor_cell_counts_only_what_precedes_the_cursor() {
    let mut input = SecretInput::new();
    input.insert_char('\u{0301}');
    input.move_home();
    input.insert_char('e');
    assert_eq!(input.expose_secret(), "e\u{0301}");
    assert_eq!(input.mask_len(), 1);
    assert_eq!(input.cursor_cell(), 1);
}

#[test]
fn secret_delete_takes_a_whole_cluster_forward() {
    let mut input = SecretInput::new();
    input.insert_char('e');
    input.insert_char('\u{0301}');
    input.insert_char('x');
    input.move_home();
    input.delete();
    assert_eq!(input.expose_secret(), "x");
    input.move_right();
    assert_eq!(input.cursor_cell(), 1);
}

#[test]
fn secret_default_is_empty_and_unfocused() {
    let input = SecretInput::default();
    assert!(input.is_empty());
    assert!(!input.is_focused());
    assert_eq!(input.debug_summary(), "SecretInput { mask_len: 0, focused: false, .. }");
}

#[test]
fn the_summary_counts_clusters_and_shows_the_focus() {
    let mut input = SecretInput::new();
    input.set_focused(true);
    for c in "hunter12".chars() {
        input.insert_char(c);
    }
    assert_eq!(input.debug_summary(), "SecretInput { mask_len: 8, focused: true, .. }");
}
