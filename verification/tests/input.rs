use egaku::TextInput;


#[test]
fn new_is_empty() {
    let input = TextInput::new();
    assert!(input.is_empty());
    assert_eq!(input.cursor(), 0);
    assert_eq!(input.text(), "");
}

#[test]
fn with_text_sets_cursor_at_end() {
    let input = TextInput::with_text("hello");
    assert_eq!(input.text(), "hello");
    assert_eq!(input.cursor(), 5);
    assert!(!input.is_empty());
}

#[test]
fn insert_char_at_end() {
    let mut input = TextInput::new();
    input.insert_char('a');
    input.insert_char('b');
    assert_eq!(input.text(), "ab");
    assert_eq!(input.cursor(), 2);
}

#[test]
fn insert_char_at_middle() {
    let mut input = TextInput::with_text("ac");
    input.move_left(); // cursor before 'c'
    input.insert_char('b');
    assert_eq!(input.text(), "abc");
}

#[test]
fn insert_multibyte_char() {
    let mut input = TextInput::new();
    input.insert_char('\u{00e9}'); // e with acute
    assert_eq!(input.text(), "\u{00e9}");
    assert_eq!(input.cursor(), 2); // 2-byte UTF-8
}

#[test]
fn delete_back_basic() {
    let mut input = TextInput::with_text("abc");
    input.delete_back();
    assert_eq!(input.text(), "ab");
    assert_eq!(input.cursor(), 2);
}

#[test]
fn delete_back_at_start_does_nothing() {
    let mut input = TextInput::with_text("abc");
    input.move_to_start();
    input.delete_back();
    assert_eq!(input.text(), "abc");
    assert_eq!(input.cursor(), 0);
}

#[test]
fn delete_back_empty() {
    let mut input = TextInput::new();
    input.delete_back();
    assert_eq!(input.text(), "");
}

#[test]
fn delete_back_multibyte() {
    let mut input = TextInput::with_text("he\u{0301}llo"); // e + combining accent
    // cursor at end
    input.delete_back(); // remove 'o'
    assert_eq!(input.text(), "he\u{0301}ll");
}

#[test]
fn delete_forward_basic() {
    let mut input = TextInput::with_text("abc");
    input.move_to_start();
    input.delete_forward();
    assert_eq!(input.text(), "bc");
    assert_eq!(input.cursor(), 0);
}

#[test]
fn delete_forward_at_end_does_nothing() {
    let mut input = TextInput::with_text("abc");
    input.delete_forward();
    assert_eq!(input.text(), "abc");
}

#[test]
fn move_left_and_right() {
    let mut input = TextInput::with_text("abc");
    assert_eq!(input.cursor(), 3);
    input.move_left();
    assert_eq!(input.cursor(), 2);
    input.move_left();
    assert_eq!(input.cursor(), 1);
    input.move_right();
    assert_eq!(input.cursor(), 2);
}

#[test]
fn move_left_at_start() {
    let mut input = TextInput::with_text("a");
    input.move_to_start();
    input.move_left();
    assert_eq!(input.cursor(), 0);
}

#[test]
fn move_right_at_end() {
    let mut input = TextInput::with_text("a");
    input.move_right();
    assert_eq!(input.cursor(), 1);
}

#[test]
fn move_to_start_and_end() {
    let mut input = TextInput::with_text("hello");
    input.move_to_start();
    assert_eq!(input.cursor(), 0);
    input.move_to_end();
    assert_eq!(input.cursor(), 5);
}

#[test]
fn select_all_and_selected_text() {
    let mut input = TextInput::with_text("hello");
    input.select_all();
    assert_eq!(input.selected_text(), Some("hello"));
}

#[test]
fn select_all_empty() {
    let mut input = TextInput::new();
    input.select_all();
    assert_eq!(input.selected_text(), None);
}

#[test]
fn delete_selection() {
    let mut input = TextInput::with_text("hello world");
    input.select_all();
    input.delete_selection();
    assert!(input.is_empty());
    assert_eq!(input.cursor(), 0);
}

#[test]
fn insert_replaces_selection() {
    let mut input = TextInput::with_text("hello");
    input.select_all();
    input.insert_char('X');
    assert_eq!(input.text(), "X");
}

#[test]
fn grapheme_aware_movement_emoji() {
    // Family emoji is a single grapheme cluster but multiple code points
    let mut input = TextInput::with_text("a\u{1F468}\u{200D}\u{1F469}\u{200D}\u{1F467}b");
    input.move_to_end();
    input.move_left(); // move before 'b'
    input.move_left(); // move before the family emoji
    input.move_right(); // move past the family emoji
    // We should be right before 'b'
    input.delete_forward();
    assert!(input.text().ends_with('\u{1F467}'));
}

#[test]
fn delete_back_with_selection_deletes_selection() {
    let mut input = TextInput::with_text("hello");
    input.select_all();
    input.delete_back();
    assert!(input.is_empty());
}
