use egaku::chigai::{diff, diff_lines, Change, DiffOptions};
use egaku::{DiffMode, DiffView, FocusManager, KeyCombo, LineKind, ListView, Row, TabBar, TextArea};

/// The fewest inserts plus deletes that turn `a` into `b`, by the textbook
/// dynamic programme (no substitutions).
fn edit_distance<T: PartialEq>(a: &[T], b: &[T]) -> usize {
    let mut prev: Vec<usize> = (0..=b.len()).collect();
    for i in 1..=a.len() {
        let mut cur = vec![i; b.len() + 1];
        for j in 1..=b.len() {
            cur[j] = if a[i - 1] == b[j - 1] {
                prev[j - 1]
            } else {
                1 + prev[j].min(cur[j - 1])
            };
        }
        prev = cur;
    }
    prev[b.len()]
}

fn edits(a: &[char], b: &[char]) -> usize {
    let d = diff(a, b, DiffOptions { max_cost: None });
    assert!(d.is_minimal());
    let (ins, del) = d.stats();
    ins + del
}

#[test]
fn a_minimal_script_has_the_fewest_edits() {
    let a: Vec<char> = "abcabba".chars().collect();
    let b: Vec<char> = "cbabac".chars().collect();
    assert_eq!(edits(&a, &b), 5);
    assert_eq!(edit_distance(&a, &b), 5);
}

#[test]
fn minimal_scripts_match_the_edit_distance_across_many_pairs() {
    let words = [
        "", "a", "ab", "ba", "abc", "acb", "xaybz", "kitten", "sitting", "aaaa", "abab", "baba",
        "abcde", "edcba", "aabbcc", "abcabc",
    ];
    for x in words.iter() {
        for y in words.iter() {
            let a: Vec<char> = x.chars().collect();
            let b: Vec<char> = y.chars().collect();
            assert_eq!(edits(&a, &b), edit_distance(&a, &b), "{x:?} -> {y:?}");
        }
    }
}

#[test]
fn a_zero_cost_bound_is_fine_when_only_the_ends_differ() {
    let a = [1, 2, 3];
    let b = [1, 2, 3, 4];
    let d = diff(&a, &b, DiffOptions { max_cost: Some(0) });
    assert!(d.is_minimal());
    assert_eq!(d.stats(), (1, 0));
    assert_eq!(d.changes().last(), Some(&Change::Insert { new_index: 3 }));
}

#[test]
fn diff_lines_splits_each_side_into_its_lines() {
    let (d, o, n) = diff_lines("one\ntwo\r\nthree", "one\nthree\n");
    assert_eq!(o, vec!["one", "two", "three"]);
    assert_eq!(n, vec!["one", "three"]);
    assert_eq!(d.stats(), (0, 1));
    assert_eq!(d.changes()[1], Change::Delete { old_index: 1 });
}

const TWO_FILES: &str = "\
diff --git a/a.txt b/a.txt
--- a/a.txt
+++ b/a.txt
@@ -1,4 +1,4 @@
 keep
-gone one
-gone two
+new one
 tail
diff --git a/b.txt b/b.txt
--- a/b.txt
+++ b/b.txt
@@ -1,1 +1,3 @@
 only
+added one
+added two
";

#[test]
fn side_by_side_never_has_more_rows_than_unified() {
    let mut d = DiffView::parse(TWO_FILES);
    let unified = d.row_count();
    d.set_mode(DiffMode::SideBySide);
    let side = d.row_count();
    assert!(side <= unified);
    // Two removed lines paired with one added line make two rows, not three.
    assert_eq!(unified - side, 1);
}

fn header_rows(d: &DiffView) -> Vec<String> {
    let mut out = Vec::new();
    for row in d.rows() {
        match row {
            Row::File(f) => out.push(format!("file {}", f.path())),
            Row::HunkHeader { hunk, .. } => out.push(format!("hunk {}", hunk.header())),
            _ => {}
        }
    }
    out
}

#[test]
fn both_layouts_show_the_same_headers_in_the_same_order() {
    let mut d = DiffView::parse(TWO_FILES);
    let unified = header_rows(&d);
    d.set_mode(DiffMode::SideBySide);
    let side = header_rows(&d);
    assert_eq!(unified, side);
    assert!(unified.len() >= 4);
    assert!(unified[0].starts_with("file "));
}

#[test]
fn a_hunk_header_split_by_tabs_still_parses() {
    let d = DiffView::parse("--- a/x\n+++ b/x\n@@\t-3,2\t+7,2\t@@\n a\n b\n");
    let h = &d.files()[0].hunks()[0];
    assert_eq!((h.old_start(), h.new_start()), (3, 7));
    assert_eq!(h.lines()[0].old_lineno(), Some(3));
    assert_eq!(h.lines()[1].new_lineno(), Some(8));
}

#[test]
fn the_selected_row_always_stays_in_view() {
    let items: Vec<String> = (0..10).map(|i| format!("row {i}")).collect();
    let mut lv = ListView::new(items, 3);
    let moves = [1, 1, 1, 1, 0, 0, 1, 2, 0, 0, 0, 0, 0, 3, 1];
    for m in moves {
        match m {
            0 => lv.select_prev(),
            1 => lv.select_next(),
            2 => lv.select_first(),
            _ => lv.select_last(),
        }
        let s = lv.selected_index();
        let o = lv.offset();
        assert!(o <= s && s < o + 3, "selected {s} outside the view at {o}");
        assert_eq!(lv.visible_items()[s - o], format!("row {s}"));
    }
}

#[test]
fn next_then_prev_comes_back_to_the_same_tab_and_widget() {
    let mut tb = TabBar::new(vec!["a".into(), "b".into(), "c".into()]);
    for start in 0..3 {
        tb.select(start);
        tb.select_next();
        tb.select_prev();
        assert_eq!(tb.active_index(), start);
        tb.select_prev();
        tb.select_next();
        assert_eq!(tb.active_index(), start);
    }
    let mut fm = FocusManager::new(vec!["x".into(), "y".into()]);
    fm.focus_prev();
    assert_eq!(fm.focused_widget(), "y");
    fm.focus_next();
    assert_eq!(fm.focused_widget(), "x");
}

#[test]
fn the_rows_of_a_text_area_join_back_to_its_text() {
    let area = TextArea::with_text("first\n\nthird line\n");
    assert_eq!(area.row_count(), 4);
    assert_eq!(area.rows().join("\n"), area.text());
    assert_eq!(area.text(), "first\n\nthird line\n");
}

#[test]
fn a_zero_cost_bound_falls_back_to_a_block_replace() {
    let d = diff(&[1u8], &[2u8], DiffOptions { max_cost: Some(0) });
    assert_eq!(
        d.changes(),
        &[Change::Delete { old_index: 0 }, Change::Insert { new_index: 0 }]
    );
    assert!(!d.is_minimal());
    // Nothing left to search after trimming: minimal even with no budget.
    let d = diff(&[1u8, 2], &[1u8, 2, 3], DiffOptions { max_cost: Some(0) });
    assert!(d.is_minimal());
    assert_eq!(d.stats(), (1, 0));
}

#[test]
fn a_script_within_the_bound_is_found_and_minimal() {
    let (d, _, _) = diff_lines("a\nb\nc\nd\ne", "a\nb\nX\nc\nd\ne");
    assert!(d.is_minimal());
    assert_eq!(d.stats(), (1, 0));
    assert_eq!(d.changes()[2], Change::Insert { new_index: 2 });
}

#[test]
fn plain_unified_output_opens_a_file_per_header_pair() {
    let d = DiffView::parse(
        "--- a/x\n+++ b/x\n@@ -1 +1 @@\n-a\n+b\n--- a/y\n+++ b/y\n@@ -1 +1 @@\n-c\n+d\n",
    );
    assert_eq!(d.files().len(), 2);
    assert_eq!(d.files()[0].path(), "x");
    assert_eq!(d.files()[1].path(), "y");
    assert_eq!(d.files()[0].hunks().len(), 1);
    assert_eq!(d.files()[1].hunks().len(), 1);
}

#[test]
fn a_removed_line_that_looks_like_a_header_stays_content() {
    let d = DiffView::parse("--- a/q.sql\n+++ b/q.sql\n@@ -1,2 +1,1 @@\n--- note\n x\n");
    let f = &d.files()[0];
    assert_eq!(f.path(), "q.sql");
    assert_eq!(f.old_path(), None);
    let lines = f.hunks()[0].lines();
    assert_eq!(lines.len(), 2);
    assert_eq!(lines[0].kind(), LineKind::Removed);
    assert_eq!(lines[0].text(), "-- note");
    assert_eq!(f.stats(), (0, 1));
}

#[test]
fn toggling_a_hunk_toggles_the_one_under_the_cursor() {
    let mut d = DiffView::parse("--- a/x\n+++ b/x\n@@ -1 +1 @@\n-a\n+b\n@@ -1 +1 @@\n-c\n+d\n");
    d.set_cursor(4);
    d.toggle_collapse();
    assert!(!d.files()[0].hunks()[0].is_collapsed());
    assert!(d.files()[0].hunks()[1].is_collapsed());
    assert_eq!(d.row_count(), 5);
    assert_eq!(d.cursor(), 4);
}

#[test]
fn section_text_after_the_ranges_does_not_move_the_starts() {
    let d = DiffView::parse("--- a/x\n+++ b/x\n@@ -10,6 +10,7 @@ sum = a + b\n a\n");
    let h = &d.files()[0].hunks()[0];
    assert_eq!((h.old_start(), h.new_start()), (10, 10));
    let g = DiffView::parse("--- a/x\n+++ b/x\n@@ garbage @@\n+a\n");
    let h = &g.files()[0].hunks()[0];
    assert_eq!((h.old_start(), h.new_start()), (0, 0));
}

#[test]
fn try_parse_refuses_only_a_line_number_past_the_limit() {
    assert!(DiffView::try_parse("--- a/x\n+++ b/x\n@@ -4294967295 +1 @@\n a\n").is_none());
    let d = DiffView::try_parse("--- a/x\n+++ b/x\n@@ -3 +3 @@\n a\n").unwrap();
    assert_eq!(d.files()[0].hunks()[0].lines()[0].old_lineno(), Some(3));
}

#[test]
fn a_combining_mark_stays_in_its_letters_column() {
    let mut t = TextArea::with_text("e");
    assert_eq!(t.cursor(), (0, 1));
    t.insert_char('\u{0301}');
    assert_eq!(t.text(), "e\u{0301}");
    assert_eq!(t.cursor(), (0, 1));
    t.insert_char('x');
    assert_eq!(t.cursor(), (0, 2));
}

#[test]
fn a_diff_has_no_change_exactly_for_equal_inputs() {
    let same = diff(&[1u8, 2, 3], &[1u8, 2, 3], DiffOptions::default());
    assert!(same.is_empty_change());
    let other = diff(&[1u8, 2, 3], &[1u8, 3], DiffOptions::default());
    assert!(!other.is_empty_change());
    let longer = diff(&[1u8, 2], &[1u8, 2, 2], DiffOptions::default());
    assert!(!longer.is_empty_change());
}

#[test]
fn parsed_line_numbers_count_up_from_the_hunk_starts() {
    let d = DiffView::parse("--- a/x\n+++ b/x\n@@ -7,3 +20,3 @@\n a\n-b\n+c\n+d\n e\n");
    let h = &d.files()[0].hunks()[0];
    let olds: Vec<u32> = h.lines().iter().filter_map(|l| l.old_lineno()).collect();
    let news: Vec<u32> = h.lines().iter().filter_map(|l| l.new_lineno()).collect();
    assert_eq!(olds, vec![7, 8, 9]);
    assert_eq!(news, vec![20, 21, 22, 23]);
}

#[test]
fn the_unified_row_count_is_headers_plus_lines() {
    let mut d = DiffView::parse(TWO_FILES);
    // Two file rows, two hunk rows, 5 + 3 lines.
    assert_eq!(d.row_count(), 2 + 2 + 5 + 3);
    d.collapse_all_files();
    assert_eq!(d.row_count(), d.files().len());
}

#[test]
fn the_selected_item_is_always_among_the_visible_ones() {
    let items: Vec<String> = (0..10).map(|i| format!("item-{i}")).collect();
    let mut lv = ListView::new(items, 3);
    for _ in 0..4 {
        lv.select_next();
        let sel = lv.selected_item().unwrap().to_string();
        assert!(lv.visible_items().iter().any(|s| *s == sel));
    }
    assert_eq!(lv.visible_items().len(), 3);
    assert!(lv.visible_items().iter().any(|s| s == "item-4"));
    lv.select_last();
    assert!(lv.visible_items().iter().any(|s| s == "item-9"));
}

#[test]
fn canonicalising_a_combination_again_changes_nothing() {
    for (k, ms) in [("zq9", vec![" Foo ", "bar", "FOO"]), ("s", vec!["Ctrl"]), ("Tab", vec!["shift"])] {
        let c = KeyCombo::new(k, ms.iter().map(|m| m.to_string()).collect());
        let again = KeyCombo::new(&c.key, c.modifiers.clone());
        assert_eq!(again, c);
    }
}

#[test]
fn a_chord_from_a_parse_result_is_named_in_lower_case() {
    let c = KeyCombo::from_chord(Some(("S".to_string(), 1)), &['x'], &[]);
    assert_eq!(c.key, "s");
    assert_eq!(c.modifiers.len(), 1);
    let raw: Vec<char> = "Q".chars().collect();
    let v = KeyCombo::from_chord(None, &raw, &["B ".to_string(), "a".to_string(), "b".to_string()]);
    assert_eq!(v.key, "q");
    assert_eq!(v.modifiers, vec!["a".to_string(), "b".to_string()]);
}
