use egaku::{DiffMode, DiffView, LineKind, Row};

const DIFF: &str = "\
diff --git a/src/lib.rs b/src/lib.rs
index 1111111..2222222 100644
--- a/src/lib.rs
+++ b/src/lib.rs
@@ -10,6 +10,7 @@ fn existing()
 context one
-removed one
+added one
+added two
 context two
diff --git a/README.md b/README.md
--- a/README.md
+++ b/README.md
@@ -1,2 +1,2 @@
-old title
+new title
 body
";

#[test]
fn parses_files_hunks_and_stats() {
    let d = DiffView::parse(DIFF);
    assert_eq!(d.files().len(), 2);
    assert_eq!(d.files()[0].path(), "src/lib.rs");
    assert_eq!(d.files()[1].path(), "README.md");
    assert_eq!(d.files()[0].hunks().len(), 1);
    // 3 added / 2 removed across both files.
    assert_eq!(d.stats(), (3, 2));
}

/// The off-by-one every hand-rolled diff view ships: a removed line
/// advances ONLY the old counter, an added line ONLY the new one.
#[test]
fn line_numbers_track_each_side_independently() {
    let d = DiffView::parse(DIFF);
    let lines = d.files()[0].hunks()[0].lines();
    // @@ -10,6 +10,7 @@
    assert_eq!((lines[0].old_lineno(), lines[0].new_lineno()), (Some(10), Some(10)));
    // removed: old advances, new does not
    assert_eq!((lines[1].old_lineno(), lines[1].new_lineno()), (Some(11), None));
    // added ×2: new advances, old does not
    assert_eq!((lines[2].old_lineno(), lines[2].new_lineno()), (None, Some(11)));
    assert_eq!((lines[3].old_lineno(), lines[3].new_lineno()), (None, Some(12)));
    // context resumes on both, each having advanced by its own count
    assert_eq!((lines[4].old_lineno(), lines[4].new_lineno()), (Some(12), Some(13)));
}

#[test]
fn markers_are_stripped_from_text() {
    let d = DiffView::parse(DIFF);
    let lines = d.files()[0].hunks()[0].lines();
    assert_eq!(lines[0].text(), "context one");
    assert_eq!(lines[1].text(), "removed one");
    assert_eq!(lines[2].text(), "added one");
}

#[test]
fn rows_include_file_and_hunk_headers() {
    let d = DiffView::parse(DIFF);
    let rows = d.rows();
    assert!(matches!(rows[0], Row::File(_)));
    assert!(matches!(rows[1], Row::HunkHeader { .. }));
    assert!(matches!(rows[2], Row::Line { .. }));
    // 2 file rows + 2 hunk headers + 5 content lines + 3 content lines
    assert_eq!(rows.len(), 2 + 2 + 5 + 3);
}

/// Collapsing a file must not make it disappear — its header row stays.
#[test]
fn collapsing_a_file_keeps_its_header_row() {
    let mut d = DiffView::parse(DIFF);
    d.set_cursor(0);
    d.toggle_collapse();
    let rows = d.rows();
    assert!(matches!(rows[0], Row::File(_)));
    // file 1 collapsed → only its header; file 2 intact (header+hunk+3)
    assert_eq!(rows.len(), 1 + 1 + 1 + 3);
}

/// Collapsing removes rows beneath the cursor; leaving it past the end is
/// how a diff view starts rendering blank after a keystroke.
#[test]
fn collapse_reclamps_a_cursor_that_would_dangle() {
    let mut d = DiffView::parse(DIFF);
    let last = d.row_count() - 1;
    d.set_cursor(last);
    d.collapse_all_files();
    assert!(d.cursor() < d.row_count(), "cursor {} vs {}", d.cursor(), d.row_count());
}

#[test]
fn hunk_navigation_moves_between_headers_and_reports_the_end() {
    let mut d = DiffView::parse(DIFF);
    assert!(d.next_hunk());
    assert!(matches!(d.rows()[d.cursor()], Row::HunkHeader { .. }));
    assert!(d.next_hunk()); // second file's hunk
    assert!(!d.next_hunk(), "no hunk below the last one");
    assert!(d.prev_hunk());
}

/// Per-RUN pairing: 3 removed + 1 added is 3 rows, not 4 and not 1.
/// Zipping the whole hunk would align unrelated lines and read as a
/// modification that never happened.
#[test]
fn side_by_side_pairs_runs_not_whole_hunks() {
    let d = DiffView::parse(
        "\
--- a/x
+++ b/x
@@ -1,4 +1,2 @@
-a
-b
-c
+z
",
    );
    let mut d = d;
    d.set_mode(DiffMode::SideBySide);
    let rows: Vec<_> = d
        .rows()
        .into_iter()
        .filter(|r| matches!(r, Row::SideBySide { .. }))
        .collect();
    assert_eq!(rows.len(), 3, "max(removed, added) = 3");
    match &rows[0] {
        Row::SideBySide { left, right, .. } => {
            assert_eq!(left.unwrap().text(), "a");
            assert_eq!(right.unwrap().text(), "z");
        }
        _ => panic!(),
    }
    match &rows[2] {
        Row::SideBySide { left, right, .. } => {
            assert_eq!(left.unwrap().text(), "c");
            assert!(right.is_none(), "no counterpart to pad against");
        }
        _ => panic!(),
    }
}

#[test]
fn mode_toggle_is_not_a_reparse() {
    let mut d = DiffView::parse(DIFF);
    let before = d.files().to_vec();
    d.toggle_mode();
    assert_eq!(d.mode(), DiffMode::SideBySide);
    assert_eq!(d.files(), before.as_slice(), "structure is layout-independent");
    d.toggle_mode();
    assert_eq!(d.mode(), DiffMode::Unified);
}

/// A rename shows `old → new`; a plain edit must NOT render an arrow to
/// itself.
#[test]
fn old_path_is_set_only_for_a_real_rename() {
    let renamed = DiffView::parse("--- a/old.rs\n+++ b/new.rs\n@@ -1 +1 @@\n-x\n+y\n");
    assert_eq!(renamed.files()[0].path(), "new.rs");
    assert_eq!(renamed.files()[0].old_path(), Some("old.rs"));

    let edited = DiffView::parse("--- a/same.rs\n+++ b/same.rs\n@@ -1 +1 @@\n-x\n+y\n");
    assert_eq!(edited.files()[0].old_path(), None);
}

/// A delete has `/dev/null` on the new side — it must still be named.
#[test]
fn a_deleted_file_is_named_by_the_path_it_had() {
    let d = DiffView::parse("--- a/gone.rs\n+++ /dev/null\n@@ -1 +0,0 @@\n-x\n");
    assert_eq!(d.files()[0].path(), "gone.rs");
}

/// A binary file has no hunks and must not read as "no changes".
#[test]
fn binary_files_are_flagged_not_silently_empty() {
    let d = DiffView::parse(
        "diff --git a/logo.png b/logo.png\nBinary files a/logo.png and b/logo.png differ\n",
    );
    assert!(d.files()[0].is_binary());
    assert!(d.files()[0].hunks().is_empty());
}

/// Preamble text outside any hunk must not become diff content — a commit
/// message mentioning `+1` is not an added line.
#[test]
fn preamble_outside_a_hunk_is_not_content() {
    let d = DiffView::parse("commit abc\n+not a real addition\ndiff --git a/x b/x\n--- a/x\n+++ b/x\n@@ -1 +1 @@\n+real\n");
    assert_eq!(d.files().len(), 1);
    assert_eq!(d.stats(), (1, 0));
}

#[test]
fn empty_and_garbage_input_are_safe() {
    assert_eq!(DiffView::parse("").row_count(), 0);
    assert_eq!(DiffView::parse("").cursor(), 0);
    let g = DiffView::parse("this is not a diff at all\nnor is this\n");
    assert_eq!(g.files().len(), 0);
    assert_eq!(g.stats(), (0, 0));
}

/// A malformed `@@` must not refuse the hunk — leniency is the documented
/// contract, and a review UI that blanks on one bad header is worse than
/// one showing rows numbered from 0.
#[test]
fn malformed_hunk_header_still_yields_rows() {
    let d = DiffView::parse("--- a/x\n+++ b/x\n@@ garbage @@\n+added\n");
    assert_eq!(d.files()[0].hunks().len(), 1);
    assert_eq!(d.stats(), (1, 0));
}

#[test]
fn no_newline_marker_belongs_to_neither_side() {
    let d = DiffView::parse("--- a/x\n+++ b/x\n@@ -1 +1 @@\n-a\n+b\n\\ No newline at end of file\n");
    let lines = d.files()[0].hunks()[0].lines();
    let last = lines.last().unwrap();
    assert_eq!(last.kind(), LineKind::NoNewline);
    assert_eq!((last.old_lineno(), last.new_lineno()), (None, None));
}

#[test]
fn cursor_never_leaves_the_row_range() {
    let mut d = DiffView::parse(DIFF);
    for _ in 0..1000 {
        d.move_down();
    }
    assert_eq!(d.cursor(), d.row_count() - 1);
    for _ in 0..1000 {
        d.move_up();
    }
    assert_eq!(d.cursor(), 0);
}
