use egaku::{Column, IDENTITY_FIELD, SortKey, SortOrder, TableError, TableRow, TableView, Selectable};

/// A minimal [`TableRow`]: an identity plus an association list of cells.
/// Deliberately shaped like the real consumer's row (an ordered `Vec` of
/// pairs, not a map) so the lift is exercised against the access pattern
/// it was lifted from.
#[derive(Debug, Clone, PartialEq, Eq)]
struct TestRow {
    name: String,
    cells: Vec<(String, String)>,
}

impl TableRow for TestRow {
    fn identity(&self) -> &str {
        &self.name
    }

    fn cell(&self, field: &str) -> Option<&str> {
        self.cells
            .iter()
            .find(|(k, _)| k == field)
            .map(|(_, v)| v.as_str())
    }
}

fn row(name: &str, status: &str) -> TestRow {
    TestRow {
        name: name.into(),
        cells: vec![
            ("ready".into(), "1/1".into()),
            ("phase".into(), status.into()),
        ],
    }
}

fn columns() -> Vec<Column> {
    vec![
        Column::new("NAME", IDENTITY_FIELD),
        Column::new("READY", "ready"),
        Column::new("STATUS", "phase"),
    ]
}

fn table(rows: Vec<TestRow>) -> TableView<TestRow> {
    TableView::new(columns(), rows, SortKey::new("STATUS", SortOrder::Desc))
        .expect("STATUS is a declared column")
}

// ---- construction ------------------------------------------------------

#[test]
fn empty_table_has_zero_selection_and_no_selected_row() {
    let t = table(vec![]);
    assert_eq!(t.selected_index(), 0);
    assert!(t.selected_row().is_none());
    assert!(t.is_empty());
}

#[test]
fn a_sort_naming_an_undeclared_column_is_refused() {
    let err = TableView::new(
        columns(),
        vec![row("a", "Running")],
        SortKey::new("NOPE", SortOrder::Asc),
    )
    .expect_err("an undeclared sort column must not construct");
    assert_eq!(err, TableError::UnknownSortColumn("NOPE".into()));
}

#[test]
fn the_refusal_names_the_offending_column_in_its_message() {
    let err = TableView::new(
        columns(),
        vec![row("a", "Running")],
        SortKey::new("PHASE", SortOrder::Asc),
    )
    .expect_err("undeclared");
    assert!(
        err.message().contains("PHASE"),
        "the error must name the column the author typed, got {}",
        err.message()
    );
}

// ---- sorting -----------------------------------------------------------

#[test]
fn rows_are_sorted_at_construction_by_the_declared_sort() {
    let t = table(vec![
        row("a", "CrashLoopBackOff"),
        row("b", "Running"),
        row("c", "Pending"),
    ]);
    let statuses: Vec<&str> = t
        .rows()
        .iter()
        .map(|r| t.cell_value(r, &Column::new("STATUS", "phase")))
        .collect();
    assert_eq!(statuses, vec!["Running", "Pending", "CrashLoopBackOff"]);
}

#[test]
fn toggle_sort_direction_reverses_order() {
    let mut t = table(vec![
        row("a", "Running"),
        row("b", "Pending"),
        row("c", "CrashLoopBackOff"),
    ]);
    let before: Vec<String> = t.rows().iter().map(|r| r.name.clone()).collect();
    t.toggle_sort_direction();
    let after: Vec<String> = t.rows().iter().map(|r| r.name.clone()).collect();
    assert_eq!(
        after,
        before.iter().rev().cloned().collect::<Vec<_>>(),
        "a direction cycle is exactly a reversal on distinct keys"
    );
    assert_eq!(t.sort().order, SortOrder::Asc);
}

#[test]
fn sorting_by_the_identity_column_orders_by_identity() {
    let mut t = table(vec![row("c", "x"), row("a", "x"), row("b", "x")]);
    t.sort_by("NAME").expect("NAME is declared");
    // Still Desc from the fixture.
    let names: Vec<&str> = t.rows().iter().map(TableRow::identity).collect();
    assert_eq!(names, vec!["c", "b", "a"]);
}

#[test]
fn sort_by_an_undeclared_column_is_refused_and_changes_nothing() {
    let mut t = table(vec![row("a", "Running"), row("b", "Pending")]);
    let before = t.clone();
    let err = t.sort_by("MISSING").expect_err("undeclared");
    assert_eq!(err, TableError::UnknownSortColumn("MISSING".into()));
    assert_eq!(t, before, "a refused sort leaves the table untouched");
}

#[test]
fn sort_resolves_the_header_to_the_field_not_the_header_itself() {
    // The sort names header "STATUS"; rows are keyed by field "phase".
    // If the resolution were dropped, every row would project "" and the
    // order would be whatever the input order happened to be.
    let t = table(vec![
        row("first-in", "Aaa"),
        row("second-in", "Zzz"),
        row("third-in", "Mmm"),
    ]);
    let names: Vec<&str> = t.rows().iter().map(TableRow::identity).collect();
    assert_eq!(
        names,
        vec!["second-in", "third-in", "first-in"],
        "rows ordered by the phase cell, not by input order"
    );
}

// ---- selection ---------------------------------------------------------

#[test]
fn selection_saturates_at_both_ends() {
    let mut t = table(vec![row("a", "Running"), row("b", "Running")]);
    t.select_prev();
    assert_eq!(t.selected_index(), 0);
    t.select_next();
    t.select_next();
    t.select_next();
    assert_eq!(t.selected_index(), 1, "cannot exceed the last row");
}

#[test]
fn set_rows_preserves_selection_by_identity() {
    let mut t = table(vec![row("a", "Running"), row("b", "Running")]);
    t.select_next();
    let selected = t.selected_row().unwrap().name.clone();
    t.set_rows(vec![row("b", "Running"), row("a", "Running")]);
    assert_eq!(
        t.selected_row().unwrap().name,
        selected,
        "the cursor follows the row by identity across a refresh"
    );
}

#[test]
fn set_rows_that_drops_the_selected_row_falls_back_to_the_first() {
    let mut t = table(vec![row("a", "Running"), row("b", "Running")]);
    t.select_next();
    t.set_rows(vec![row("c", "Running")]);
    assert_eq!(t.selected_index(), 0);
    assert_eq!(t.selected_row().unwrap().name, "c");
}

#[test]
fn set_rows_to_empty_clamps_the_cursor() {
    let mut t = table(vec![row("a", "Running"), row("b", "Running")]);
    t.select_next();
    t.set_rows(vec![]);
    assert_eq!(t.selected_index(), 0);
    assert!(t.selected_row().is_none());
}

#[test]
fn toggling_the_sort_holds_the_cursor_on_the_same_row() {
    let mut t = table(vec![row("a", "Aaa"), row("b", "Bbb"), row("c", "Ccc")]);
    t.select_next();
    let held = t.selected_row().unwrap().name.clone();
    t.toggle_sort_direction();
    assert_eq!(t.selected_row().unwrap().name, held);
}

// ---- cell projection ---------------------------------------------------

#[test]
fn cell_value_reads_identity_and_cells_and_missing_is_empty() {
    let t = table(vec![row("catch-0", "Running")]);
    let r = &t.rows()[0];
    assert_eq!(
        t.cell_value(r, &Column::new("NAME", IDENTITY_FIELD)),
        "catch-0"
    );
    assert_eq!(t.cell_value(r, &Column::new("STATUS", "phase")), "Running");
    assert_eq!(
        t.cell_value(r, &Column::new("MISSING", "missing")),
        "",
        "a missing cell projects empty, never panics"
    );
}

// ---- unresolved fields -------------------------------------------------

#[test]
fn unresolved_fields_reports_a_column_no_row_populates() {
    let cols = vec![
        Column::new("NAME", IDENTITY_FIELD),
        Column::new("STATUS", "phase"),
        Column::new("AGE", "age"),
    ];
    let t = TableView::new(
        cols,
        vec![row("a", "Running")],
        SortKey::new("STATUS", SortOrder::Asc),
    )
    .unwrap();
    assert_eq!(t.unresolved_fields(), vec!["age"]);
}

#[test]
fn unresolved_fields_never_reports_the_identity_column() {
    // Identity is satisfied by TableRow::identity, not by a cell — so it
    // must never be reported even though no row carries a "name" cell.
    let t = table(vec![row("a", "Running")]);
    assert!(t.unresolved_fields().is_empty());
}

#[test]
fn a_present_but_empty_cell_is_resolved_not_missing() {
    // `cell()` returning Some("") means the row DOES carry the field. This
    // is the distinction the TableRow contract asks implementors to keep.
    let r = TestRow {
        name: "a".into(),
        cells: vec![("phase".into(), String::new())],
    };
    let t = TableView::new(
        vec![Column::new("STATUS", "phase")],
        vec![r],
        SortKey::new("STATUS", SortOrder::Asc),
    )
    .unwrap();
    assert!(
        t.unresolved_fields().is_empty(),
        "present-but-empty is resolved; only absent is unresolved"
    );
}

// ---- Selectable --------------------------------------------------------

#[test]
fn table_view_satisfies_selectable() {
    fn advance<S: Selectable>(s: &mut S) -> usize {
        s.select_next();
        s.selected_index()
    }
    let mut t = table(vec![row("a", "x"), row("b", "x"), row("c", "x")]);
    assert_eq!(advance(&mut t), 1);
    assert_eq!(Selectable::len(&t), 3);
    assert!(!Selectable::is_empty(&t));
}

#[test]
fn selectable_and_inherent_selection_are_the_same_cursor() {
    let mut t = table(vec![row("a", "x"), row("b", "x")]);
    Selectable::select_next(&mut t);
    assert_eq!(TableView::selected_index(&t), 1);
    assert_eq!(Selectable::selected_index(&t), 1);
}

// ---- focus -------------------------------------------------------------

#[test]
fn table_starts_unfocused_and_focus_is_settable() {
    let mut t = table(vec![row("a", "x")]);
    assert!(!t.is_focused());
    t.set_focused(true);
    assert!(t.is_focused());
}
