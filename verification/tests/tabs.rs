use egaku::TabBar;

fn sample_tabs() -> Vec<String> {
    vec!["Alpha".into(), "Beta".into(), "Gamma".into()]
}

#[test]
fn tabs_new_starts_at_first() {
    let tb = TabBar::new(sample_tabs());
    assert_eq!(tb.active_index(), 0);
    assert_eq!(tb.active_tab(), "Alpha");
}

#[test]
fn select_next_wraps() {
    let mut tb = TabBar::new(sample_tabs());
    tb.select_next(); // Beta
    tb.select_next(); // Gamma
    tb.select_next(); // wraps to Alpha
    assert_eq!(tb.active_tab(), "Alpha");
}

#[test]
fn select_prev_wraps() {
    let mut tb = TabBar::new(sample_tabs());
    tb.select_prev(); // wraps to Gamma
    assert_eq!(tb.active_tab(), "Gamma");
}

#[test]
fn select_by_index() {
    let mut tb = TabBar::new(sample_tabs());
    tb.select(2);
    assert_eq!(tb.active_tab(), "Gamma");
}

#[test]
fn select_out_of_bounds_noop() {
    let mut tb = TabBar::new(sample_tabs());
    tb.select(99);
    assert_eq!(tb.active_index(), 0);
}

#[test]
fn add_tab() {
    let mut tb = TabBar::new(sample_tabs());
    tb.add_tab("Delta".into());
    assert_eq!(tb.len(), 4);
    assert_eq!(tb.tabs()[3], "Delta");
}

#[test]
fn remove_tab_adjusts_active() {
    let mut tb = TabBar::new(sample_tabs());
    tb.select(2); // Gamma
    let removed = tb.remove_tab(2);
    assert_eq!(removed, Some("Gamma".into()));
    assert_eq!(tb.active_index(), 1); // clamped
    assert_eq!(tb.active_tab(), "Beta");
}

#[test]
fn remove_tab_out_of_bounds() {
    let mut tb = TabBar::new(sample_tabs());
    assert_eq!(tb.remove_tab(99), None);
}

#[test]
fn remove_first_tab() {
    let mut tb = TabBar::new(sample_tabs());
    tb.remove_tab(0);
    assert_eq!(tb.active_tab(), "Beta");
    assert_eq!(tb.len(), 2);
}

#[test]
fn tabs_starts_unfocused_and_focus_is_settable() {
    let mut tb = TabBar::new(sample_tabs());
    assert!(!tb.is_focused());
    tb.set_focused(true);
    assert!(tb.is_focused());
}
