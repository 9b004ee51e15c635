use egaku::{ListView, Selectable, TabBar};

/// The point of the trait: one function drives any implementor.
fn advance_twice<S: Selectable>(s: &mut S) -> usize {
    s.select_next();
    s.select_next();
    s.selected_index()
}

#[test]
fn list_view_is_selectable_and_saturates() {
    let mut lv = ListView::new(vec!["a".into(), "b".into()], 5);
    assert_eq!(advance_twice(&mut lv), 1, "ListView saturates at the end");
    assert_eq!(Selectable::len(&lv), 2);
    assert!(!Selectable::is_empty(&lv));
}

#[test]
fn tab_bar_is_selectable_and_wraps() {
    let mut tb = TabBar::new(vec!["a".into(), "b".into()]);
    assert_eq!(advance_twice(&mut tb), 0, "TabBar wraps around");
    assert_eq!(Selectable::len(&tb), 2);
}

#[test]
fn tab_bar_selected_index_aliases_active_index() {
    let mut tb = TabBar::new(vec!["a".into(), "b".into(), "c".into()]);
    tb.select(2);
    assert_eq!(Selectable::selected_index(&tb), tb.active_index());
}

#[test]
fn empty_implementors_report_empty_and_index_zero() {
    let lv = ListView::new(vec![], 5);
    let tb = TabBar::new(vec![]);
    assert!(Selectable::is_empty(&lv));
    assert!(Selectable::is_empty(&tb));
    assert_eq!(Selectable::selected_index(&lv), 0);
    assert_eq!(Selectable::selected_index(&tb), 0);
}

#[test]
fn moving_an_empty_implementor_cannot_panic_or_go_out_of_range() {
    let mut lv = ListView::new(vec![], 5);
    let mut tb = TabBar::new(vec![]);
    for w in [&mut lv as &mut dyn Selectable, &mut tb] {
        w.select_next();
        w.select_prev();
        assert_eq!(w.selected_index(), 0);
    }
}

#[test]
fn selected_index_stays_in_range_under_arbitrary_movement() {
    // The trait's one invariant, exercised through the trait only.
    let mut lv = ListView::new(vec!["a".into(), "b".into(), "c".into()], 2);
    let mut tb = TabBar::new(vec!["a".into(), "b".into(), "c".into()]);
    for w in [&mut lv as &mut dyn Selectable, &mut tb] {
        for step in 0..12 {
            if step % 3 == 0 {
                w.select_prev();
            } else {
                w.select_next();
            }
            assert!(
                w.selected_index() < w.len(),
                "cursor left the item range at step {step}"
            );
        }
    }
}
