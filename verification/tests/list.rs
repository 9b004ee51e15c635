use egaku::ListView;

fn sample_items(n: usize) -> Vec<String> {
    (0..n).map(|i| format!("item-{i}")).collect()
}

#[test]
fn list_new_starts_at_first() {
    let lv = ListView::new(sample_items(5), 3);
    assert_eq!(lv.selected_index(), 0);
    assert_eq!(lv.selected_item(), Some("item-0"));
}

#[test]
fn select_next() {
    let mut lv = ListView::new(sample_items(5), 3);
    lv.select_next();
    assert_eq!(lv.selected_index(), 1);
    lv.select_next();
    assert_eq!(lv.selected_index(), 2);
}

#[test]
fn select_next_stops_at_end() {
    let mut lv = ListView::new(sample_items(3), 3);
    lv.select_next();
    lv.select_next();
    lv.select_next(); // already at last
    assert_eq!(lv.selected_index(), 2);
}

#[test]
fn select_prev() {
    let mut lv = ListView::new(sample_items(5), 3);
    lv.select_next();
    lv.select_next();
    lv.select_prev();
    assert_eq!(lv.selected_index(), 1);
}

#[test]
fn select_prev_stops_at_start() {
    let mut lv = ListView::new(sample_items(5), 3);
    lv.select_prev();
    assert_eq!(lv.selected_index(), 0);
}

#[test]
fn select_first_and_last() {
    let mut lv = ListView::new(sample_items(10), 3);
    lv.select_last();
    assert_eq!(lv.selected_index(), 9);
    assert_eq!(lv.selected_item(), Some("item-9"));
    lv.select_first();
    assert_eq!(lv.selected_index(), 0);
}

#[test]
fn visible_items_initial() {
    let lv = ListView::new(sample_items(10), 3);
    let vis = lv.visible_items();
    assert_eq!(vis.len(), 3);
    assert_eq!(vis[0], "item-0");
    assert_eq!(vis[2], "item-2");
}

#[test]
fn visible_items_scrolled() {
    let mut lv = ListView::new(sample_items(10), 3);
    // Move selection past visible window
    for _ in 0..4 {
        lv.select_next();
    }
    // selected=4, offset should have scrolled
    let vis = lv.visible_items();
    assert_eq!(vis.len(), 3);
    assert!(vis.contains(&"item-4".to_string()));
}

#[test]
fn set_items_resets() {
    let mut lv = ListView::new(sample_items(10), 3);
    lv.select_next();
    lv.select_next();
    lv.set_items(sample_items(5));
    assert_eq!(lv.selected_index(), 0);
    assert_eq!(lv.offset(), 0);
    assert_eq!(lv.len(), 5);
}

#[test]
fn empty_list() {
    let lv = ListView::new(vec![], 3);
    assert!(lv.is_empty());
    assert_eq!(lv.selected_item(), None);
    assert!(lv.visible_items().is_empty());
}

#[test]
fn select_next_on_empty() {
    let mut lv = ListView::new(vec![], 3);
    lv.select_next(); // should not panic
    assert_eq!(lv.selected_index(), 0);
}

#[test]
fn fewer_items_than_visible_count() {
    let lv = ListView::new(sample_items(2), 5);
    assert_eq!(lv.visible_items().len(), 2);
}
