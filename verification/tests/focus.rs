use egaku::FocusManager;

fn sample_widgets() -> Vec<String> {
    vec!["input".into(), "list".into(), "button".into()]
}

#[test]
fn new_focuses_first() {
    let fm = FocusManager::new(sample_widgets());
    assert_eq!(fm.focused_widget(), "input");
}

#[test]
fn focus_next_wraps() {
    let mut fm = FocusManager::new(sample_widgets());
    fm.focus_next(); // list
    fm.focus_next(); // button
    fm.focus_next(); // wraps to input
    assert_eq!(fm.focused_widget(), "input");
}

#[test]
fn focus_prev_wraps() {
    let mut fm = FocusManager::new(sample_widgets());
    fm.focus_prev(); // wraps to button
    assert_eq!(fm.focused_widget(), "button");
}

#[test]
fn set_focus_found() {
    let mut fm = FocusManager::new(sample_widgets());
    assert!(fm.set_focus("button"));
    assert_eq!(fm.focused_widget(), "button");
}

#[test]
fn set_focus_not_found() {
    let mut fm = FocusManager::new(sample_widgets());
    assert!(!fm.set_focus("nonexistent"));
    assert_eq!(fm.focused_widget(), "input"); // unchanged
}

#[test]
fn register_widget() {
    let mut fm = FocusManager::new(sample_widgets());
    fm.register("slider".into());
    assert_eq!(fm.len(), 4);
    fm.set_focus("slider");
    assert_eq!(fm.focused_widget(), "slider");
}

#[test]
fn unregister_focused_widget() {
    let mut fm = FocusManager::new(sample_widgets());
    fm.set_focus("button"); // index 2
    fm.unregister("button");
    assert_eq!(fm.len(), 2);
    // focused should clamp to len-1 = 1
    assert_eq!(fm.focused_widget(), "list");
}

#[test]
fn unregister_non_focused() {
    let mut fm = FocusManager::new(sample_widgets());
    fm.unregister("list");
    assert_eq!(fm.len(), 2);
    assert_eq!(fm.focused_widget(), "input");
}

#[test]
fn unregister_nonexistent() {
    let mut fm = FocusManager::new(sample_widgets());
    fm.unregister("nope");
    assert_eq!(fm.len(), 3);
}
