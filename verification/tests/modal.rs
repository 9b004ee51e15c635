use egaku::Modal;

#[test]
fn starts_hidden() {
    let m = Modal::new("Confirm");
    assert!(!m.is_visible());
    assert_eq!(m.title(), "Confirm");
}

#[test]
fn show_and_hide() {
    let mut m = Modal::new("Dialog");
    m.show();
    assert!(m.is_visible());
    m.hide_dialog();
    assert!(!m.is_visible());
}

#[test]
fn show_idempotent() {
    let mut m = Modal::new("Test");
    m.show();
    m.show();
    assert!(m.is_visible());
}

#[test]
fn hide_idempotent() {
    let mut m = Modal::new("Test");
    m.hide_dialog();
    assert!(!m.is_visible());
}
