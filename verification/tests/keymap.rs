use egaku::{KeyCombo, KeyMap};

#[derive(Debug, Clone, PartialEq)]
enum Action {
    Quit,
    Save,
    Copy,
    Paste,
}

#[test]
fn bind_and_lookup() {
    let mut km = KeyMap::new();
    let combo = KeyCombo::key("q");
    km.bind(combo.clone(), Action::Quit);
    assert_eq!(km.lookup(&combo), Some(&Action::Quit));
}

#[test]
fn lookup_missing() {
    let km: KeyMap<Action> = KeyMap::new();
    assert_eq!(km.lookup(&KeyCombo::key("x")), None);
}

#[test]
fn bind_with_modifiers() {
    let mut km = KeyMap::new();
    let combo = KeyCombo::new("s", vec!["ctrl".into()]);
    km.bind(combo.clone(), Action::Save);
    assert_eq!(km.lookup(&combo), Some(&Action::Save));
}

#[test]
fn modifier_order_normalized() {
    // Modifiers are sorted, so order of input doesn't matter
    let a = KeyCombo::new("c", vec!["shift".into(), "ctrl".into()]);
    let b = KeyCombo::new("c", vec!["ctrl".into(), "shift".into()]);
    assert_eq!(a, b);

    let mut km = KeyMap::new();
    km.bind(a, Action::Copy);
    assert_eq!(km.lookup(&b), Some(&Action::Copy));
}

/// The three silent misses this type used to have, each pinned.
///
/// Every one of them produced `None` from a lookup with no error
/// anywhere: you bind a key, press it, and nothing happens.
#[test]
fn case_does_not_split_a_chord() {
    // What a human writes in a binding table vs. what egaku-term's
    // crossterm adapter delivers.
    let mut km = KeyMap::new();
    km.bind(KeyCombo::new("s", vec!["Ctrl".into()]), Action::Save);
    assert_eq!(
        km.lookup(&KeyCombo::new("s", vec!["ctrl".into()])),
        Some(&Action::Save),
        "`Ctrl` and `ctrl` are one chord",
    );
}

#[test]
fn a_repeated_modifier_does_not_split_a_chord() {
    let mut km = KeyMap::new();
    km.bind(
        KeyCombo::new("c", vec!["ctrl".into(), "ctrl".into()]),
        Action::Copy,
    );
    assert_eq!(
        km.lookup(&KeyCombo::new("c", vec!["ctrl".into()])),
        Some(&Action::Copy),
        "holding ctrl twice is holding ctrl",
    );
}

#[test]
fn the_fleets_two_spellings_are_one_key() {
    // The trap `ishou_tokens::fleet_keybinds` documents: its atlas
    // says `escape`/`return`, egaku-term delivers `esc`/`enter`.
    assert_eq!(KeyCombo::key("escape"), KeyCombo::key("esc"));
    assert_eq!(KeyCombo::key("return"), KeyCombo::key("enter"));

    let mut km = KeyMap::new();
    km.bind(KeyCombo::key("escape"), Action::Quit);
    assert_eq!(
        km.lookup(&KeyCombo::key("esc")),
        Some(&Action::Quit),
        "a chord taken from the fleet atlas must reach a real press",
    );
}

#[test]
fn the_spacebar_is_bindable() {
    // egaku-term pinned this as broken:
    // `the_spacebar_dispatches_on_the_typed_path_and_is_dead_on_the_string_path`
    // — a real press delivered the name `" "`, so the `space`
    // binding anyone would actually write was unreachable.
    let mut km = KeyMap::new();
    km.bind(KeyCombo::key("space"), Action::Paste);
    assert_eq!(
        km.lookup(&KeyCombo::key(" ")),
        Some(&Action::Paste),
        "a literal space is the spacebar",
    );
}

#[test]
fn one_shift_tab_press_is_one_value_however_the_terminal_reports_it() {
    // egaku-term's string path emits the name "backtab" and adds
    // "shift" only when crossterm sets it — which its own comment
    // says it does NOT always do. So the same physical press arrived
    // as two different values, neither reachable from the other.
    let bare = KeyCombo::key("backtab");
    let shifted = KeyCombo::new("backtab", vec!["shift".into()]);
    assert_eq!(bare, shifted, "both spellings are one keypress");

    // …and it is the same chord as an explicitly written shift+tab,
    // which is what BackTab MEANS and what the typed path resolves.
    assert_eq!(bare, KeyCombo::new("tab", vec!["shift".into()]));

    let mut km = KeyMap::new();
    km.bind(KeyCombo::key("backtab"), Action::Quit);
    assert_eq!(km.lookup(&shifted), Some(&Action::Quit));
    assert_eq!(
        km.lookup(&KeyCombo::new("tab", vec!["shift".into()])),
        Some(&Action::Quit),
    );
    // A plain Tab must NOT collide with it.
    assert_eq!(km.lookup(&KeyCombo::key("tab")), None);
}

#[test]
fn keys_outside_awases_vocabulary_still_round_trip() {
    // The stated limit, measured rather than asserted. A recon pass
    // claimed 27 names were broken; those were measured against
    // `awase::Key::from_name`, which this path does not call. Through
    // `KeyCombo` they are kept verbatim and bind/look up correctly —
    // and, critically, stay DISTINCT from one another.
    let exotic = ["!", "@", "#", "$", "%", "^", "&", "*", "(", ")", "f21", "f35"];
    let mut km = KeyMap::new();
    for (i, n) in exotic.iter().enumerate() {
        km.bind(KeyCombo::key(n), i);
    }
    assert_eq!(km.len(), exotic.len(), "no two collapsed into one");
    for (i, n) in exotic.iter().enumerate() {
        assert_eq!(km.lookup(&KeyCombo::key(n)), Some(&i), "{n} did not round-trip");
    }
}

#[test]
fn a_key_awase_does_not_know_still_works() {
    // The stated limit. `backtab` is outside awase's vocabulary and
    // must keep the old exact-match behaviour rather than being
    // dropped — a canonicalisation that silently lost a binding
    // would be the same defect wearing a different hat.
    // `backtab` is no longer an example — it resolves to shift+tab
    // now. Use a name awase genuinely does not carry.
    let mut km = KeyMap::new();
    km.bind(KeyCombo::key("kp_begin"), Action::Quit);
    assert_eq!(km.lookup(&KeyCombo::key("kp_begin")), Some(&Action::Quit));
    // …and case is still closed on that path.
    assert_eq!(km.lookup(&KeyCombo::key("KP_Begin")), Some(&Action::Quit));
}

#[test]
fn canonicalising_is_idempotent() {
    // Round-tripping a stored combo back through the constructor
    // must not move it, or a value read out of a map and rebuilt
    // would stop matching itself.
    for (k, mods) in [
        ("escape", vec![]),
        (" ", vec![]),
        ("s", vec!["Ctrl".to_string()]),
        ("backtab", vec!["shift".to_string()]),
    ] {
        let once = KeyCombo::new(k, mods.clone());
        let twice = KeyCombo::new(&once.key, once.modifiers.clone());
        assert_eq!(once, twice, "not idempotent for {k:?} + {mods:?}");
    }
}


#[test]
fn unbind() {
    let mut km = KeyMap::new();
    let combo = KeyCombo::key("q");
    km.bind(combo.clone(), Action::Quit);
    assert_eq!(km.len(), 1);
    km.unbind(&combo);
    assert_eq!(km.lookup(&combo), None);
    assert!(km.is_empty());
}

#[test]
fn overwrite_binding() {
    let mut km = KeyMap::new();
    let combo = KeyCombo::key("v");
    km.bind(combo.clone(), Action::Copy);
    km.bind(combo.clone(), Action::Paste);
    assert_eq!(km.lookup(&combo), Some(&Action::Paste));
    assert_eq!(km.len(), 1);
}
