use egaku::picker::{
    fuzzy_score, rank_matches, PickerCore, PickerEffect, PickerEvent, PickerState, PickerStep,
};

fn all_events() -> Vec<PickerEvent> {
    vec![
        PickerEvent::Open,
        PickerEvent::Type('x'),
        PickerEvent::Backspace,
        PickerEvent::NavUp,
        PickerEvent::NavDown,
        PickerEvent::Accept,
        PickerEvent::Cancel,
    ]
}

#[test]
fn fsm_is_total_every_state_every_event() {
    // No (state, event) pair panics or is missing — on_event returns
    // a step for all 2 × 7 = 14 combinations.
    for state in PickerState::ALL {
        for ev in all_events() {
            let step: PickerStep<()> = state.on_event(&ev);
            // The next state is always a valid variant.
            assert!(PickerState::ALL.contains(&step.state));
        }
    }
}

#[test]
fn closed_only_open_acts() {
    for ev in all_events() {
        let step: PickerStep<()> = PickerState::Closed.on_event(&ev);
        match ev {
            PickerEvent::Open => {
                assert_eq!(step.state, PickerState::Open);
                assert_eq!(step.effects, vec![PickerEffect::Opened]);
            }
            _ => {
                assert_eq!(step.state, PickerState::Closed);
                assert!(step.effects.is_empty(), "closed picker ignores {ev:?}");
            }
        }
    }
}

#[test]
fn fuzzy_subsequence_and_miss() {
    assert!(fuzzy_score("dpl", "deploy").is_some());
    assert!(fuzzy_score("xyz", "deploy").is_none());
}

#[test]
fn fuzzy_empty_needle_matches_all() {
    assert_eq!(fuzzy_score("", "anything"), Some(0));
}

#[test]
fn fuzzy_is_case_insensitive() {
    assert!(fuzzy_score("GIT", "git commit").is_some());
}

#[test]
fn fuzzy_start_bonus_outranks_mid() {
    let start = fuzzy_score("g", "git").unwrap();
    let mid = fuzzy_score("g", "a-g").unwrap();
    // Start-of-string bonus (+8) beats the word-boundary bonus (+6).
    assert!(start > mid, "start {start} should beat boundary {mid}");
}

// ── The picker's logic over items known by index ──

fn command_core() -> PickerCore {
    let labels = ["git commit", "git push", "deploy", "docker build"];
    PickerCore::new(labels.iter().map(|l| l.to_string()).collect(), vec![0; 4])
}

/// alpha, beta, gamma with frecency ranks 1, 5, 2.
fn ranked_core() -> PickerCore {
    let labels = ["alpha", "beta", "gamma"];
    PickerCore::new(labels.iter().map(|l| l.to_string()).collect(), vec![1, 5, 2])
}

fn step(p: &mut PickerCore, e: PickerEvent) -> Vec<PickerEffect<usize>> {
    p.on_event(e).expect("scores fit")
}

fn labels_of(p: &PickerCore, labels: &[&str]) -> Vec<String> {
    p.filtered().iter().map(|&i| labels[i].to_string()).collect()
}

const COMMANDS: [&str; 4] = ["git commit", "git push", "deploy", "docker build"];

#[test]
fn open_shows_all_then_type_filters() {
    let mut p = command_core();
    assert!(!p.is_open());
    assert_eq!(step(&mut p, PickerEvent::Open), vec![PickerEffect::Opened]);
    assert!(p.is_open());
    assert_eq!(p.visible_count(), 4);
    step(&mut p, PickerEvent::Type('g'));
    step(&mut p, PickerEvent::Type('i'));
    let fx = step(&mut p, PickerEvent::Type('t'));
    assert_eq!(p.query(), "git");
    assert_eq!(p.visible_count(), 2);
    assert_eq!(fx, vec![PickerEffect::Filtered { visible: 2 }]);
    assert!(labels_of(&p, &COMMANDS).iter().all(|l| l.starts_with("git")));
    assert_eq!(p.filtered(), &[0, 1]);
}

#[test]
fn backspace_widens_filter() {
    let mut p = command_core();
    step(&mut p, PickerEvent::Open);
    for c in "git".chars() {
        step(&mut p, PickerEvent::Type(c));
    }
    assert_eq!(p.visible_count(), 2);
    let fx = step(&mut p, PickerEvent::Backspace);
    assert_eq!(p.query(), "gi");
    assert_eq!(fx, vec![PickerEffect::Filtered { visible: 2 }]);
    step(&mut p, PickerEvent::Backspace);
    step(&mut p, PickerEvent::Backspace);
    assert_eq!(p.query(), "");
    assert_eq!(p.visible_count(), 4);
}

#[test]
fn empty_query_shows_all_frecency_ranked() {
    let mut p = ranked_core();
    step(&mut p, PickerEvent::Open);
    assert_eq!(p.query(), "");
    assert_eq!(p.visible_count(), 3);
    // beta (5), gamma (2), alpha (1).
    assert_eq!(p.filtered(), &[1, 2, 0]);
}

#[test]
fn frecency_breaks_fuzzy_ties() {
    let mut p = PickerCore::new(vec!["a-low".to_string(), "a-high".to_string()], vec![1, 9]);
    step(&mut p, PickerEvent::Open);
    step(&mut p, PickerEvent::Type('a'));
    // Both match "a" at the start equally, so the rank decides.
    assert_eq!(p.filtered(), &[1, 0]);
}

#[test]
fn equal_ranks_keep_the_item_order() {
    let labels = vec!["a-low".to_string(), "a-high".to_string(), "a-mid".to_string(), "a-also".to_string()];
    let mut p = PickerCore::new(labels, vec![1, 9, 3, 3]);
    step(&mut p, PickerEvent::Open);
    step(&mut p, PickerEvent::Type('a'));
    assert_eq!(p.filtered(), &[1, 2, 3, 0]);
}

#[test]
fn a_better_match_outranks_a_higher_rank() {
    // "de" starts "deploy" but only ends "code"; the start bonus wins over
    // the other item's frecency.
    let labels = vec!["code".to_string(), "deploy".to_string()];
    let mut p = PickerCore::new(labels, vec![100, 0]);
    step(&mut p, PickerEvent::Open);
    step(&mut p, PickerEvent::Type('d'));
    step(&mut p, PickerEvent::Type('e'));
    assert_eq!(p.filtered(), &[1, 0]);
}

#[test]
fn nav_down_up_wraps() {
    let mut p = ranked_core();
    step(&mut p, PickerEvent::Open);
    assert_eq!(p.selected(), 0);
    assert_eq!(step(&mut p, PickerEvent::NavDown), vec![PickerEffect::Moved { index: 1 }]);
    assert_eq!(p.selected(), 1);
    step(&mut p, PickerEvent::NavDown);
    assert_eq!(p.selected(), 2);
    assert_eq!(step(&mut p, PickerEvent::NavDown), vec![PickerEffect::Moved { index: 0 }]);
    assert_eq!(p.selected(), 0);
    assert_eq!(step(&mut p, PickerEvent::NavUp), vec![PickerEffect::Moved { index: 2 }]);
    assert_eq!(p.selected(), 2);
}

#[test]
fn nav_on_empty_results_is_noop() {
    let mut p = command_core();
    step(&mut p, PickerEvent::Open);
    for c in "zzzz".chars() {
        step(&mut p, PickerEvent::Type(c));
    }
    assert_eq!(p.visible_count(), 0);
    step(&mut p, PickerEvent::NavDown);
    step(&mut p, PickerEvent::NavUp);
    assert_eq!(p.selected(), 0);
    assert_eq!(p.selected_item(), None);
}

#[test]
fn typing_resets_highlight_to_top() {
    let mut p = ranked_core();
    step(&mut p, PickerEvent::Open);
    step(&mut p, PickerEvent::NavDown);
    assert_eq!(p.selected(), 1);
    step(&mut p, PickerEvent::Type('a'));
    assert_eq!(p.selected(), 0);
}

#[test]
fn accept_emits_selected_key_and_closes() {
    let mut p = command_core();
    step(&mut p, PickerEvent::Open);
    for c in "deploy".chars() {
        step(&mut p, PickerEvent::Type(c));
    }
    // "deploy" is item 2.
    assert_eq!(p.selected_item(), Some(2));
    let fx = step(&mut p, PickerEvent::Accept);
    assert!(!p.is_open(), "accept closes the overlay");
    assert_eq!(fx, vec![PickerEffect::Accepted { key: 2 }]);
}

#[test]
fn accept_with_no_rows_closes_without_accepted() {
    let mut p = command_core();
    step(&mut p, PickerEvent::Open);
    for c in "zzzz".chars() {
        step(&mut p, PickerEvent::Type(c));
    }
    assert_eq!(p.visible_count(), 0);
    let fx = step(&mut p, PickerEvent::Accept);
    assert!(!p.is_open());
    assert!(!fx.iter().any(|e| matches!(e, PickerEffect::Accepted { .. })));
}

#[test]
fn reopen_clears_the_query_and_reseeds() {
    let mut p = command_core();
    step(&mut p, PickerEvent::Open);
    for c in "git".chars() {
        step(&mut p, PickerEvent::Type(c));
    }
    assert_eq!(p.query(), "git");
    assert_eq!(p.visible_count(), 2);
    assert_eq!(step(&mut p, PickerEvent::Open), vec![PickerEffect::Opened]);
    assert!(p.is_open());
    assert_eq!(p.query(), "");
    assert_eq!(p.cursor(), 0);
    assert_eq!(p.visible_count(), 4);
}

#[test]
fn cancel_emits_cancelled_and_closes() {
    let mut p = ranked_core();
    step(&mut p, PickerEvent::Open);
    let fx = step(&mut p, PickerEvent::Cancel);
    assert!(!p.is_open());
    assert_eq!(fx, vec![PickerEffect::Cancelled]);
    assert_eq!(p.state(), PickerState::Closed);
}

#[test]
fn a_closed_picker_does_not_edit_its_query() {
    let mut p = ranked_core();
    assert_eq!(step(&mut p, PickerEvent::Type('x')), vec![]);
    assert_eq!(p.query(), "");
}

#[test]
fn numeric_id_accept_round_trips_the_key() {
    let mut p = ranked_core();
    step(&mut p, PickerEvent::Open);
    // Empty query, ranked: the top row is beta, item 1.
    assert_eq!(step(&mut p, PickerEvent::Accept), vec![PickerEffect::Accepted { key: 1 }]);
}

#[test]
fn set_items_refilters_and_resets() {
    let mut p = command_core();
    step(&mut p, PickerEvent::Open);
    step(&mut p, PickerEvent::NavDown);
    assert!(p.set_items(vec!["xenon".to_string()], vec![0]));
    assert_eq!(p.visible_count(), 1);
    assert_eq!(p.selected(), 0);
    assert_eq!(p.selected_item(), Some(0));
}

#[test]
fn view_exposes_query_cursor_rows_selected() {
    let mut p = ranked_core();
    step(&mut p, PickerEvent::Open);
    step(&mut p, PickerEvent::Type('b'));
    assert_eq!(p.query(), "b");
    assert_eq!(p.cursor(), 1);
    assert_eq!(p.selected(), 0);
    assert!(labels_of(&p, &["alpha", "beta", "gamma"]).iter().any(|l| l == "beta"));
}

#[test]
fn rank_matches_orders_by_score_then_rank_then_position() {
    let scores = vec![Some(3), None, Some(7), Some(3), Some(3)];
    let ranks = vec![1, 50, 0, 2, 1];
    assert_eq!(rank_matches(&scores, &ranks), vec![2, 3, 0, 4]);
}
