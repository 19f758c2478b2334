use gofer2::monitor::ClipboardState;
use gofer2::monitor::PollEvent;
use gofer2::monitor::poll_step;
use gofer2::store::DictionarySource;
use gofer2::store::MappingSet;
use gofer2::store::load_all_mappings;

fn set_with(rows: &[(&str, &str)]) -> MappingSet {
    let src = DictionarySource {
        location: "dict.csv".to_string(),
        header: vec!["English".to_string(), "French".to_string()],
        rows: rows.iter().map(|(s, t)| vec![s.to_string(), t.to_string()]).collect(),
    };
    load_all_mappings(&vec![src]).expect("load should succeed")
}

fn copy(state: &mut ClipboardState, set: &MappingSet, count: i64, text: &str, at: u64) -> PollEvent {
    poll_step(state, set, count, Some(text.to_string()), at)
}

#[test]
fn unchanged_counter_is_a_noop() {
    let set = set_with(&[("cat", "chat")]);
    let mut state = ClipboardState::new();
    let e = copy(&mut state, &set, 1, "cat", 0);
    assert_eq!(e, PollEvent::Armed);
    // Same counter again: nothing happens, even with the same text.
    let e = copy(&mut state, &set, 1, "cat", 100);
    assert_eq!(e, PollEvent::Unchanged);
    assert_eq!(state.consecutive_copies, 1);
    assert_eq!(state.last_copy_time, 0);
}

#[test]
fn rapid_double_copy_triggers_lookup() {
    // Copy "cat" at t=0 (counter 1), again at t=0.5s (counter 2): the second
    // poll fires the trigger and resolves "cat".
    let set = set_with(&[("cat", "chat")]);
    let mut state = ClipboardState::new();
    let e = copy(&mut state, &set, 1, "cat", 0);
    assert_eq!(e, PollEvent::Armed);
    let e = copy(&mut state, &set, 2, "cat", 500);
    match e {
        PollEvent::MappingFound { query, mapping } => {
            assert_eq!(query, "cat");
            assert_eq!(mapping.value, "chat");
            assert_eq!(mapping.source_name, "English");
            assert_eq!(mapping.target_name, "French");
        }
        other => panic!("expected MappingFound, got {:?}", other),
    }
    assert_eq!(state.consecutive_copies, 0);
}

#[test]
fn slow_double_copy_only_rebaselines() {
    // Copy "cat" at t=0, again at t=2.0s: no trigger; the second copy is the
    // new baseline with the new timestamp.
    let set = set_with(&[("cat", "chat")]);
    let mut state = ClipboardState::new();
    assert_eq!(copy(&mut state, &set, 1, "cat", 0), PollEvent::Armed);
    let e = copy(&mut state, &set, 2, "cat", 2000);
    assert_eq!(e, PollEvent::Armed);
    assert_eq!(state.consecutive_copies, 1);
    assert_eq!(state.last_content, "cat");
    assert_eq!(state.last_copy_time, 2000);
}

#[test]
fn gap_just_inside_window_triggers_just_outside_does_not() {
    let set = set_with(&[("cat", "chat")]);
    let mut state = ClipboardState::new();
    copy(&mut state, &set, 1, "cat", 0);
    assert!(matches!(
        copy(&mut state, &set, 2, "cat", 999),
        PollEvent::MappingFound { .. }
    ));
    let mut state = ClipboardState::new();
    copy(&mut state, &set, 1, "cat", 0);
    assert_eq!(copy(&mut state, &set, 2, "cat", 1000), PollEvent::Armed);
}

#[test]
fn different_text_never_triggers() {
    let set = set_with(&[("cat", "chat"), ("dog", "chien")]);
    let mut state = ClipboardState::new();
    assert_eq!(copy(&mut state, &set, 1, "cat", 0), PollEvent::Armed);
    let e = copy(&mut state, &set, 2, "dog", 100);
    assert_eq!(e, PollEvent::Armed);
    assert_eq!(state.consecutive_copies, 1);
    assert_eq!(state.last_content, "dog");
    // The new baseline works: a rapid repeat of "dog" triggers.
    assert!(matches!(
        copy(&mut state, &set, 3, "dog", 200),
        PollEvent::MappingFound { .. }
    ));
}

#[test]
fn triple_copy_triggers_exactly_once() {
    let set = set_with(&[("cat", "chat")]);
    let mut state = ClipboardState::new();
    assert_eq!(copy(&mut state, &set, 1, "cat", 0), PollEvent::Armed);
    assert!(matches!(
        copy(&mut state, &set, 2, "cat", 300),
        PollEvent::MappingFound { .. }
    ));
    // The third rapid copy does not re-trigger by itself...
    assert_eq!(copy(&mut state, &set, 3, "cat", 600), PollEvent::Armed);
    // ...but a fourth rapid copy completes a fresh gesture.
    assert!(matches!(
        copy(&mut state, &set, 4, "cat", 900),
        PollEvent::MappingFound { .. }
    ));
}

#[test]
fn unmapped_text_reports_not_found() {
    let set = set_with(&[("cat", "chat")]);
    let mut state = ClipboardState::new();
    copy(&mut state, &set, 1, "bird", 0);
    match copy(&mut state, &set, 2, "bird", 100) {
        PollEvent::MappingNotFound { query } => assert_eq!(query, "bird"),
        other => panic!("expected MappingNotFound, got {:?}", other),
    }
}

#[test]
fn lookup_uses_the_trimmed_text() {
    let set = set_with(&[("cat", "chat")]);
    let mut state = ClipboardState::new();
    copy(&mut state, &set, 1, " cat ", 0);
    match copy(&mut state, &set, 2, " cat ", 100) {
        PollEvent::MappingFound { query, mapping } => {
            assert_eq!(query, " cat ");
            assert_eq!(mapping.value, "chat");
        }
        other => panic!("expected MappingFound, got {:?}", other),
    }
}

#[test]
fn non_text_clipboard_resets_hard() {
    let set = set_with(&[("cat", "chat")]);
    let mut state = ClipboardState::new();
    assert_eq!(copy(&mut state, &set, 1, "cat", 0), PollEvent::Armed);
    let e = poll_step(&mut state, &set, 2, None, 100);
    assert_eq!(e, PollEvent::Cleared);
    assert_eq!(state.consecutive_copies, 0);
    assert_eq!(state.last_content, "");
    // A single copy of "cat" right after the reset does not trigger.
    assert_eq!(copy(&mut state, &set, 3, "cat", 200), PollEvent::Armed);
}

#[test]
fn fresh_state_starts_idle() {
    let state = ClipboardState::new();
    assert_eq!(state.consecutive_copies, 0);
    assert_eq!(state.last_change_count, 0);
    assert_eq!(state.last_content, "");
}
