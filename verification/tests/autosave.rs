use rust_graph::editor::{should_autosave, AUTOSAVE_PAUSE_MS};

#[test]
fn autosave_waits_for_a_typing_pause() {
    assert!(should_autosave(true, true, 5000, 3000, AUTOSAVE_PAUSE_MS));
    assert!(!should_autosave(true, true, 4999, 3000, AUTOSAVE_PAUSE_MS));
    // Nothing to save, editor closed, or no edit recorded yet.
    assert!(!should_autosave(true, false, 9000, 3000, AUTOSAVE_PAUSE_MS));
    assert!(!should_autosave(false, true, 9000, 3000, AUTOSAVE_PAUSE_MS));
    assert!(!should_autosave(true, true, 9000, 0, AUTOSAVE_PAUSE_MS));
    // A clock that went back counts as no pause.
    assert!(!should_autosave(true, true, 100, 3000, AUTOSAVE_PAUSE_MS));
}
