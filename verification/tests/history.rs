use rust_graph::editor::history::{
    clear, put, redo, snapshot, take, undo, EditKind, History, MAX_ENTRIES,
};

#[test]
fn undo_restores_snapshot() {
    let mut h = History::new();
    snapshot(&mut h, &["hello".to_string()], (0, 5), EditKind::Other, 0);
    let u = undo(&mut h, &["hello!".to_string()], (0, 6)).unwrap();
    assert_eq!(u.lines, vec!["hello".to_string()]);
    assert_eq!(u.cursor, (0, 5));
}

#[test]
fn redo_reverses_undo() {
    let mut h = History::new();
    snapshot(&mut h, &["a".to_string()], (0, 1), EditKind::Other, 0);
    let u = undo(&mut h, &["ab".to_string()], (0, 2)).unwrap();
    assert_eq!(u.lines, vec!["a".to_string()]);
    let r = redo(&mut h, &["a".to_string()], (0, 1)).unwrap();
    assert_eq!(r.lines, vec!["ab".to_string()]);
    assert_eq!(r.cursor, (0, 2));
}

#[test]
fn empty_stacks_return_none() {
    let mut h = History::new();
    assert!(undo(&mut h, &["x".to_string()], (0, 1)).is_none());
    assert!(redo(&mut h, &["x".to_string()], (0, 1)).is_none());
}

#[test]
fn new_edit_clears_redo() {
    let mut h = History::new();
    snapshot(&mut h, &["a".to_string()], (0, 1), EditKind::Other, 0);
    undo(&mut h, &["ab".to_string()], (0, 2));
    // A new edit after an undo discards the redo stack.
    snapshot(&mut h, &["ab".to_string()], (0, 2), EditKind::Other, 0);
    assert!(redo(&mut h, &["abc".to_string()], (0, 3)).is_none());
}

#[test]
fn char_burst_coalesces_into_one_undo_step() {
    let mut h = History::new();
    snapshot(&mut h, &["".to_string()], (0, 0), EditKind::CharInsert, 0);
    snapshot(&mut h, &["a".to_string()], (0, 1), EditKind::CharInsert, 100);
    snapshot(&mut h, &["ab".to_string()], (0, 2), EditKind::CharInsert, 250);
    // One undo removes the whole "ab" run in a single step.
    let u = undo(&mut h, &["ab".to_string()], (0, 2)).unwrap();
    assert_eq!(u.lines, vec!["".to_string()]);
    assert_eq!(u.cursor, (0, 0));
}

#[test]
fn caret_move_breaks_burst() {
    let mut h = History::new();
    snapshot(&mut h, &["a".to_string()], (0, 1), EditKind::CharInsert, 0);
    // Typing continues on another line: a fresh snapshot is needed.
    snapshot(&mut h, &["a".to_string(), "b".to_string()], (1, 1), EditKind::CharInsert, 50);
    let u = undo(&mut h, &["a".to_string(), "b".to_string()], (1, 1)).unwrap();
    assert_eq!(u.lines, vec!["a".to_string(), "b".to_string()]);
    assert_eq!(u.cursor, (1, 1));
}

#[test]
fn time_gap_breaks_burst() {
    let mut h = History::new();
    snapshot(&mut h, &["".to_string()], (0, 0), EditKind::CharInsert, 0);
    // 10 s later the same position starts a new burst and records its own
    // pre-state, so undoing once lands at "b" rather than the run start.
    snapshot(&mut h, &["b".to_string()], (0, 1), EditKind::CharInsert, 10_000);
    let u = undo(&mut h, &["b".to_string()], (0, 1)).unwrap();
    assert_eq!(u.lines, vec!["b".to_string()]);
    assert_eq!(u.cursor, (0, 1));
}

#[test]
fn other_edit_breaks_burst_and_snapshots() {
    let mut h = History::new();
    snapshot(&mut h, &["a".to_string()], (0, 1), EditKind::CharInsert, 0);
    snapshot(&mut h, &["ab".to_string()], (0, 2), EditKind::Other, 10);
    let u = undo(&mut h, &["abc".to_string()], (0, 3)).unwrap();
    assert_eq!(u.lines, vec!["ab".to_string()]);
    assert_eq!(u.cursor, (0, 2));
}

#[test]
fn undo_then_type_starts_fresh_burst() {
    let mut h = History::new();
    snapshot(&mut h, &["".to_string()], (0, 0), EditKind::CharInsert, 0);
    snapshot(&mut h, &["a".to_string()], (0, 1), EditKind::CharInsert, 100);
    // Undo, then keep typing at the restored caret: the burst must not
    // absorb the character typed after the undo.
    undo(&mut h, &["a".to_string()], (0, 1));
    snapshot(&mut h, &["".to_string()], (0, 0), EditKind::CharInsert, 200);
    let u = undo(&mut h, &["x".to_string()], (0, 1)).unwrap();
    assert_eq!(u.lines, vec!["".to_string()]);
    assert_eq!(u.cursor, (0, 0));
}

#[test]
fn cap_evicts_oldest() {
    let mut h = History::new();
    let over = MAX_ENTRIES + 5;
    for i in 0..over {
        let caret = (0, i as i32);
        snapshot(&mut h, &[format!("l{i}")], caret, EditKind::Other, i as u64);
    }
    // The newest entry is the first one popped...
    let first = undo(&mut h, &["tail".to_string()], (0, 0)).unwrap();
    assert_eq!(first.lines, vec![format!("l{}", over - 1)]);
    // ...and only MAX_ENTRIES survive the eviction.
    let mut count = 1;
    while undo(&mut h, &["x".to_string()], (0, 0)).is_some() {
        count += 1;
    }
    assert_eq!(count, MAX_ENTRIES);
}

#[test]
fn undo_redo_round_trip_restores_both_states() {
    let mut h = History::new();
    snapshot(&mut h, &["one".to_string()], (0, 3), EditKind::Other, 0);
    let u = undo(&mut h, &["two".to_string()], (0, 3)).unwrap();
    let r = redo(&mut h, &u.lines, u.cursor).unwrap();
    assert_eq!(r.lines, vec!["two".to_string()]);
    let again = undo(&mut h, &r.lines, r.cursor).unwrap();
    assert_eq!(again.lines, vec!["one".to_string()]);
}

#[test]
fn take_and_put_move_the_stacks() {
    let mut h = History::new();
    snapshot(&mut h, &["keep".to_string()], (0, 4), EditKind::Other, 0);
    let (u, r, run) = take(&mut h);
    assert!(undo(&mut h, &["x".to_string()], (0, 0)).is_none());
    put(&mut h, u, r, run);
    let back = undo(&mut h, &["x".to_string()], (0, 0)).unwrap();
    assert_eq!(back.lines, vec!["keep".to_string()]);
    clear(&mut h);
    assert!(redo(&mut h, &["x".to_string()], (0, 0)).is_none());
}
