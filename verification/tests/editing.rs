use rust_graph::editor::history::EditKind;
use rust_graph::editor::input_handler::{key_plan, EditKey, KeyPlan};
use rust_graph::editor::buffer::{delete_selection, VisualLine};
use rust_graph::editor::input_handler::{
    accepts_typed, backspace, break_line, caret_left, caret_right, caret_vertical, click_selection,
    cycle_selection, delete_forward, delete_word_after, delete_word_before, drag_scroll, insert_char,
    new_node_stem, paste_text, popup_row, restore_caret, select_all_caret, selection_text, unindent,
    visual_line_at, word_left, word_right,
};

fn lines(v: &[&str]) -> Vec<String> {
    v.iter().map(|s| s.to_string()).collect()
}

#[test]
fn copy_takes_the_selected_text() {
    let b = lines(&["hello world", "middle", "last line"]);
    assert_eq!(selection_text(&b, 0, 6, 0, 11), "world");
    assert_eq!(selection_text(&b, 0, 6, 2, 4), "world\nmiddle\nlast");
    assert_eq!(selection_text(&b, 0, 11, 1, 0), "\n");
}

#[test]
fn paste_one_piece_goes_into_the_line() {
    let mut b = lines(&["abcd"]);
    assert_eq!(paste_text(&mut b, 0, 2, "XY"), (4, 0));
    assert_eq!(b, lines(&["abXYcd"]));
}

#[test]
fn paste_several_pieces_splits_the_line() {
    let mut b = lines(&["abcd", "z"]);
    assert_eq!(paste_text(&mut b, 0, 2, "one\ntwo\nthree"), (5, 2));
    assert_eq!(b, lines(&["abone", "two", "threecd", "z"]));
}

#[test]
fn paste_keeps_a_trailing_empty_piece() {
    let mut b = lines(&["ab"]);
    assert_eq!(paste_text(&mut b, 0, 1, "x\n"), (0, 1));
    assert_eq!(b, lines(&["ax", "b"]));
}

#[test]
fn paste_empty_text_changes_nothing() {
    let mut b = lines(&["ab"]);
    assert_eq!(paste_text(&mut b, 0, 1, ""), (1, 0));
    assert_eq!(b, lines(&["ab"]));
}

#[test]
fn cut_then_paste_restores_the_lines() {
    let orig = lines(&["first line", "second", "third line"]);
    let mut b = orig.clone();
    let text = selection_text(&b, 0, 6, 2, 5);
    assert_eq!(delete_selection(&mut b, 0, 6, 2, 5), (6, 0));
    assert_eq!(b, lines(&["first  line"]));
    assert_eq!(paste_text(&mut b, 0, 6, &text), (5, 2));
    assert_eq!(b, orig);
}

#[test]
fn backspace_removes_before_the_caret_or_joins_lines() {
    let mut b = lines(&["abc", "de"]);
    assert_eq!(backspace(&mut b, 0, 2), (1, 0));
    assert_eq!(b, lines(&["ac", "de"]));
    assert_eq!(backspace(&mut b, 1, 0), (2, 0));
    assert_eq!(b, lines(&["acde"]));
    assert_eq!(backspace(&mut b, 0, 0), (0, 0));
    assert_eq!(b, lines(&["acde"]));
}

#[test]
fn backspace_removes_a_whole_character() {
    let mut b = lines(&["aéb"]);
    assert_eq!(backspace(&mut b, 0, 2), (1, 0));
    assert_eq!(b, lines(&["ab"]));
}

#[test]
fn delete_removes_at_the_caret_or_joins_the_next_line() {
    let mut b = lines(&["abc", "de"]);
    delete_forward(&mut b, 0, 1);
    assert_eq!(b, lines(&["ac", "de"]));
    delete_forward(&mut b, 0, 2);
    assert_eq!(b, lines(&["acde"]));
    delete_forward(&mut b, 0, 4);
    assert_eq!(b, lines(&["acde"]));
}

#[test]
fn enter_splits_the_line() {
    let mut b = lines(&["hello", "x"]);
    assert_eq!(break_line(&mut b, 0, 2), (0, 1));
    assert_eq!(b, lines(&["he", "llo", "x"]));
}

#[test]
fn enter_then_backspace_restores() {
    let orig = lines(&["hello"]);
    let mut b = orig.clone();
    break_line(&mut b, 0, 3);
    assert_eq!(backspace(&mut b, 1, 0), (3, 0));
    assert_eq!(b, orig);
}

#[test]
fn typing_inserts_and_backspace_takes_it_back() {
    let orig = lines(&["ab"]);
    let mut b = orig.clone();
    assert_eq!(insert_char(&mut b, 0, 1, 'x'), 2);
    assert_eq!(b, lines(&["axb"]));
    assert_eq!(backspace(&mut b, 0, 2), (1, 0));
    assert_eq!(b, orig);
    assert_eq!(insert_char(&mut b, 0, 1, 'é'), 2);
    assert_eq!(b, lines(&["aéb"]));
    assert_eq!(backspace(&mut b, 0, 2), (1, 0));
    assert_eq!(b, orig);
}

#[test]
fn tab_then_shift_tab_restores() {
    let orig = lines(&["ab"]);
    let mut b = orig.clone();
    assert_eq!(insert_char(&mut b, 0, 0, '\t'), 1);
    assert_eq!(b, lines(&["\tab"]));
    assert_eq!(unindent(&mut b, 0, 1), 0);
    assert_eq!(b, orig);
    assert_eq!(unindent(&mut b, 0, 1), 1);
    assert_eq!(b, orig);
}

#[test]
fn word_deletes() {
    let mut b = lines(&["alpha beta  gamma", "next"]);
    assert_eq!(delete_word_before(&mut b, 0, 12), (6, 0));
    assert_eq!(b, lines(&["alpha gamma", "next"]));
    delete_word_after(&mut b, 0, 5);
    assert_eq!(b, lines(&["alpha", "next"]));
    delete_word_after(&mut b, 0, 5);
    assert_eq!(b, lines(&["alphanext"]));
    let mut c = lines(&["ab", "cd"]);
    assert_eq!(delete_word_before(&mut c, 1, 0), (2, 0));
    assert_eq!(c, lines(&["abcd"]));
}

#[test]
fn arrows_move_by_bytes_and_wrap_lines() {
    let b = lines(&["ab", "c"]);
    assert_eq!(caret_right(&b, 0, 1), (2, 0));
    assert_eq!(caret_right(&b, 0, 2), (0, 1));
    assert_eq!(caret_right(&b, 1, 1), (1, 1));
    assert_eq!(caret_left(&b, 1, 0), (2, 0));
    assert_eq!(caret_left(&b, 0, 0), (0, 0));
    assert_eq!(caret_left(&b, 0, 2), (1, 0));
}

#[test]
fn word_arrows() {
    let b = lines(&["alpha beta", "x"]);
    assert_eq!(word_right(&b, 0, 0), (6, 0));
    assert_eq!(word_right(&b, 0, 10), (0, 1));
    assert_eq!(word_left(&b, 0, 10), (6, 0));
    assert_eq!(word_left(&b, 1, 0), (10, 0));
}

fn vl(line: usize, start: usize, end: usize) -> VisualLine {
    VisualLine { start, end, line, indent: 0 }
}

#[test]
fn vertical_moves_keep_the_offset() {
    let v = vec![vl(0, 0, 10), vl(0, 10, 14), vl(1, 0, 3)];
    assert_eq!(visual_line_at(&v, 12, 0), Some(1));
    assert_eq!(visual_line_at(&v, 10, 0), Some(0));
    assert_eq!(visual_line_at(&v, 5, 2), None);
    assert_eq!(caret_vertical(&v, 1, 12, true), Some((2, 0)));
    assert_eq!(caret_vertical(&v, 0, 8, false), Some((14, 0)));
    assert_eq!(caret_vertical(&v, 1, 12, false), Some((2, 1)));
    assert_eq!(caret_vertical(&v, 0, 3, true), None);
    assert_eq!(caret_vertical(&v, 2, 1, false), None);
}

#[test]
fn select_all_and_restored_carets() {
    let b = lines(&["one", "three"]);
    assert_eq!(select_all_caret(&b), (5, 1));
    assert_eq!(restore_caret(&b, 7, 9), (5, 1));
    assert_eq!(restore_caret(&b, 0, 2), (2, 0));
    assert_eq!(restore_caret(&b, 0, 9), (3, 0));
}

#[test]
fn popup_highlight_wraps_both_ways() {
    assert_eq!(cycle_selection(2, 3, true), 0);
    assert_eq!(cycle_selection(0, 3, false), 2);
    assert_eq!(cycle_selection(1, 3, true), 2);
    for s in 0..4 {
        assert_eq!(cycle_selection(cycle_selection(s, 4, true), 4, false), s);
        assert_eq!(cycle_selection(cycle_selection(s, 4, false), 4, true), s);
    }
}

#[test]
fn popup_row_is_clamped() {
    assert_eq!(popup_row(-5, 20, 4), 0);
    assert_eq!(popup_row(45, 20, 4), 2);
    assert_eq!(popup_row(500, 20, 4), 3);
}

#[test]
fn clicks_select_words_and_lines() {
    let b = lines(&["alpha beta gamma"]);
    assert_eq!(click_selection(&b, 0, 8, 2, false, 0, 0), (6, 0, 10, 0));
    assert_eq!(click_selection(&b, 0, 8, 3, false, 0, 0), (0, 0, 16, 0));
    assert_eq!(click_selection(&b, 0, 8, 1, false, 3, 0), (8, 0, 8, 0));
    assert_eq!(click_selection(&b, 0, 8, 1, true, 3, 0), (3, 0, 8, 0));
}

#[test]
fn control_characters_are_not_typed() {
    assert!(accepts_typed('a'));
    assert!(accepts_typed('é'));
    assert!(!accepts_typed('\n'));
    assert!(!accepts_typed('\u{7f}'));
    assert!(!accepts_typed('\u{85}'));
}

#[test]
fn new_node_names_are_trimmed() {
    assert_eq!(new_node_stem("  idea "), "idea");
    assert_eq!(new_node_stem("   "), "untitled");
    assert_eq!(new_node_stem(""), "untitled");
}

#[test]
fn dragging_near_the_edges_scrolls() {
    assert_eq!(drag_scroll(105, 100, 400, 40), 24);
    assert_eq!(drag_scroll(105, 100, 400, 10), 0);
    assert_eq!(drag_scroll(105, 100, 400, 0), 0);
    assert_eq!(drag_scroll(490, 100, 400, 40), 56);
    assert_eq!(drag_scroll(300, 100, 400, 40), 40);
}

#[test]
fn editing_keys_plan_their_snapshot_and_selection() {
    assert_eq!(
        key_plan(EditKey::Typed, true),
        KeyPlan { snapshot: Some(EditKind::CharInsert), delete_selection: true, key_edit: true }
    );
    assert_eq!(
        key_plan(EditKey::Backspace, true),
        KeyPlan { snapshot: Some(EditKind::Other), delete_selection: true, key_edit: false }
    );
    assert_eq!(
        key_plan(EditKey::Backspace, false),
        KeyPlan { snapshot: Some(EditKind::Other), delete_selection: false, key_edit: true }
    );
    assert_eq!(key_plan(EditKey::Cut, false), KeyPlan { snapshot: None, delete_selection: false, key_edit: false });
    assert_eq!(
        key_plan(EditKey::Enter, true),
        KeyPlan { snapshot: Some(EditKind::Other), delete_selection: true, key_edit: true }
    );
    assert_eq!(
        key_plan(EditKey::AssetLink, true),
        KeyPlan { snapshot: Some(EditKind::Other), delete_selection: false, key_edit: true }
    );
}
