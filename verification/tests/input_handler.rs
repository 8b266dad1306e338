use rust_graph::editor::input_handler::{
    next_word_boundary, next_word_end, prev_word_boundary, prev_word_start, remove_command_text,
};

#[test]
fn word_moves_left() {
    let line = "alpha  beta gamma";
    assert_eq!(prev_word_boundary(line, 17), 12);
    assert_eq!(prev_word_boundary(line, 12), 7);
    assert_eq!(prev_word_boundary(line, 7), 0);
    assert_eq!(prev_word_boundary(line, 0), 0);
    assert_eq!(prev_word_start(line, 99), 12);
}

#[test]
fn word_moves_right() {
    let line = "alpha  beta gamma";
    assert_eq!(next_word_end(line, 0), 5);
    assert_eq!(next_word_end(line, 5), 11);
    assert_eq!(next_word_boundary(line, 0), 7);
    assert_eq!(next_word_boundary(line, 7), 12);
    assert_eq!(next_word_boundary(line, 12), 17);
    assert_eq!(next_word_boundary(line, 99), 17);
}

#[test]
fn word_moves_keep_multibyte_characters_whole() {
    let line = "héllo wörld";
    let r = next_word_end(line, 0);
    assert_eq!(r, 6);
    assert!(line.is_char_boundary(r));
    assert_eq!(prev_word_boundary(line, line.len()), 7);
}

#[test]
fn command_text_is_removed_up_to_the_caret() {
    let mut b = vec!["see /add".to_string(), "x".to_string()];
    assert_eq!(remove_command_text(&mut b, 0, 8), 4);
    assert_eq!(b, vec!["see ".to_string(), "x".to_string()]);
    let mut c = vec!["/asset tail".to_string()];
    assert_eq!(remove_command_text(&mut c, 0, 6), 0);
    assert_eq!(c, vec![" tail".to_string()]);
    let mut d = vec!["a/b".to_string()];
    assert_eq!(remove_command_text(&mut d, 0, 3), 3);
    assert_eq!(d, vec!["a/b".to_string()]);
}
