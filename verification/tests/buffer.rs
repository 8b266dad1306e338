use rust_graph::editor::buffer::{
    buffer_text, clamp_line_range, delete_selection, ensure_trailing_newline, fold_ranges, load_lines, selection_range, snap_out_of_fold, toggle_fold,
};

fn v(lines: &[&str]) -> Vec<String> {
    lines.iter().map(|s| s.to_string()).collect()
}

#[test]
fn load_keeps_trailing_empty_line() {
    let mut b = v(&["a", "b"]);
    ensure_trailing_newline(&mut b);
    assert_eq!(b, v(&["a", "b", ""]));
}

#[test]
fn trailing_empty_line_is_not_duplicated() {
    let mut b = v(&["a", ""]);
    ensure_trailing_newline(&mut b);
    assert_eq!(b, v(&["a", ""]));
    let mut empty: Vec<String> = Vec::new();
    ensure_trailing_newline(&mut empty);
    assert_eq!(empty, v(&[""]));
}

#[test]
fn clamp_line_range_bounds_and_none() {
    assert_eq!(clamp_line_range(3, 7, 10), Some((3, 7)));
    assert_eq!(clamp_line_range(8, 90, 10), Some((8, 9)));
    assert_eq!(clamp_line_range(0, 0, 0), None);
    assert_eq!(clamp_line_range(5, 2, 10), None);
}

#[test]
fn selection_is_ordered_by_reading_order() {
    assert_eq!(selection_range(3, 1, 3, 1), None);
    assert_eq!(selection_range(5, 0, 2, 1), Some((0, 5, 1, 2)));
    assert_eq!(selection_range(2, 1, 5, 0), Some((0, 5, 1, 2)));
    assert_eq!(selection_range(4, 2, 1, 2), Some((2, 1, 2, 4)));
}

#[test]
fn delete_within_one_line() {
    let mut b = v(&["hello world"]);
    assert_eq!(delete_selection(&mut b, 0, 5, 0, 11), (5, 0));
    assert_eq!(b, v(&["hello"]));
}

#[test]
fn delete_across_lines_joins_the_ends() {
    let mut b = v(&["first line", "middle", "last line", "after"]);
    assert_eq!(delete_selection(&mut b, 0, 6, 2, 5), (6, 0));
    assert_eq!(b, v(&["first line", "after"]));
    let mut c = v(&["ab", "cd", "ef"]);
    // A start past the end of its line keeps that whole line.
    assert_eq!(delete_selection(&mut c, 0, 9, 1, 1), (9, 0));
    assert_eq!(c, v(&["abd", "ef"]));
}

#[test]
fn load_places_caret_at_the_end() {
    let (lines, x, y) = load_lines("one\ntwo");
    assert_eq!(lines, v(&["one", "two", ""]));
    assert_eq!((x, y), (3, 1));
    let (lines, x, y) = load_lines("");
    assert_eq!(lines, v(&[""]));
    assert_eq!((x, y), (0, 0));
    let (lines, x, y) = load_lines("a\r\nb\n");
    assert_eq!(lines, v(&["a", "b", ""]));
    assert_eq!((x, y), (1, 1));
}

#[test]
fn save_then_load_round_trips_a_note_ending_in_a_line_feed() {
    for text in ["# T\nbody\n", "x\n", "a\n\nb\n"] {
        let (lines, _, _) = load_lines(text);
        assert_eq!(buffer_text(&lines), text);
    }
    assert_eq!(buffer_text(&v(&["a", "b"])), "a\nb");
    assert_eq!(buffer_text(&[]), "");
}

#[test]
fn fold_ranges_outline_deeper_indented_block() {
    // A line with tabs/spaces under a shallower line is foldable; a
    // flattened sibling ends the block. A tab counts as 4 columns, so
    // "\t\t" = 8.
    let buf = vec![
        "- item".to_string(),
        "\t- sub".to_string(),
        "\t\t- deep".to_string(),
        "plain".to_string(),
    ];
    let ranges = fold_ranges(&buf);
    assert_eq!(ranges, vec![(0, 3), (1, 3)]);
}

#[test]
fn fold_ranges_skip_flat_sequence() {
    let buf = vec!["a".to_string(), "b".to_string(), "c".to_string()];
    assert!(fold_ranges(&buf).is_empty());
}

#[test]
fn fold_ranges_stop_at_blank_and_less_indented_lines() {
    // blank (0 cols) and the dedented sibling close the deeper run.
    let buf = vec![
        "head".to_string(),
        "    a".to_string(),
        "".to_string(),
        "tail".to_string(),
    ];
    assert_eq!(fold_ranges(&buf), vec![(0, 2)]);
}

#[test]
fn fold_ranges_skip_heading_heads() {
    // Content "belongs to" a heading by indentation, never by folding, so
    // a heading line is not a fold head even when deeper lines follow.
    let buf = vec![
        "## Title".to_string(),
        "    detail".to_string(),
        "        more".to_string(),
    ];
    assert!(fold_ranges(&buf).is_empty());
}

#[test]
fn fold_ranges_heading_inside_list_still_not_a_head() {
    // "- ## hi" renders as a heading too; its continuation stays visible.
    let buf = vec!["- ## hi".to_string(), "      body".to_string()];
    assert!(fold_ranges(&buf).is_empty());
}

#[test]
fn heading_block_ends_at_a_dedent() {
    let buf = v(&["## Title", "    detail", "next", "    child", ""]);
    assert_eq!(fold_ranges(&buf), vec![(2, 4)]);
}

#[test]
fn carets_leave_folded_blocks() {
    let buf = v(&["head", "    a", "    b", "tail", ""]);
    assert_eq!(snap_out_of_fold(&buf, &[0], 1), 3);
    assert_eq!(snap_out_of_fold(&buf, &[0], 2), 3);
    assert_eq!(snap_out_of_fold(&buf, &[0], 0), 0);
    assert_eq!(snap_out_of_fold(&buf, &[], 2), 2);
    let to_end = v(&["head", "    a", "    b"]);
    assert_eq!(snap_out_of_fold(&to_end, &[0], 1), 2);
}

#[test]
fn toggling_a_fold_twice_restores_it() {
    let mut folded = vec![4, 9];
    toggle_fold(&mut folded, 7);
    assert_eq!(folded, vec![4, 9, 7]);
    toggle_fold(&mut folded, 7);
    assert_eq!(folded, vec![4, 9]);
    toggle_fold(&mut folded, 4);
    assert_eq!(folded, vec![9]);
    toggle_fold(&mut folded, 4);
    assert_eq!(folded, vec![9, 4]);
}
