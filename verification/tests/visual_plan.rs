use rust_graph::editor::blocks::LineKind;
use rust_graph::editor::buffer::{
    generate_visual_lines, line_hidden, prune_folded, wrap_plan, IndentPlan, VisualLine,
};

#[test]
fn stale_folded_heads_are_pruned() {
    let ranges = vec![(0, 3), (5, 8)];
    let mut folded = vec![5, 2, 0, 9];
    prune_folded(&mut folded, &ranges);
    assert_eq!(folded, vec![5, 0]);
}

#[test]
fn folded_folds_hide_their_inner_lines() {
    let ranges = vec![(0, 3), (1, 3), (5, 8)];
    assert!(line_hidden(&ranges, &[0], 1));
    assert!(line_hidden(&ranges, &[0], 2));
    assert!(!line_hidden(&ranges, &[0], 0));
    assert!(!line_hidden(&ranges, &[0], 3));
    assert!(!line_hidden(&ranges, &[], 2));
    assert!(line_hidden(&ranges, &[5], 7));
    assert!(!line_hidden(&ranges, &[1], 1));
}

#[test]
fn wrap_plans_follow_the_line_kind() {
    assert_eq!(wrap_plan("- item", LineKind::List { depth: 2 }, false), (true, IndentPlan::List { depth: 2 }));
    assert_eq!(wrap_plan("> > quoted", LineKind::Blockquote, false), (true, IndentPlan::Quote { len: 4 }));
    assert_eq!(
        wrap_plan("  \tindented prose", LineKind::Paragraph, false),
        (true, IndentPlan::Spaces { cols: 6, bytes: 3 })
    );
    assert_eq!(wrap_plan("plain", LineKind::Paragraph, false), (true, IndentPlan::Flat));
    assert_eq!(wrap_plan("    code", LineKind::FencedCode, false), (false, IndentPlan::Flat));
    assert_eq!(wrap_plan("  - item", LineKind::List { depth: 1 }, true), (false, IndentPlan::Flat));
    assert_eq!(wrap_plan("  [[photo.png]]", LineKind::Paragraph, false), (true, IndentPlan::Flat));
}

fn ten_px(t: &str, _size: i32, _style: rust_graph::editor::markdown::SegmentStyle) -> i32 {
    10 * t.chars().count() as i32
}

fn indent_px(line: &String, plan: IndentPlan) -> (i32, i32) {
    match plan {
        IndentPlan::Flat => (0, 0),
        IndentPlan::List { depth } => (40 * depth as i32, 20),
        IndentPlan::Quote { len } => (10 * line[..len].chars().count() as i32, 0),
        IndentPlan::Spaces { cols, .. } => (10 * cols as i32, 0),
    }
}

#[test]
fn layout_skips_folded_lines_and_wraps_the_rest_in_order() {
    let buffer: Vec<String> =
        ["root", "    a", "    b", "plain words that wrap around", ""].iter().map(|s| s.to_string()).collect();
    let mut folded = vec![0, 7];
    let vls = generate_visual_lines(
        &buffer,
        &mut folded,
        4,
        false,
        100,
        20,
        &[70, 52, 42, 33, 25, 21],
        indent_px,
        &ten_px,
    );
    // The stale head 7 is dropped; the fold under "root" hides lines 1 and 2.
    assert_eq!(folded, vec![0]);
    assert_eq!(vls[0], VisualLine { start: 0, end: 4, line: 0, indent: 0 });
    assert!(vls.iter().all(|v| v.line != 1 && v.line != 2));
    let para: Vec<&VisualLine> = vls.iter().filter(|v| v.line == 3).collect();
    assert!(para.len() >= 3);
    assert_eq!(para[0].start, 0);
    // Each cut ends a visual line; the next one starts past the space.
    for w in para.windows(2) {
        assert!(w[0].start < w[0].end && w[0].end <= w[1].start);
    }
    assert_eq!(para[para.len() - 1].end, 28);
    // The caret line (the trailing empty one) is one empty visual line.
    assert_eq!(vls[vls.len() - 1], VisualLine { start: 0, end: 0, line: 4, indent: 0 });
}

#[test]
fn layout_indents_list_items_and_prose() {
    let buffer: Vec<String> = ["  - nested item", "    indented prose", ""].iter().map(|s| s.to_string()).collect();
    let mut folded = Vec::new();
    let vls = generate_visual_lines(
        &buffer,
        &mut folded,
        2,
        false,
        1000,
        20,
        &[70, 52, 42, 33, 25, 21],
        indent_px,
        &ten_px,
    );
    // A depth-1 list item sits one level in; indented prose starts past its
    // four columns of indentation, drawn at their width.
    let item = vls.iter().find(|v| v.line == 0).unwrap();
    assert_eq!(item.indent, 0);
    let prose = vls.iter().find(|v| v.line == 1).unwrap();
    assert_eq!((prose.start, prose.indent), (4, 40));
}
