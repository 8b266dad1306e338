use rust_graph::editor::blocks::{classify, parse_blocks, BlockKind, LineKind};

fn s(lines: &[&str]) -> Vec<String> {
    lines.iter().map(|l| l.to_string()).collect()
}

#[test]
fn classifies_blank_and_paragraph() {
    let k = classify(&s(&["", "hello world", ""]));
    assert_eq!(k[0], LineKind::Blank);
    assert_eq!(k[1], LineKind::Paragraph);
    assert_eq!(k[2], LineKind::Blank);
}

#[test]
fn classifies_headings_and_hr() {
    let k = classify(&s(&["# Title", "## Sub", "plain", "---"]));
    assert_eq!(k[0], LineKind::Heading { level: 1 });
    assert_eq!(k[1], LineKind::Heading { level: 2 });
    assert_eq!(k[2], LineKind::Paragraph);
    assert_eq!(k[3], LineKind::HorizontalRule);
}

#[test]
fn classifies_list_depths() {
    let k = classify(&s(&["- one", "  - two", "    - three", "- four"]));
    assert_eq!(k[0], LineKind::List { depth: 0 });
    assert_eq!(k[1], LineKind::List { depth: 1 });
    assert_eq!(k[2], LineKind::List { depth: 2 });
    assert_eq!(k[3], LineKind::List { depth: 0 });
}

#[test]
fn fenced_code_spans_blank_lines() {
    let k = classify(&s(&["```rust", "fn main() {}", "", "still code", "```", "after"]));
    assert_eq!(k[0], LineKind::FenceDelimiter);
    assert_eq!(k[1], LineKind::FencedCode);
    assert_eq!(k[2], LineKind::FencedCode);
    assert_eq!(k[3], LineKind::FencedCode);
    assert_eq!(k[4], LineKind::FenceDelimiter);
    assert_eq!(k[5], LineKind::Paragraph);
}

#[test]
fn unclosed_fence_runs_to_end() {
    let k = classify(&s(&["```", "code", "more"]));
    assert_eq!(k[0], LineKind::FenceDelimiter);
    assert_eq!(k[1], LineKind::FencedCode);
    assert_eq!(k[2], LineKind::FencedCode);
}

#[test]
fn blockquote_groups_are_quotes() {
    let k = classify(&s(&["> quote one", "> quote two", "plain", "> lone"]));
    assert_eq!(k[0], LineKind::Blockquote);
    assert_eq!(k[1], LineKind::Blockquote);
    assert_eq!(k[2], LineKind::Paragraph);
    assert_eq!(k[3], LineKind::Blockquote);
}

#[test]
fn triple_dash_is_hr_not_list() {
    let k = classify(&s(&["---"]));
    assert_eq!(k[0], LineKind::HorizontalRule);
}

#[test]
fn fences_merge_into_one_block() {
    let lines = s(&["```", "x", "```"]);
    let blocks = parse_blocks(&lines);
    assert_eq!(blocks.len(), 1);
    assert_eq!(blocks[0].kind, BlockKind::FencedCode);
    assert_eq!(blocks[0].start, 0);
    assert_eq!(blocks[0].end, 3);
}

#[test]
fn blocks_tile_the_non_blank_lines_in_order() {
    let lines = s(&["# h", "", "a", "b", "", "- x", "> q", "```", "c"]);
    let blocks = parse_blocks(&lines);
    let mut prev_end = 0;
    for b in &blocks {
        assert!(b.start >= prev_end && b.start < b.end && b.end <= lines.len());
        prev_end = b.end;
    }
    assert_eq!(classify(&lines).len(), lines.len());
    assert_eq!(classify(&lines)[1], LineKind::Blank);
    assert_eq!(classify(&lines)[8], LineKind::FencedCode);
}
