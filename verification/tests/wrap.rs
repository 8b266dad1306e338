use rust_graph::editor::blocks::LineKind;
use rust_graph::editor::buffer::wrap_line;
use rust_graph::editor::markdown::SegmentStyle;

const BODY: i32 = 20;
const HEADINGS: [i32; 6] = [70, 52, 42, 33, 25, 21];

// Fake measure: 10px per char, independent of font size.
fn pix(_s: &str, _n: i32) -> i32 {
    10 * _s.chars().count() as i32
}

#[test]
fn plain_line_wraps_without_indent() {
    let vls = wrap_line(
        "one two three four five six seven eight",
        100,
        0,
        0,
        0,
        LineKind::Paragraph,
        true,
        0,
        BODY,
        &HEADINGS,
        |t, s, _st| pix(t, s),
    );
    assert!(vls.len() >= 2);
    for vl in &vls {
        assert_eq!(vl.indent, 0);
    }
}

#[test]
fn indented_paragraph_hangs_at_written_indent() {
    // 10px/char at max_width 100. "    " is 4 chars = 40px of leading ws.
    let line = "    alpha beta gamma delta epsilon zeta";
    let vls = wrap_line(
        line,
        100,
        0,
        40,
        0,
        LineKind::Paragraph,
        true,
        4,
        BODY,
        &HEADINGS,
        |t, s, _st| pix(t, s),
    );
    assert!(vls.len() >= 2, "expected the indented paragraph to wrap");
    assert_eq!(vls[0].indent, 40, "first line sits at the written indent");
    assert_eq!(vls[0].start, 4, "measurement starts past the whitespace");
    for vl in &vls[1..] {
        assert_eq!(vl.indent, 40, "continuations hang at the written indent");
        assert!(vl.start >= 4, "no continuation re-draws the whitespace");
    }
}

#[test]
fn editing_line_prose_keeps_zero_skip() {
    // The caret line renders raw: no indent, no skip.
    let line = "    alpha beta gamma delta epsilon zeta";
    let vls = wrap_line(
        line,
        100,
        0,
        0,
        0,
        LineKind::Paragraph,
        false,
        0,
        BODY,
        &HEADINGS,
        |t, s, _st| pix(t, s),
    );
    for vl in &vls {
        assert_eq!(vl.indent, 0);
    }
    assert_eq!(vls[0].start, 0, "raw editing keeps the leading whitespace");
}

#[test]
fn quote_continuations_hang_by_marker_width() {
    // View mode: the caller sets base = marker width, hang = 0, so every
    // visual line sits right of the rail. "> " = 2 chars = 20px.
    let line = "> one two three four five six seven eight nine ten";
    let vls = wrap_line(line, 100, 0, 20, 0, LineKind::Blockquote, true, 0, BODY, &HEADINGS, |t, s, _st| {
        pix(t, s)
    });
    assert!(vls.len() >= 2, "expected the quote to wrap");
    assert_eq!(vls[0].indent, 20, "content starts after the marker");
    for vl in &vls[1..] {
        assert_eq!(vl.indent, 20, "continuations align under the content");
    }
}

#[test]
fn list_continuation_lines_hang_indented() {
    // 10 chars/line at max_width 100; "    " = 40px indent.
    let line = "- one two three four five six seven eight nine ten";
    let vls = wrap_line(line, 100, 0, 0, 40, LineKind::List { depth: 0 }, true, 0, BODY, &HEADINGS, |t, s, _st| {
        pix(t, s)
    });
    assert!(vls.len() >= 2, "expected the item to wrap");
    assert_eq!(vls[0].indent, 0, "first visual line has no indent");
    for vl in &vls[1..] {
        assert_eq!(vl.indent, 40, "continuation hangs by four spaces");
    }
}

#[test]
fn nested_list_indents_by_depth() {
    // depth 1 line: the marker draws the source indent, so the first
    // visual line is flat; continuations hang at base 20px + hang 40px.
    let line = "  - one two three four five six seven eight nine ten";
    let vls = wrap_line(line, 100, 0, 20, 40, LineKind::List { depth: 1 }, true, 0, BODY, &HEADINGS, |t, s, _st| {
        pix(t, s)
    });
    assert!(vls.len() >= 2);
    assert_eq!(vls[0].indent, 0);
    for vl in &vls[1..] {
        assert_eq!(vl.indent, 60);
    }
}

#[test]
fn editing_line_shows_no_indent() {
    // In real use the caller zeroes the indents for the editing line;
    // wrap_line is a mechanical function, so the caller passes 0.
    let line = "- one two three four five six seven eight nine ten";
    let vls = wrap_line(line, 100, 0, 0, 0, LineKind::List { depth: 0 }, false, 0, BODY, &HEADINGS, |t, s, _st| {
        pix(t, s)
    });
    for vl in &vls {
        assert_eq!(vl.indent, 0);
    }
}

#[test]
fn empty_line_is_single_visual_line() {
    let vls = wrap_line("", 100, 3, 0, 0, LineKind::Paragraph, true, 0, BODY, &HEADINGS, |t, s, _st| pix(t, s));
    assert_eq!(vls.len(), 1);
    assert_eq!(vls[0].line, 3);
    assert_eq!(vls[0].indent, 0);
}

#[test]
fn greedy_cuts_fall_at_the_last_space_taken() {
    let vls = wrap_line(
        "one two three four five six seven eight",
        100,
        7,
        0,
        0,
        LineKind::Paragraph,
        true,
        0,
        BODY,
        &HEADINGS,
        |t, s, _st| pix(t, s),
    );
    let cuts: Vec<(usize, usize)> = vls.iter().map(|v| (v.start, v.end)).collect();
    assert_eq!(cuts, vec![(0, 7), (8, 18), (19, 27), (28, 33), (34, 39)]);
    assert!(vls.iter().all(|v| v.line == 7));
}

#[test]
fn long_words_break_anywhere() {
    let vls = wrap_line("abcdefghijklmnopqrstuvwxy", 100, 0, 0, 0, LineKind::Paragraph, true, 0, BODY, &HEADINGS, |t, s, _st| {
        pix(t, s)
    });
    let cuts: Vec<(usize, usize)> = vls.iter().map(|v| (v.start, v.end)).collect();
    assert_eq!(cuts, vec![(0, 10), (10, 20), (20, 25)]);
}

#[test]
fn headings_measure_past_their_marker_at_their_size() {
    // Width grows with the font size here, so a level-1 heading (70) wraps sooner.
    let sized = |t: &str, s: i32, _st: SegmentStyle| (s / 10) * t.chars().count() as i32;
    let vls = wrap_line("# big title", 30, 0, 0, 0, LineKind::Heading { level: 1 }, true, 0, BODY, &HEADINGS, sized);
    assert_eq!(vls[0].start, 2);
    let cuts: Vec<(usize, usize)> = vls.iter().map(|v| (v.start, v.end)).collect();
    assert_eq!(cuts, vec![(2, 5), (6, 10), (10, 11)]);
    // Raw (editing) measurement keeps the marker and the body size.
    let raw = wrap_line("# big title", 30, 0, 0, 0, LineKind::Heading { level: 1 }, false, 0, BODY, &HEADINGS, sized);
    assert_eq!(raw[0].start, 0);
}
