use rust_graph::editor::hit_test::{
    classify_click, offset_at_px, reset_click_state, row_at_y, ClickState, HitRow,
};

fn pix(s: &str, _fsz: i32) -> i32 {
    10 * s.chars().count() as i32
}

fn plain_row() -> HitRow {
    HitRow {
        line: 0,
        start: 0,
        end: 5,
        indent_px: 0,
        font_size: 20,
        top: 0,
        advance: 20,
        view_mode: true,
        quote_skip: 0,
        image: false,
        fm_bar: false,
    }
}

#[test]
fn plain_offset_before_start() {
    assert_eq!(offset_at_px("hello", &plain_row(), -5, pix), 0);
}

#[test]
fn plain_offset_at_origin() {
    assert_eq!(offset_at_px("hello", &plain_row(), 0, pix), 0);
}

#[test]
fn plain_offset_middle() {
    assert_eq!(offset_at_px("hello", &plain_row(), 25, pix), 2);
}

#[test]
fn plain_offset_at_char_boundary() {
    assert_eq!(offset_at_px("hello", &plain_row(), 10, pix), 1);
}

#[test]
fn plain_offset_past_end() {
    assert_eq!(offset_at_px("hello", &plain_row(), 999, pix), 5);
}

#[test]
fn heading_skip() {
    let row = HitRow {
        start: 2,
        end: 7,
        indent_px: 0,
        font_size: 70,
        top: 0,
        advance: 70,
        view_mode: true,
        ..plain_row()
    };
    // "## Hi": origin 2, px 15; "H" = 10 fits, "Hi" = 20 does not -> 3.
    assert_eq!(offset_at_px("## Hi", &row, 15, pix), 3);
}

#[test]
fn quote_skip_first_char() {
    let row = HitRow {
        start: 0,
        end: 8,
        indent_px: 20,
        font_size: 20,
        view_mode: true,
        quote_skip: 2,
        ..plain_row()
    };
    assert_eq!(offset_at_px("> foo", &row, 30, pix), 3);
}

#[test]
fn quote_skip_before_indent() {
    let row = HitRow {
        start: 0,
        end: 8,
        indent_px: 20,
        font_size: 20,
        view_mode: true,
        quote_skip: 2,
        ..plain_row()
    };
    assert_eq!(offset_at_px("> foo", &row, 5, pix), 2);
}

#[test]
fn image_returns_start() {
    let row = HitRow { image: true, ..plain_row() };
    assert_eq!(offset_at_px("[[pic.png]]", &row, 50, pix), 0);
}

#[test]
fn empty_line() {
    let row = HitRow { start: 3, end: 3, indent_px: 0, top: 0, advance: 20, ..plain_row() };
    assert_eq!(offset_at_px("abc", &row, 0, pix), 3);
}

#[test]
fn row_at_y_hits() {
    let rows = vec![
        HitRow { top: 0, advance: 20, ..plain_row() },
        HitRow { top: 22, advance: 20, ..plain_row() },
    ];
    assert_eq!(row_at_y(&rows, 10).unwrap().top, 0);
    assert_eq!(row_at_y(&rows, 22).unwrap().top, 22);
    assert!(row_at_y(&rows, 21).is_none());
}

#[test]
fn classify_single() {
    assert_eq!(classify_click(100, 0, false, 0), 1);
}

#[test]
fn classify_double() {
    assert_eq!(classify_click(200, 150, true, 1), 2);
}

#[test]
fn classify_triple() {
    assert_eq!(classify_click(300, 250, true, 2), 3);
}

#[test]
fn classify_quad_resets() {
    assert_eq!(classify_click(400, 350, true, 3), 1);
}

#[test]
fn classify_timeout_resets() {
    assert_eq!(classify_click(500, 100, true, 2), 1);
}

#[test]
fn classify_different_pos_resets() {
    assert_eq!(classify_click(200, 150, false, 1), 1);
}

#[test]
fn click_count_stays_within_one_to_three() {
    for prev in 0..10u32 {
        for gap in [0u64, 100, 299, 300, 5000] {
            let c = classify_click(10_000, 10_000 - gap, true, prev);
            assert!((1..=3).contains(&c));
        }
    }
    // A clock that went backwards counts as no gap.
    assert_eq!(classify_click(100, 200, true, 1), 2);
}

#[test]
fn multibyte_offsets_stay_on_char_boundaries() {
    let line = "héllo";
    let row = HitRow { end: line.len(), ..plain_row() };
    // "h" = 10, "hé" = 20 fit in 25; "hél" = 30 does not: offset after "é".
    assert_eq!(offset_at_px(line, &row, 25, pix), 3);
    assert!(line.is_char_boundary(offset_at_px(line, &row, 15, pix)));
}

#[test]
fn offset_measures_the_formatted_text_in_view_mode() {
    // "**b** x" shows as "b x": the bold markers take no width.
    let line = "**b** x";
    let row = HitRow { end: line.len(), ..plain_row() };
    assert_eq!(offset_at_px(line, &row, 999, pix), line.len());
    // A prefix cut inside the markers shows them raw: "*" fits 10 px,
    // "**" does not.
    assert_eq!(offset_at_px(line, &row, 10, pix), 1);
}

#[test]
fn reset_clears_click_state() {
    let mut st = ClickState {
        mouse_dragging: true,
        last_click_time_ms: 99,
        last_click_line: 3,
        last_click_offset: 4,
        click_count: 2,
    };
    reset_click_state(&mut st);
    assert!(!st.mouse_dragging);
    assert_eq!(st.last_click_time_ms, 0);
    assert_eq!(st.last_click_line, 0);
    assert_eq!(st.last_click_offset, 0);
    assert_eq!(st.click_count, 0);
    let fresh = ClickState::new();
    assert_eq!(fresh.click_count, 0);
}

#[test]
fn row_at_y_takes_the_first_overlapping_row() {
    let rows = vec![
        HitRow { top: 0, advance: 30, line: 1, ..plain_row() },
        HitRow { top: 10, advance: 30, line: 2, ..plain_row() },
    ];
    assert_eq!(row_at_y(&rows, 15).unwrap().line, 1);
    assert_eq!(row_at_y(&rows, 35).unwrap().line, 2);
    assert!(row_at_y(&[], 0).is_none());
}
