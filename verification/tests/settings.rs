use rust_graph::app_config::{
    apply_font, config_key_str, current_font_name, line_value, parse, parse_flags, serialize,
    Settings, MIN_WINDOW_W,
};
use rust_graph::editor::{content_bounds, panel_bounds, FULLSCREEN_H_MARGIN};
use rust_graph::fonts::PackedFamily;
use rust_graph::graph::settings::{
    build_font_list, panel_x, panel_y, settings_button_x, FontFamily, FontPicker,
};

fn seed(names: &[&str]) -> FontPicker {
    let mut p = FontPicker::new();
    p.fonts = names
        .iter()
        .map(|n| FontFamily { name: n.to_string(), data: None, bold: None, italic: None })
        .collect();
    p
}

#[test]
fn selected_font_persists_through_snapshot_and_apply() {
    let mut p = seed(&["(Default)", "Fira Code", "DejaVu Sans"]);
    p.selected = Some(2);
    let name = current_font_name(&p);
    assert_eq!(name, "DejaVu Sans");
    p.selected = Some(0);
    p.request_load = None;
    apply_font(&mut p, name);
    assert_eq!(p.selected, Some(2));
    assert_eq!(p.request_load, Some(2));
}

#[test]
fn apply_falls_back_to_default_for_missing_or_empty_font() {
    let mut p = seed(&["(Default)", "Fira Code"]);
    apply_font(&mut p, "Nope".to_string());
    assert_eq!(p.selected, Some(0));
    assert_eq!(p.request_load, Some(0));
    p.selected = Some(1);
    apply_font(&mut p, String::new());
    assert_eq!(p.selected, Some(0));
    assert_eq!(p.request_load, Some(0));
    // The default font is written as an empty name.
    let mut s = base();
    s.font_name = String::new();
    let text = serialize(&graph_text(&GRAPH), "1.0000", &s);
    assert!(text.contains("font_name=\n"));
}

#[test]
fn apply_font_waits_for_a_font_list() {
    let mut p = FontPicker::new();
    apply_font(&mut p, "Fira Code".to_string());
    assert_eq!(p.selected, None);
    assert_eq!(p.request_load, None);
}

#[test]
fn default_row_has_no_name() {
    let mut p = seed(&["(Default)", "Fira Code"]);
    assert_eq!(current_font_name(&p), "");
    p.selected = Some(0);
    assert_eq!(current_font_name(&p), "");
    p.selected = Some(9);
    assert_eq!(current_font_name(&p), "");
}

#[test]
fn line_value_reads_the_first_matching_key() {
    let text = "spring_k=2.25\n not-a-param=99\nbogus\n  font_name = Fira Code \nfont_name=x\n";
    assert_eq!(line_value(text, "spring_k"), Some("2.25"));
    assert_eq!(line_value(text, "not-a-param"), Some("99"));
    // The key is matched as written before '=', spaces included.
    assert_eq!(line_value(text, "font_name "), Some("Fira Code"));
    assert_eq!(line_value(text, "font_name"), Some("x"));
    assert_eq!(line_value(text, "bogus"), None);
    assert_eq!(line_value("", "a"), None);
    assert_eq!(line_value("font_name=\n", "font_name"), Some(""));
}

#[test]
fn font_list_follows_the_packed_catalog() {
    static REG: [u8; 3] = [1, 2, 3];
    static IT: [u8; 1] = [9];
    let packed = [
        PackedFamily { name: "A", regular: &REG, bold: None, italic: Some(&IT) },
        PackedFamily { name: "B", regular: &IT, bold: Some(&REG), italic: None },
    ];
    let mut p = FontPicker::new();
    build_font_list(&mut p, &packed);
    assert_eq!(p.fonts.len(), 2);
    assert_eq!(p.fonts[0].name, "A");
    assert_eq!(p.fonts[0].data.as_deref(), Some(&REG[..]));
    assert!(p.fonts[0].bold.is_none());
    assert_eq!(p.fonts[0].italic.as_ref().unwrap().data.as_deref(), Some(&IT[..]));
    assert_eq!(p.fonts[1].bold.as_ref().unwrap().data.as_deref(), Some(&REG[..]));
    assert_eq!(p.selected, Some(0));
}

#[test]
fn dialog_geometry() {
    assert_eq!(settings_button_x(1440, 96), 1334);
    assert_eq!(panel_x(1440, 440), 500);
    assert_eq!(panel_x(100, 441), -170);
    assert_eq!(panel_y(), 70);
}

#[test]
fn panel_and_content_bounds() {
    let windowed = (144, 81, 1152, 648);
    assert_eq!(panel_bounds(false, 1440, 810, windowed), windowed);
    assert_eq!(panel_bounds(true, 1440, 810, windowed), (0, 0, 1440, 810));
    assert_eq!(content_bounds(false, 1440, 810, windowed), windowed);
    let m = FULLSCREEN_H_MARGIN;
    assert_eq!(content_bounds(true, 1440, 810, windowed), (m, 0, 1440 - 2 * m, 810));
    // A window narrower than both margins keeps one pixel of text width.
    assert_eq!(content_bounds(true, 100, 50, windowed), (m, 0, 1, 50));
}

const GRAPH: [f32; 9] = [0.9, 0.95, 0.1, 360.0, 10000.0, 0.0228, 1.0, 0.0, 0.05];

fn base() -> Settings {
    Settings { cooling: true, panel: true, width: 1920, height: 1080, font_name: "Fira Code".to_string() }
}

fn startup() -> Settings {
    Settings { cooling: false, panel: false, width: 1440, height: 810, font_name: String::new() }
}

fn graph_text(g: &[f32; 9]) -> Vec<String> {
    g.iter().map(|v| format!("{:.4}", v)).collect()
}

fn float_value(text: &str, i: usize) -> Option<f32> {
    line_value(text, config_key_str(i)).and_then(|v| v.trim().parse::<f32>().ok())
}

#[test]
fn round_trip_through_serialization() {
    let text = serialize(&graph_text(&GRAPH), &format!("{:.4}", 1.0f32), &base());
    let got = parse(&text, startup());
    assert_eq!((got.width, got.height), (1920, 1080));
    assert_eq!(float_value(&text, 13), Some(1.0));
    assert_eq!(got.font_name, "Fira Code");
    for (i, v) in GRAPH.iter().enumerate() {
        assert_eq!(float_value(&text, i), Some(*v));
    }
    assert!(got.cooling);
    assert!(got.panel);
}

#[test]
fn partial_file_keeps_defaults_and_ignores_stale_keys() {
    let text = "spring_k=2.25\nnot-a-param=99\nbogus\nalpha_cooling=0\n      \n\
                rest_gap=45.0\nwindow_width=640\nwindow_height=900\n";
    let got = parse(text, base());
    assert_eq!(float_value(text, 0), Some(2.25));
    // rest_gap is not a known key: the alpha_decay slot keeps its value.
    assert_eq!(float_value(text, 5), None);
    assert!(!got.cooling);
    assert!(got.panel);
    // window_height fits, the undersized width is raised to the floor.
    assert_eq!(got.width, MIN_WINDOW_W);
    assert_eq!(got.height, 900);
    assert_eq!(got.font_name, "Fira Code");
}

#[test]
fn missing_file_defaults_to_statics() {
    let got = parse("", startup());
    assert_eq!((got.width, got.height), (1440, 810));
    assert!(!got.cooling);
    assert!(!got.panel);
    assert_eq!(got.font_name, "");
    for i in 0..9 {
        assert_eq!(float_value("", i), None);
    }
}

#[test]
fn legacy_graph_params_import_only_touches_graph_block() {
    let text = "spring_k=2.25\ndamping=0.91\ncenter_pull=0.3\nrepulsion_radius=400.\n\
                repulsion_k=12300.\nalpha_decay=0.02\nradius_scale=1.1\nradius_variation=0.2\n\
                attraction=0.08\nalpha_cooling=0\nshow_force_panel=1\n";
    let expect = [2.25, 0.91, 0.3, 400.0, 12300.0, 0.02, 1.1, 0.2, 0.08];
    for (i, v) in expect.iter().enumerate() {
        assert_eq!(float_value(text, i), Some(*v));
    }
    assert_eq!(parse_flags(text, true, false), (false, true));
    // App keys are not in the legacy file: they keep the base.
    let got = parse(text, base());
    assert_eq!((got.width, got.height), (1920, 1080));
    assert_eq!(got.font_name, "Fira Code");
}

#[test]
fn config_file_lists_every_key_in_order() {
    let text = serialize(&graph_text(&GRAPH), "1.2500", &base());
    assert_eq!(
        text,
        "spring_k=0.9000\ndamping=0.9500\ncenter_pull=0.1000\nrepulsion_radius=360.0000\n\
         repulsion_k=10000.0000\nalpha_decay=0.0228\nradius_scale=1.0000\n\
         radius_variation=0.0000\nattraction=0.0500\nalpha_cooling=1\nshow_force_panel=1\n\
         window_width=1920\nwindow_height=1080\ntext_zoom=1.2500\nfont_name=Fira Code\n"
    );
}

#[test]
fn window_sizes_read_as_integers() {
    let mut s = base();
    s.width = -5;
    s.height = 2147483647;
    let text = serialize(&graph_text(&GRAPH), "1.0000", &s);
    assert!(text.contains("window_width=-5\nwindow_height=2147483647\n"));
    let got = parse(&text, startup());
    assert_eq!((got.width, got.height), (MIN_WINDOW_W, 2147483647));
    // Signs, overflow and junk: only a whole i32 is taken.
    assert_eq!(parse("window_width=+1000\nwindow_height=2147483648\n", startup()).width, 1000);
    assert_eq!(parse("window_height=2147483648\n", startup()).height, 810);
    assert_eq!(parse("window_width=12px\n", startup()).width, 1440);
    assert_eq!(parse("window_width=-\n", startup()).width, 1440);
    assert_eq!(parse("window_width= 0001024 \n", startup()).width, 1024);
    assert_eq!(parse("alpha_cooling=yes\nshow_force_panel=1\n", startup()).cooling, false);
    assert_eq!(parse("show_force_panel=1\n", startup()).panel, true);
}
