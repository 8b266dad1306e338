use rust_graph::graph::input_handler::{
    click_dismisses_editor, context_click, settings_click, settings_scroll, ContextItem, SettingsClick,
};

#[test]
fn context_menu_rows_pick_items() {
    // Menu at (100, 200), 150 wide, rows 30 high.
    let pick = |x: i32, y: i32, exists: bool| context_click(x, y, 100, 200, 150, 30, false, exists);
    assert_eq!(pick(120, 210, false), ContextItem::Rename);
    assert_eq!(pick(120, 230, false), ContextItem::Rename);
    assert_eq!(pick(120, 241, false), ContextItem::Delete);
    assert_eq!(pick(120, 275, false), ContextItem::CreateSubGraph);
    assert_eq!(pick(120, 275, true), ContextItem::OpenSubGraph);
    assert_eq!(pick(120, 300, true), ContextItem::SetHeader);
    assert_eq!(pick(120, 400, true), ContextItem::Dismiss);
    assert_eq!(pick(90, 210, true), ContextItem::Dismiss);
}

#[test]
fn empty_space_menu_offers_add_node() {
    assert_eq!(context_click(120, 210, 100, 200, 150, 30, true, false), ContextItem::AddNode);
    assert_eq!(context_click(120, 260, 100, 200, 150, 30, true, false), ContextItem::Dismiss);
}

#[test]
fn settings_clicks_pick_rows_or_close() {
    let panel = (100, 50, 440, 500);
    assert_eq!(settings_click(10, 10, panel, 40, 26, 0, 20), SettingsClick::Close);
    assert_eq!(settings_click(200, 95, panel, 40, 26, 0, 20), SettingsClick::Pick(0));
    assert_eq!(settings_click(200, 120, panel, 40, 26, 3, 20), SettingsClick::Pick(4));
    assert_eq!(settings_click(200, 60, panel, 40, 26, 0, 20), SettingsClick::Nothing);
    // Just above the list's top, division toward zero still gives row 0.
    assert_eq!(settings_click(200, 80, panel, 40, 26, 2, 20), SettingsClick::Pick(2));
    assert_eq!(settings_click(200, 500, panel, 40, 26, 0, 5), SettingsClick::Nothing);
}

#[test]
fn settings_wheel_scroll_is_clamped() {
    assert_eq!(settings_scroll(0, 1, 30), 0);
    assert_eq!(settings_scroll(3, -1, 30), 4);
    assert_eq!(settings_scroll(14, -5, 30), 14);
    assert_eq!(settings_scroll(0, -3, 10), 0);
}

#[test]
fn clicks_outside_the_panel_dismiss_the_editor() {
    let panel = (400, 0, 600, 800);
    assert!(click_dismisses_editor(100, 100, panel));
    assert!(!click_dismisses_editor(500, 100, panel));
    assert!(!click_dismisses_editor(1000, 800, panel));
}
