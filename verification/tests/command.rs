use rust_graph::editor::command::{
    commands, detect, insert_asset_link, refresh, request_asset_pick, Command, CommandState,
};

#[test]
fn detects_word_initial_slash() {
    assert_eq!(detect("/add", 4), Some("add".to_string()));
    // A bare slash at line start is a region with an empty filter.
    assert_eq!(detect("/", 1), Some(String::new()));
    // Slash after leading whitespace.
    assert_eq!(detect("  /ass", 6), Some("ass".to_string()));
}

#[test]
fn ignores_mid_word_and_prose_slashes() {
    assert_eq!(detect("a/b", 3), None);
    assert_eq!(detect("price 2026/09/12", 17), None);
    assert_eq!(detect("no slash here", 14), None);
}

#[test]
fn space_after_slash_ends_region() {
    assert_eq!(detect("/ path", 6), None);
}

#[test]
fn cursor_before_slash_is_not_a_command() {
    assert_eq!(detect("ab/cd", 1), None);
}

#[test]
fn refresh_filters_by_prefix() {
    let all = refresh("");
    assert_eq!(all, vec![("Add asset".to_string(), Command::AddAsset)]);
    let m = refresh("add");
    assert_eq!(m, vec![("Add asset".to_string(), Command::AddAsset)]);
    let m2 = refresh("AD");
    assert_eq!(m2, vec![("Add asset".to_string(), Command::AddAsset)]);
    assert_eq!(refresh("asse"), vec![("Add asset".to_string(), Command::AddAsset)]);
    assert_eq!(refresh("set"), vec![("Add asset".to_string(), Command::AddAsset)]);
    assert!(refresh("zzz").is_empty());
}

#[test]
fn open_clears_filter_and_selection() {
    let mut st = CommandState::new();
    st.active = true;
    st.filter = "stale".into();
    st.selected = 0;
    st.matches = refresh("add");
    // Opening (what the input handler does on "/") wipes the old filter
    // and shows every command.
    st.filter.clear();
    st.selected = 0;
    st.matches = refresh("");
    assert!(st.active);
    assert!(st.filter.is_empty());
    assert_eq!(st.matches.len(), 1);
    assert_eq!(st.matches, vec![("Add asset".to_string(), Command::AddAsset)]);
}

#[test]
fn insert_makes_own_line_below_caret() {
    let mut buf = vec!["sentence".to_string(), "".to_string()];
    let caret = insert_asset_link(&mut buf, 0, "assets/pic.png");
    assert_eq!(buf, vec!["sentence", "[[assets/pic.png]]", ""]);
    assert_eq!(caret, (1, "[[assets/pic.png]]".len() as i32));
}

#[test]
fn insert_before_existing_below_line() {
    let mut buf = vec!["top".to_string(), "existing below".to_string()];
    let caret = insert_asset_link(&mut buf, 0, "assets/pdf");
    assert_eq!(buf, vec!["top", "[[assets/pdf]]", "existing below"]);
    assert_eq!(caret, (1, "[[assets/pdf]]".len() as i32));
}

#[test]
fn insert_clamped_for_empty_buffer() {
    let mut buf: Vec<String> = Vec::new();
    let caret = insert_asset_link(&mut buf, 0, "assets/a.txt");
    assert_eq!(buf, vec!["[[assets/a.txt]]"]);
    assert_eq!(caret, (0, "[[assets/a.txt]]".len() as i32));
}

#[test]
fn insert_past_the_end_appends() {
    let mut buf = vec!["a".to_string(), "b".to_string()];
    let caret = insert_asset_link(&mut buf, 7, "x");
    assert_eq!(buf, vec!["a", "b", "[[x]]"]);
    assert_eq!(caret, (2, 5));
}

#[test]
fn command_table_and_pick_request() {
    assert_eq!(commands(), vec![("Add asset".to_string(), Command::AddAsset)]);
    let mut req = false;
    request_asset_pick(&mut req);
    assert!(req);
}
