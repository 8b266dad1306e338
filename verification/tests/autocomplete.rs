use rust_graph::editor::autocomplete::{detect, match_names, refresh, AutocompleteState};

#[test]
fn detect_inside_link() {
    let line = "see [[alpha";
    assert_eq!(detect(line, line.len()).unwrap(), "alpha");
}

#[test]
fn detect_cursor_partway_into_link() {
    let line = "[[par";
    assert_eq!(detect(line, 4).unwrap(), "pa");
}

#[test]
fn detect_closed_link() {
    let line = "[[done]] here";
    assert_eq!(detect(line, line.len()), None);
}

#[test]
fn detect_last_open_wins() {
    let line = "[[a]] then [[b";
    assert_eq!(detect(line, line.len()).unwrap(), "b");
}

#[test]
fn match_prefix_case_insensitive() {
    let names = vec!["Alpha.md".to_string(), "beta.md".to_string(), "alice.md".to_string()];
    assert_eq!(match_names(&names, "al"), vec!["Alpha.md", "alice.md"]);
}

#[test]
fn match_names_lowercases_both_sides() {
    let names = vec!["ÄRGER.md".to_string(), "ärmel.md".to_string(), "Arm.md".to_string()];
    assert_eq!(match_names(&names, "Är"), vec!["ÄRGER.md", "ärmel.md"]);
    assert_eq!(match_names(&names, ""), names);
}

#[test]
fn refresh_lists_other_notes_matching_the_filter() {
    let mut st = AutocompleteState::new();
    let buffer = vec!["see [[al".to_string()];
    let names = vec!["alpha.md".to_string(), "alps.md".to_string(), "beta.md".to_string()];
    refresh(&mut st, &buffer, 0, buffer[0].len(), &names, Some(1));
    assert!(st.active);
    assert_eq!(st.filter, "al");
    assert_eq!(st.matches, vec!["alpha.md".to_string()]);
    assert_eq!(st.selected, 0);
}

#[test]
fn refresh_hides_outside_a_link() {
    let mut st = AutocompleteState::new();
    let buffer = vec!["plain".to_string()];
    let names = vec!["alpha.md".to_string()];
    refresh(&mut st, &buffer, 0, 5, &names, None);
    assert!(!st.active);
    assert!(st.matches.is_empty());
}
