use rust_graph::global_palette::{
    duplicated_names, palette_action, palette_backspace, palette_step, palette_type, recompute,
    NoteEntry, PaletteAction, PaletteState,
};
use std::path::PathBuf;

fn state(filter: &str, names: &[&str]) -> PaletteState {
    let index = names
        .iter()
        .enumerate()
        .map(|(i, n)| NoteEntry {
            name: n.to_string(),
            path: PathBuf::from(format!("/n{i}.md")),
            display: n.to_string(),
        })
        .collect();
    let mut st = PaletteState {
        open: false,
        filter: filter.to_string(),
        selected: 0,
        index,
        matches: Vec::new(),
        show_create: false,
    };
    recompute(&mut st);
    st
}

#[test]
fn prefix_before_loose_substring() {
    let st = state("pro", &["graph project alpha", "projector", "opromo"]);
    assert_eq!(st.matches, vec![1, 0, 2]);
}

#[test]
fn empty_filter_lists_everything_in_order() {
    let st = state("", &["zeta", "alpha", "mid"]);
    assert_eq!(st.matches, vec![0, 1, 2]);
    assert!(!st.show_create);
}

#[test]
fn show_create_only_when_exact_absent() {
    let st = state("beta", &["beta", "beta gamma"]);
    assert!(!st.show_create, "exact name exists");
    assert_eq!(st.matches, vec![0, 1]);
    let st = state("bta", &["beta"]);
    assert!(st.show_create, "no exact `bta` note");
}

#[test]
fn trailing_md_counts_as_exact() {
    let st = state("beta.md", &["beta"]);
    assert!(!st.show_create);
    assert_eq!(st.matches, vec![0]);
}

#[test]
fn selection_is_clamped_to_the_rows_shown() {
    let mut st = state("zzz", &["a", "b"]);
    assert!(st.matches.is_empty());
    assert!(st.show_create);
    st.selected = 7;
    recompute(&mut st);
    assert_eq!(st.selected, 0);
    let mut st = state("", &["a", "b", "c"]);
    st.selected = 9;
    recompute(&mut st);
    assert_eq!(st.selected, 2);
    let mut st = state("   ", &[]);
    st.selected = 3;
    recompute(&mut st);
    assert!(!st.show_create);
    assert_eq!(st.selected, 0);
}

#[test]
fn case_is_ignored_and_md_suffixes_stripped() {
    let st = state("  ALPHA.md.md ", &["Alpha", "an alphabet"]);
    assert_eq!(st.matches, vec![0, 1]);
    assert!(!st.show_create);
}

#[test]
fn duplicate_stems_are_flagged() {
    let names: Vec<String> = ["alpha", "solo", "alpha", "Alpha"].iter().map(|s| s.to_string()).collect();
    assert_eq!(duplicated_names(&names), vec![true, false, true, false]);
    assert!(duplicated_names(&[]).is_empty());
}

#[test]
fn arrow_keys_wrap_the_highlight_over_all_rows() {
    let mut st = state("pro", &["projector", "prompt", "other"]);
    // Two matches plus the create row.
    assert!(st.show_create);
    palette_step(&mut st, true);
    assert_eq!(st.selected, 1);
    palette_step(&mut st, true);
    assert_eq!(st.selected, 2);
    palette_step(&mut st, true);
    assert_eq!(st.selected, 0);
    palette_step(&mut st, false);
    assert_eq!(st.selected, 2);
    let mut none = state("zzz", &[]);
    none.show_create = false;
    none.matches.clear();
    palette_step(&mut none, true);
    assert_eq!(none.selected, 0);
}

#[test]
fn typing_and_backspace_edit_the_filter() {
    let mut st = state("", &["alpha", "beta"]);
    palette_type(&mut st, 'b');
    assert_eq!(st.filter, "b");
    assert_eq!(st.matches, vec![1]);
    palette_type(&mut st, '\n');
    assert_eq!(st.filter, "b");
    palette_backspace(&mut st);
    assert_eq!(st.filter, "");
    assert_eq!(st.matches, vec![0, 1]);
    palette_backspace(&mut st);
    assert_eq!(st.filter, "");
    palette_type(&mut st, 'é');
    palette_backspace(&mut st);
    assert_eq!(st.filter, "");
}

#[test]
fn enter_opens_the_highlight_or_creates_the_note() {
    let mut st = state("pro", &["other", "projector"]);
    assert!(matches!(palette_action(&st), PaletteAction::Open(1)));
    st.selected = 1;
    match palette_action(&st) {
        PaletteAction::Create(name) => assert_eq!(name, "pro"),
        _ => panic!("expected the create row"),
    }
    // A blank filter lists every note and offers no create row.
    let blank = state("   ", &["other"]);
    assert!(matches!(palette_action(&blank), PaletteAction::Open(0)));
    let empty = state("   ", &[]);
    assert!(matches!(palette_action(&empty), PaletteAction::Nothing));
}
