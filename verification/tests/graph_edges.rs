use rust_graph::graph::processing::{
    degrees, new_note_stem, new_note_text, note_body, note_link_targets, rebuild_edges,
    refresh_saved_node, remove_node_edges, renamed_stem, resolve_link, Edge,
};

fn names(v: &[&str]) -> Vec<String> {
    v.iter().map(|s| s.to_string()).collect()
}

fn e(n1: usize, n2: usize) -> Edge {
    Edge { n1, n2 }
}

#[test]
fn links_resolve_with_or_without_extension() {
    let files = names(&["a.md", "b.md", "pic.png"]);
    assert_eq!(resolve_link(&files, "b"), Some(1));
    assert_eq!(resolve_link(&files, "b.md"), Some(1));
    assert_eq!(resolve_link(&files, "c"), None);
    // Other extensions never resolve to a note stem.
    assert_eq!(resolve_link(&files, "pic"), None);
    assert_eq!(resolve_link(&files, "pic.png"), Some(2));
}

#[test]
fn body_skips_the_frontmatter_block() {
    assert_eq!(note_body("---\nheader: [[x]]\n---\n[[b]]\n"), "[[b]]\n");
    assert_eq!(note_body("no block [[b]]"), "no block [[b]]");
}

#[test]
fn targets_skip_self_duplicates_and_unknown_links() {
    let files = names(&["a.md", "b.md", "c.md"]);
    let t = note_link_targets(&files, 0, "[[b]] [[a]] [[b.md]] [[zzz]] [[c]]");
    assert_eq!(t, vec![1, 2]);
    // A header link in the frontmatter makes no edge.
    assert_eq!(note_link_targets(&files, 0, "---\nheader: [[c]]\n---\n[[b]]"), vec![1]);
}

#[test]
fn rebuild_builds_directed_edges_note_by_note() {
    let files = names(&["a.md", "b.md", "c.md"]);
    let contents = names(&["# A\n[[b]] [[c]]\n", "[[a]]", "# C\n"]);
    let edges = rebuild_edges(&contents, &files);
    assert_eq!(edges, vec![e(0, 1), e(0, 2), e(1, 0)]);
    assert_eq!(degrees(3, &edges), vec![3, 2, 1]);
}

#[test]
fn refresh_saved_node_diffs_outgoing_edges() {
    let files = names(&["a.md", "b.md", "c.md"]);
    let mut edges = rebuild_edges(&names(&["# A\n\n[[b]]\n", "# B\n", "# C\n"]), &files);
    assert_eq!(edges, vec![e(0, 1)]);
    // Same links saved again: nothing changes.
    assert!(!refresh_saved_node(&mut edges, 0, "# A\n\n[[b]]\n", &files));
    assert_eq!(edges, vec![e(0, 1)]);
    // A link to c added.
    assert!(refresh_saved_node(&mut edges, 0, "# A\n\n[[c]]\n[[b]]\n", &files));
    assert_eq!(edges, vec![e(0, 1), e(0, 2)]);
    // The link to b removed: only the c edge remains, and b's degree drops.
    assert!(refresh_saved_node(&mut edges, 0, "# A\n\n[[c]]\n", &files));
    assert_eq!(edges, vec![e(0, 2)]);
    assert_eq!(degrees(3, &edges), vec![1, 0, 1]);
}

#[test]
fn removing_a_node_renumbers_the_rest() {
    let mut edges = vec![e(0, 1), e(1, 2), e(2, 0), e(3, 2)];
    remove_node_edges(&mut edges, 1, 4);
    assert_eq!(edges, vec![e(1, 0), e(2, 1)]);
}

#[test]
fn node_size_counts_connections_in_both_directions() {
    let files = names(&["hub.md", "x.md", "y.md", "leaf.md"]);
    let contents = names(&["", "[[hub]]", "[[hub]] [[leaf]]", ""]);
    let edges = rebuild_edges(&contents, &files);
    let d = degrees(4, &edges);
    assert_eq!(d[0], 2);
    assert!(d[0] > d[3]);
}

#[test]
fn new_notes_are_named_and_titled_from_the_request() {
    assert_eq!(new_note_stem("ideas.md"), "ideas");
    assert_eq!(new_note_stem("ideas"), "ideas");
    assert_eq!(new_note_stem("a.md.md"), "a");
    assert_eq!(new_note_stem(".md"), "untitled");
    assert_eq!(new_note_stem(""), "untitled");
    assert_eq!(new_note_text("ideas_2.md"), "# ideas_2\n");
    assert_eq!(new_note_text("plain"), "# plain\n");
}

#[test]
fn renamed_notes_drop_whitespace_and_extension() {
    assert_eq!(renamed_stem("  beta.md "), Some("beta".to_string()));
    assert_eq!(renamed_stem("gamma"), Some("gamma".to_string()));
    assert_eq!(renamed_stem("   "), None);
    assert_eq!(renamed_stem(" .md"), None);
}
