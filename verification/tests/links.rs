use rust_graph::filesystem::{candidate_filename, copy_candidate, parse_links, replace_links};

#[test]
fn parses_wikilinks() {
    let content = "see [[alpha]] and [[ beta ]] plus [[alpha]] again";
    assert_eq!(parse_links(content), vec!["alpha", "beta", "alpha"]);
}

#[test]
fn ignores_unclosed_and_bare_brackets() {
    assert_eq!(parse_links("no [[links here"), Vec::<String>::new());
    assert_eq!(parse_links("[single] and plain text"), Vec::<String>::new());
    assert_eq!(parse_links("empty [[]]"), Vec::<String>::new());
}

#[test]
fn replace_links_rewrites_only_matching_targets() {
    assert_eq!(
        replace_links("see [[alpha]] and [[alpha.md]] here", "alpha", "beta"),
        "see [[beta]] and [[beta]] here"
    );
    // Whitespace inside the brackets is tolerated.
    assert_eq!(replace_links("a [[ alpha ]] b", "alpha", "beta"), "a [[beta]] b");
    // Prefix names and unrelated links survive.
    assert_eq!(replace_links("[[alphabeta]] [[x]]", "alpha", "beta"), "[[alphabeta]] [[x]]");
    // Unclosed brackets pass through.
    assert_eq!(replace_links("no [[alpha here", "alpha", "beta"), "no [[alpha here");
}

#[test]
fn text_without_a_matching_link_passes_through() {
    for text in ["", "plain", "ünïcödé [[x]] and [[y.md]]", "[[ [[ ]] ]]", "a]]b[[c"] {
        assert_eq!(replace_links(text, "alpha", "beta"), text);
    }
}

#[test]
fn links_keep_multibyte_text_around_them() {
    assert_eq!(replace_links("é[[alpha]]ü", "alpha", "ß"), "é[[ß]]ü");
    assert_eq!(parse_links("é[[ ü ]]"), vec!["ü"]);
}

#[test]
fn unclosed_link_then_closed_one() {
    // The scan skips the first "[[" one byte at a time, so the second
    // opener still starts a link that the first closer ends.
    assert_eq!(parse_links("[[a [[b]]"), vec!["a [[b"]);
    assert_eq!(replace_links("[[[alpha]]", "alpha", "beta"), "[[[alpha]]");
}

#[test]
fn free_name_search_tries_numbered_suffixes() {
    assert_eq!(candidate_filename("note", 0), "note.md");
    assert_eq!(candidate_filename("note", 1), "note_1.md");
    assert_eq!(candidate_filename("note", 10), "note_10.md");
    assert_eq!(candidate_filename("a b", 407), "a b_407.md");
    assert_eq!(candidate_filename("", 0), ".md");
}

#[test]
fn copied_files_are_numbered_before_the_extension() {
    assert_eq!(copy_candidate("pic.png", 0), "pic.png");
    assert_eq!(copy_candidate("pic.png", 1), "pic_1.png");
    assert_eq!(copy_candidate("archive.tar.gz", 2), "archive.tar_2.gz");
    assert_eq!(copy_candidate("README", 3), "README_3");
    assert_eq!(copy_candidate(".hidden", 1), "_1.hidden");
    assert_eq!(copy_candidate("bild.jpg", 12), "bild_12.jpg");
}
