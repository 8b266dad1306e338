use rust_graph::editor::markdown::{
    blockquote_marker_len, display_link, heading_after_markers, heading_info, image_link_target,
    is_blockquote, is_horizontal_rule, line_segments, list_info, list_marker_display,
    marker_content_skip, measure_line, parse_prefix, raw_segments, render_line, strip_inline,
    Segment, SegmentStyle,
};

fn styles(segs: &[Segment]) -> Vec<SegmentStyle> {
    segs.iter().map(|s| s.style).collect()
}

#[test]
fn plain_line() {
    let segs = line_segments("just text here");
    assert_eq!(styles(&segs), vec![SegmentStyle::Plain]);
    assert_eq!(segs[0].text, "just text here");
}

#[test]
fn wikilink_is_highlighted() {
    let segs = line_segments("see [[alpha.md]] here");
    assert_eq!(styles(&segs), vec![SegmentStyle::Plain, SegmentStyle::Link, SegmentStyle::Plain]);
    assert_eq!(segs[1].text, "[[alpha]]");
}

#[test]
fn wikilink_hides_md_extension() {
    assert_eq!(display_link("[[alpha.md]]"), "[[alpha]]");
    assert_eq!(display_link("[[beta]]"), "[[beta]]");
    assert_eq!(display_link("[[cat.png]]"), "[[cat.png]]");
    assert_eq!(display_link("[[nested/deep.md]]"), "[[nested/deep]]");
    assert_eq!(display_link("plain"), "plain");
}

#[test]
fn inline_code_and_link() {
    let segs = line_segments("use `x` then [[y]]");
    assert_eq!(
        styles(&segs),
        vec![SegmentStyle::Plain, SegmentStyle::Code, SegmentStyle::Plain, SegmentStyle::Link]
    );
    assert_eq!(segs[1].text, "`x`");
    assert_eq!(segs[3].text, "[[y]]");
}

#[test]
fn unclosed_markers_stay_plain() {
    let segs = line_segments("broken [[link");
    assert_eq!(styles(&segs), vec![SegmentStyle::Plain]);
    let segs = line_segments("broken ` code");
    assert_eq!(styles(&segs), vec![SegmentStyle::Plain]);
}

#[test]
fn link_then_code_adjacent() {
    let segs = line_segments("[[a]]`b`");
    assert_eq!(styles(&segs), vec![SegmentStyle::Link, SegmentStyle::Code]);
}

#[test]
fn heading_levels() {
    assert_eq!(heading_info("# Title"), Some((1, 2)));
    assert_eq!(heading_info("## Sub"), Some((2, 3)));
    assert_eq!(heading_info("###### Deep"), Some((6, 7)));
    assert_eq!(heading_info("####### too many"), None);
    assert_eq!(heading_info("#foo"), None);
    assert_eq!(heading_info("plain"), None);
    assert_eq!(heading_info("#"), Some((1, 1)));
}

#[test]
fn heading_inside_list_and_quote_markers() {
    assert_eq!(heading_after_markers("## plain"), Some((2, 3)));
    assert_eq!(heading_after_markers("- ## hi"), Some((2, 5)));
    assert_eq!(heading_after_markers("* ### hi"), Some((3, 6)));
    assert_eq!(heading_after_markers("> ## hi"), Some((2, 5)));
    assert_eq!(heading_after_markers("> - ## x"), Some((2, 7)));
    assert_eq!(heading_after_markers("1. ## hi"), Some((2, 6)));
    assert_eq!(heading_after_markers("- #hi"), None);
    assert_eq!(heading_after_markers("- plain"), None);
    assert_eq!(heading_after_markers("> plain"), None);
    assert_eq!(marker_content_skip("- ## hi"), 2);
    assert_eq!(marker_content_skip("> ## hi"), 2);
    assert_eq!(marker_content_skip("> - ## x"), 4);
    assert_eq!(marker_content_skip("## plain"), 0);
}

#[test]
fn indented_headings() {
    assert_eq!(heading_info("## x"), Some((2, 3)));
    assert_eq!(heading_info("  ## x"), Some((2, 5)));
    assert_eq!(heading_info("\t## x"), Some((2, 4)));
    assert_eq!(heading_info("   ## x"), Some((2, 6)));
    assert_eq!(heading_info("    ## x"), None);
    assert_eq!(heading_info("\t\t## x"), None);
    assert_eq!(heading_info("\t# x"), Some((1, 3)));
    assert_eq!(heading_after_markers("\t## x"), Some((2, 4)));
    assert_eq!(heading_after_markers("\t- ## x"), Some((2, 6)));
    assert_eq!(heading_after_markers("  > ## x"), Some((2, 7)));
    assert_eq!(heading_after_markers("-   ## x"), None);
    assert_eq!(heading_after_markers(">  ## x"), None);
    assert_eq!(marker_content_skip("\t## x"), 1);
    assert_eq!(marker_content_skip("  > ## x"), 4);
}

#[test]
fn horizontal_rules() {
    assert!(is_horizontal_rule("---"));
    assert!(is_horizontal_rule("***"));
    assert!(is_horizontal_rule("___"));
    assert!(is_horizontal_rule("- - -"));
    assert!(is_horizontal_rule("---   "));
    assert!(!is_horizontal_rule("--"));
    assert!(!is_horizontal_rule("--- text"));
    assert!(!is_horizontal_rule(""));
}

#[test]
fn blockquotes() {
    assert!(is_blockquote("> quote"));
    assert!(is_blockquote(">quote"));
    assert!(is_blockquote("  > indented quote"));
    assert!(!is_blockquote("no quote"));
    assert!(!is_blockquote(""));
    assert_eq!(blockquote_marker_len("> foo"), Some(2));
    assert_eq!(blockquote_marker_len(">"), Some(1));
    assert_eq!(blockquote_marker_len(">> bar"), Some(3));
    assert_eq!(blockquote_marker_len("  > baz"), Some(4));
    assert_eq!(blockquote_marker_len(">  spaced"), Some(2));
    assert_eq!(blockquote_marker_len("> > nested"), Some(4));
    assert_eq!(blockquote_marker_len("not a quote"), None);
}

#[test]
fn bold_italic_emphasis() {
    let segs = line_segments("**bold** and *italic* mix");
    assert_eq!(
        segs.iter().map(|s| s.style).collect::<Vec<_>>(),
        vec![SegmentStyle::Bold, SegmentStyle::Plain, SegmentStyle::Italic, SegmentStyle::Plain]
    );
    assert_eq!(segs[0].text, "bold");
    assert_eq!(segs[2].text, "italic");
    assert_eq!(segs[1].text, " and ");
    assert_eq!(segs[3].text, " mix");
}

#[test]
fn emphasis_markers_stripped() {
    assert_eq!(strip_inline("**bold**`code`_it_"), "bold`code`it");
    assert_eq!(strip_inline("__bold__ word"), "bold word");
}

#[test]
fn unclosed_emphasis_stays_plain() {
    let segs = line_segments("**unclosed");
    assert_eq!(styles(&segs), vec![SegmentStyle::Plain]);
    assert_eq!(segs[0].text, "**unclosed");
}

#[test]
fn emphasis_keeps_cursor_measure_consistent() {
    assert_eq!(strip_inline("plain **b** plain"), "plain b plain");
    assert_eq!(strip_inline("# ## heading"), "# ## heading");
}

#[test]
fn list_markers() {
    assert_eq!(list_info("- item"), Some(2));
    assert_eq!(list_info("* item"), Some(2));
    assert_eq!(list_info("+ item"), Some(2));
    assert_eq!(list_info("1. item"), Some(3));
    assert_eq!(list_info("12) item"), Some(4));
    assert_eq!(list_info("  - nested"), Some(4));
    assert_eq!(list_info("-"), None);
    assert_eq!(list_info("*item* (italic, not a list)"), None);
    assert_eq!(list_info("---is a rule"), None);
    assert_eq!(list_info("plain"), None);
    assert_eq!(list_info("1.item no space"), None);
}

#[test]
fn list_marker_displays() {
    assert_eq!(list_marker_display("- item"), Some(("* ".to_string(), 2)));
    assert_eq!(list_marker_display("+ item"), Some(("* ".to_string(), 2)));
    assert_eq!(list_marker_display("* item"), Some(("* ".to_string(), 2)));
    assert_eq!(list_marker_display("  - indented"), Some(("  * ".to_string(), 4)));
    assert_eq!(list_marker_display("1. ordered"), Some(("1. ".to_string(), 3)));
    assert_eq!(list_marker_display("plain"), None);
}

#[test]
fn raw_segments_are_unparsed() {
    let raw = raw_segments("**bold** [[x]] `c` - item");
    assert_eq!(raw.len(), 1);
    assert_eq!(raw[0].style, SegmentStyle::Plain);
    assert_eq!(raw[0].text, "**bold** [[x]] `c` - item");
}

#[test]
fn whole_line_image_links() {
    assert_eq!(image_link_target("[[cat.png]]"), Some("cat.png".to_string()));
    assert_eq!(image_link_target("[[assets/image.png]]"), Some("assets/image.png".to_string()));
    assert_eq!(image_link_target("- [[cat.png]]"), Some("cat.png".to_string()));
    assert_eq!(image_link_target("> [[cat.png]]"), Some("cat.png".to_string()));
    assert_eq!(image_link_target("  > [[img.jpeg]]"), Some("img.jpeg".to_string()));
    assert_eq!(image_link_target("[[cat.PNG]]"), Some("cat.PNG".to_string()));
}

#[test]
fn non_image_lines() {
    assert_eq!(image_link_target("see [[cat.png]] here"), None);
    assert_eq!(image_link_target("[[cat.md]]"), None);
    assert_eq!(image_link_target("[[cat]]"), None);
    assert_eq!(image_link_target("[[cat.png]] extra"), None);
    assert_eq!(image_link_target("plain text"), None);
    assert_eq!(image_link_target(""), None);
}

#[test]
fn render_and_measure_follow_the_format_flag() {
    assert_eq!(render_line("**b**", false)[0].text, "**b**");
    assert_eq!(render_line("**b**", true)[0].style, SegmentStyle::Bold);
    assert_eq!(measure_line("a [[x.md]] `c`", true), "a [[x]] `c`");
    assert_eq!(measure_line("a [[x.md]]", false), "a [[x.md]]");
}

#[test]
fn segments_concatenate_to_the_stripped_line() {
    for line in ["", "a *b* [[c.md]] `d` __e__ f", "ü **ß** [[x", "*_*_"] {
        let joined: String = line_segments(line).iter().map(|s| s.text.as_str()).collect();
        assert_eq!(joined, strip_inline(line));
    }
}

#[test]
fn prefix_reports_heading_and_content_start() {
    let p = parse_prefix("> - ## title");
    assert_eq!(p.heading_level(), Some(2));
    assert!(p.has_quote());
    assert_eq!(p.content(), 7);
    assert!(!p.is_hr);
    assert!(parse_prefix("- - -").is_hr);
}

#[test]
fn two_image_links_on_a_line_are_no_image_line() {
    assert_eq!(image_link_target("[[a.png]] [[b.png]]"), None);
    assert_eq!(image_link_target("- [[a.png]]]]"), None);
    assert_eq!(image_link_target("> [[pics/a.png]]"), Some("pics/a.png".to_string()));
}
