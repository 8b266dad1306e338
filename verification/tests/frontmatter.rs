use rust_graph::frontmatter::{line_range, parse, parse_lines, upsert_header};

fn lines(v: &[&str]) -> Vec<String> {
    v.iter().map(|s| s.to_string()).collect()
}

#[test]
fn parses_header_wikilink() {
    let fm = parse_lines(&lines(&["---", "header: [[assets/banner.png]]", "---", "# Title"])).unwrap();
    assert_eq!(fm.header.as_deref(), Some("assets/banner.png"));
    assert_eq!(fm.end_line, 2);
    assert_eq!(fm.fields, vec![("header".to_string(), "[[assets/banner.png]]".to_string())]);
}

#[test]
fn parses_bare_and_multiple_fields() {
    let fm = parse_lines(&lines(&["---", "title: Project Hub", "header: index.md", "---"])).unwrap();
    assert_eq!(fm.header.as_deref(), Some("index.md"));
    assert_eq!(fm.fields.len(), 2);
}

#[test]
fn no_block_means_none() {
    assert!(parse_lines(&lines(&["# Title", "body"])).is_none());
    assert!(parse_lines(&lines(&[])).is_none());
    // A lone rule at the top is not frontmatter.
    assert!(parse_lines(&lines(&["---"])).is_none());
}

#[test]
fn unclosed_block_is_none() {
    assert!(parse_lines(&lines(&["---", "header: [[x]]"])).is_none());
}

#[test]
fn ignores_comments_and_empty_lines_inside() {
    let fm = parse_lines(&lines(&["---", "", "# note", "header: [[y]]", "---"])).unwrap();
    assert_eq!(fm.header.as_deref(), Some("y"));
    assert_eq!(fm.fields.len(), 1);
}

#[test]
fn hr_later_does_not_trigger_frontmatter() {
    assert!(parse_lines(&lines(&["# One", "---", "header: [[x]]", "---"])).is_none());
}

#[test]
fn handles_bom() {
    let fm = parse_lines(&lines(&["\u{feff}---", "header: [[z]]", "---"])).unwrap();
    assert_eq!(fm.header.as_deref(), Some("z"));
}

#[test]
fn content_parse_report_end_byte() {
    let content = "---\nheader: [[a.png]]\n---\n# Body\n[[b]]\n";
    let fm = parse(content).unwrap();
    assert_eq!(fm.header.as_deref(), Some("a.png"));
    assert_eq!(&content[fm.end_byte.min(content.len())..], "# Body\n[[b]]\n");
}

#[test]
fn line_range_spans_block() {
    let b = lines(&["---", "header: [[x]]", "---", "body"]);
    assert_eq!(line_range(&b), Some((0, 2)));
    assert_eq!(line_range(&lines(&["# t", "---"])), None);
}

#[test]
fn upsert_replaces_existing_header_line() {
    let out = upsert_header("---\nheader: [[old.png]]\n---\n# T\n", "[[assets/new.png]]");
    assert_eq!(out, "---\nheader: [[assets/new.png]]\n---\n# T\n");
}

#[test]
fn upsert_inserts_header_when_block_has_none() {
    let out = upsert_header("---\ntitle: Hub\n---\n# T\n", "[[assets/pic.png]]");
    assert_eq!(out, "---\ntitle: Hub\nheader: [[assets/pic.png]]\n---\n# T\n");
}

#[test]
fn upsert_prepends_block_when_no_frontmatter() {
    let out = upsert_header("# T\nbody\n", "[[a.png]]");
    assert_eq!(out, "---\nheader: [[a.png]]\n---\n# T\nbody\n");
}

#[test]
fn upsert_then_parse_reads_the_new_header() {
    for content in ["# T\nbody\n", "---\ntitle: Hub\n---\n", "---\nheader: old\n---\nx"] {
        let out = upsert_header(content, "[[ pics/new.png ]]");
        let fm = parse(&out).unwrap();
        assert_eq!(fm.header.as_deref(), Some("pics/new.png"));
    }
}

#[test]
fn end_byte_counts_through_the_closing_line() {
    // Closing delimiter on the last line without a line feed: the end.
    let fm = parse("---\n---").unwrap();
    assert_eq!(fm.end_line, 1);
    assert_eq!(fm.end_byte, 7);
    // Carriage returns count as part of the line break.
    let c = "---\r\nheader: x\r\n---\r\nbody";
    let fm = parse(c).unwrap();
    assert_eq!(fm.header.as_deref(), Some("x"));
    assert_eq!(fm.end_line, 2);
    assert_eq!(fm.end_byte, 21);
    assert_eq!(&c[fm.end_byte..], "body");
    let fm = parse("---\n---\n").unwrap();
    assert_eq!(fm.end_byte, 8);
    assert_eq!(parse_lines(&lines(&["---", "---"])).unwrap().end_byte, 0);
}

#[test]
fn fields_keep_order_and_skip_keyless_lines() {
    let fm = parse_lines(&lines(&[" ---  ", ": no key", "a: 1", "no colon", "b:2 ", "---"])).unwrap();
    assert_eq!(
        fm.fields,
        vec![("a".to_string(), "1".to_string()), ("b".to_string(), "2".to_string())]
    );
    assert_eq!(fm.header, None);
}

#[test]
fn line_range_agrees_with_parse_lines() {
    for v in [
        vec!["---", "a: b", "---", "x"],
        vec!["---"],
        vec!["x", "---", "---"],
        vec!["\u{feff}---", "---"],
    ] {
        let l = lines(&v);
        assert_eq!(line_range(&l), parse_lines(&l).map(|fm| (0, fm.end_line)));
    }
}
