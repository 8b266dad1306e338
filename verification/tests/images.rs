use rust_graph::editor::images::is_image_target;

#[test]
fn recognizes_image_extensions() {
    assert!(is_image_target("cat.png"));
    assert!(is_image_target("assets/image.png"));
    assert!(is_image_target("pic.jpg"));
    assert!(is_image_target("pic.jpeg"));
    assert!(is_image_target("anim.gif"));
    assert!(is_image_target("a.b.c.PNG"));
    assert!(is_image_target("icon.ico "));
}

#[test]
fn rejects_unsupported_and_non_image_targets() {
    assert!(!is_image_target("scan.tif"));
    assert!(!is_image_target("scan.tiff"));
    assert!(!is_image_target("note.md"));
    assert!(!is_image_target("cat"));
    assert!(!is_image_target("cat.txt"));
    assert!(!is_image_target("dir/page.md"));
    assert!(!is_image_target(""));
}
