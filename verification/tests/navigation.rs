use rust_graph::editor::images::thumb_file_name;
use rust_graph::graph::processing::NavStack;
use std::path::PathBuf;

#[test]
fn navigate_into_pushes_and_changes_dir() {
    let mut nav = NavStack::new(PathBuf::from("/root"));
    let next = nav.dir.join("my-note");
    nav.navigate_into(next);
    assert_eq!(nav.dir, PathBuf::from("/root/my-note"));
    assert_eq!(nav.stack, vec![PathBuf::from("/root")]);
}

#[test]
fn navigate_to_level_truncates_stack() {
    let mut nav = NavStack::new(PathBuf::from("/root"));
    for name in ["a", "b", "c"] {
        let next = nav.dir.join(name);
        nav.navigate_into(next);
    }
    nav.navigate_to_level(1);
    assert_eq!(nav.dir, PathBuf::from("/root/a"));
    assert_eq!(nav.stack, vec![PathBuf::from("/root")]);

    // Out of range level is a no-op
    nav.navigate_to_level(5);
    assert_eq!(nav.dir, PathBuf::from("/root/a"));
}

#[test]
fn into_then_back_restores_the_trail() {
    let mut nav = NavStack::new(PathBuf::from("/root"));
    let a = nav.dir.join("a");
    nav.navigate_into(a);
    let depth = nav.stack.len();
    let b = nav.dir.join("b");
    nav.navigate_into(b);
    assert_eq!(nav.project_root(), &PathBuf::from("/root"));
    nav.navigate_to_level(depth);
    assert_eq!(nav.dir, PathBuf::from("/root/a"));
    assert_eq!(nav.stack, vec![PathBuf::from("/root")]);
    nav.navigate_to_level(0);
    assert_eq!(nav.dir, PathBuf::from("/root"));
    assert!(nav.stack.is_empty());
    assert_eq!(nav.project_root(), &PathBuf::from("/root"));
}

#[test]
fn thumbnail_names_drop_the_last_extension() {
    assert_eq!(thumb_file_name("20240513-231348.png"), "20240513-231348.thumb.png");
    assert_eq!(thumb_file_name("photo.jpg"), "photo.thumb.png");
    assert_eq!(thumb_file_name("archive.tar.gz"), "archive.tar.thumb.png");
    assert_eq!(thumb_file_name("README"), "README.thumb.png");
    assert_eq!(thumb_file_name(".hidden"), ".thumb.png");
}
