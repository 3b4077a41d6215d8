use colla::path::{decimal_string, path_segment, prefix};
use colla::{Path, PathSeg};

#[test]
fn paths_build_from_keys_and_indexes() {
    let path = Path::key("items").with_index(2).push_key("title");
    assert_eq!(
        path.segments(),
        &[
            PathSeg::Key("items".into()),
            PathSeg::Index(2),
            PathSeg::Key("title".into()),
        ]
    );
    assert_eq!(path.to_display_string(), "$.items[2].title");
    assert_eq!(Path::new().to_display_string(), "$");
    assert!(Path::new().is_empty());
}

#[test]
fn mutable_path_edits_push_and_pop_the_last_segment() {
    let mut path = Path::index(0);
    path.push_key_mut("a");
    path.push_index_mut(10);
    path.push(PathSeg::Key("b".into()));
    assert_eq!(path.to_display_string(), "$[0].a[10].b");
    path.pop();
    assert_eq!(path.to_display_string(), "$[0].a[10]");
    let mut root = Path::new();
    root.pop();
    assert!(root.is_empty());
}

#[test]
fn path_segments_convert_from_strings_and_indexes() {
    assert_eq!(path_segment("k"), PathSeg::Key("k".into()));
    assert_eq!(path_segment(String::from("k")), PathSeg::Key("k".into()));
    assert_eq!(path_segment(3usize), PathSeg::Index(3));
}

#[test]
fn path_prefixes_keep_leading_segments() {
    let path = Path::key("a").with_index(1).with_key("b");
    assert_eq!(prefix(&path, 2).to_display_string(), "$.a[1]");
    assert_eq!(prefix(&path, 0).to_display_string(), "$");
    assert_eq!(prefix(&path, 9).to_display_string(), "$.a[1].b");
}

#[test]
fn indexes_render_in_decimal() {
    assert_eq!(decimal_string(0), "0");
    assert_eq!(decimal_string(907), "907");
    assert_eq!(decimal_string(usize::MAX), usize::MAX.to_string());
}
