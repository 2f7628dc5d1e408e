use atuin_export::path::{chars_equal, file_name_of, join_path, normalize_lexically, path_lies_under};

fn cs(s: &str) -> Vec<char> {
    s.chars().collect()
}

#[test]
fn normalize_relative_and_dots() {
    assert_eq!(normalize_lexically("a/../../b"), "b");
    assert_eq!(normalize_lexically("./a//./b/"), "a/b");
    assert_eq!(normalize_lexically("/.."), "/");
    assert_eq!(normalize_lexically(""), "");
    assert_eq!(normalize_lexically(".."), "");
}

#[test]
fn join_follows_path_join() {
    assert_eq!(join_path(&cs("/a"), &cs("b")), cs("/a/b"));
    assert_eq!(join_path(&cs("/a/"), &cs("b")), cs("/a/b"));
    assert_eq!(join_path(&cs(""), &cs("b")), cs("b"));
    assert_eq!(join_path(&cs("/a"), &cs("/b")), cs("/b"));
}

#[test]
fn lies_under_is_component_wise() {
    assert!(path_lies_under(&cs("/mnt/dav/x"), &cs("/mnt/dav")));
    assert!(path_lies_under(&cs("/mnt/dav"), &cs("/mnt/dav/")));
    assert!(!path_lies_under(&cs("/mnt/davx"), &cs("/mnt/dav")));
    assert!(path_lies_under(&cs("/mnt/x/../dav/y"), &cs("/mnt/dav")));
    assert!(!path_lies_under(&cs("mnt/dav"), &cs("/mnt")));
    assert!(!path_lies_under(&cs("/mnt"), &cs("./mnt")));
}

#[test]
fn file_name_and_equality() {
    assert_eq!(file_name_of(&cs("/usr/bin/fish")), Some(cs("fish")));
    assert_eq!(file_name_of(&cs("/")), None);
    assert_eq!(file_name_of(&cs("a/.")), Some(cs("a")));
    assert!(chars_equal(&cs("ab"), &cs("ab")));
    assert!(!chars_equal(&cs("ab"), &cs("a")));
}
