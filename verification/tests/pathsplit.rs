use ls_git::{classify_delta, split_str, FileType};

#[test]
fn split_simple() {
    assert_eq!(split_str("a/b/c"), vec!["a", "b", "c"]);
    assert_eq!(split_str("a.txt"), vec!["a.txt"]);
    assert_eq!(split_str(""), vec![""]);
    assert_eq!(split_str("a//b"), vec!["a", "", "b"]);
    assert_eq!(split_str("/x"), vec!["", "x"]);
    assert_eq!(split_str("x/"), vec!["x", ""]);
}

#[test]
fn classify_at_repository_root() {
    assert_eq!(
        classify_delta("a.txt", ""),
        Some((String::from("a.txt"), FileType::File))
    );
    assert_eq!(
        classify_delta("docs/readme.md", ""),
        Some((String::from("docs"), FileType::Directory))
    );
    assert_eq!(
        classify_delta("a/b/c.rs", ""),
        Some((String::from("a"), FileType::Directory))
    );
}

#[test]
fn classify_under_listed_directory() {
    assert_eq!(
        classify_delta("src/lib.rs", "src"),
        Some((String::from("lib.rs"), FileType::File))
    );
    assert_eq!(
        classify_delta("src/nested/mod.rs", "src"),
        Some((String::from("nested"), FileType::Directory))
    );
    assert_eq!(
        classify_delta("src/a/b/c.rs", "src/a"),
        Some((String::from("b"), FileType::Directory))
    );
}

#[test]
fn classify_discards_changes_outside_directory() {
    assert_eq!(classify_delta("other/x.rs", "src"), None);
    assert_eq!(classify_delta("srcx/y.rs", "src"), None);
    // the directory itself is not an entry below itself
    assert_eq!(classify_delta("src", "src"), None);
}
