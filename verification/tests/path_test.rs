use moss::error::StorageError;
use moss::path::{lies_under, moved_path, normalize_virtual_path};

fn chars(text: &str) -> Vec<char> {
    text.chars().collect()
}

#[test]
fn paths_are_normalized() {
    assert_eq!(normalize_virtual_path("/a//./b\\c/").ok().unwrap(), "a/b/c");
    assert_eq!(normalize_virtual_path("a/b/c").ok().unwrap(), "a/b/c");
    assert_eq!(normalize_virtual_path("\u{e9}/\u{4e2d}").ok().unwrap(), "\u{e9}/\u{4e2d}");
    assert_eq!(normalize_virtual_path("...").ok().unwrap(), "...");
}

#[test]
fn bad_paths_are_refused() {
    assert_eq!(normalize_virtual_path("a/../b").err(), Some(StorageError::ParentTraversal));
    assert_eq!(normalize_virtual_path("a\0").err(), Some(StorageError::NulByte));
    assert_eq!(normalize_virtual_path("").err(), Some(StorageError::RootPath));
    assert_eq!(normalize_virtual_path("/").err(), Some(StorageError::RootPath));
}

#[test]
fn normalizing_twice_changes_nothing() {
    for path in ["x", "/x/y\\z", "./a/./b", "a b/c d"] {
        let once = normalize_virtual_path(path).ok().unwrap();
        assert_eq!(normalize_virtual_path(&once).ok().unwrap(), once);
    }
}

#[test]
fn moving_there_and_back() {
    let there = moved_path("a/b/c", "a/b", "x");
    assert_eq!(there, "x/c");
    assert_eq!(moved_path(&there, "x", "a/b"), "a/b/c");
    assert_eq!(moved_path("a/b", "a/b", "x"), "x");
}

#[test]
fn below_means_behind_a_slash() {
    assert!(lies_under(&chars("a/b"), &chars("a")));
    assert!(lies_under(&chars("a"), &chars("a")));
    assert!(!lies_under(&chars("ab"), &chars("a")));
    assert!(!lies_under(&chars("a"), &chars("a/b")));
}

#[test]
fn normalizing_never_lengthens() {
    for path in ["x", "//x//", "\\a\\b", "./\u{e9}/.", "a/b"] {
        assert!(normalize_virtual_path(path).ok().unwrap().len() <= path.len());
    }
}
