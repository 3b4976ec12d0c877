//! Paths and their order.

use searchlight::paths::{child_path, explicit_file_name, precedes, with_slashes};

#[test]
fn paths_are_ordered_like_std_orders_them() {
    let samples = [
        "", "/", ".", "..", "a", "a/", "a/b", "a.b", "a//b", "./a", "/a", "../a", "a/./b", "a/..",
        "ab", "é", "z", "/a/b", "a/b/c", "A", "a-b", ".a",
    ];
    for left in samples {
        for right in samples {
            let expected = std::path::Path::new(left) <= std::path::Path::new(right);
            assert_eq!(precedes(left, right), expected, "{:?} {:?}", left, right);
        }
    }
}

#[test]
fn names_are_those_that_std_finds() {
    for path in ["a.txt", "src/a.txt", "/a", "a/", "a/.", "a//", "x/y/./", "..", ".", "/", "", "a/.."] {
        let expected = match std::path::Path::new(path).file_name() {
            Some(name) => name.to_string_lossy().into_owned(),
            None => path.to_string(),
        };
        assert_eq!(explicit_file_name(path), expected, "{:?}", path);
    }
}

#[test]
fn children_are_joined_like_std_joins_them() {
    for dir in ["", "/", ".", "src", "src/", "a/b"] {
        let expected = std::path::Path::new(dir).join("x.txt");
        assert_eq!(child_path(dir, "x.txt"), expected.to_string_lossy());
    }
    assert_eq!(with_slashes("a\\b/c"), "a/b/c");
}
