use std::path::Path;
use traversal_core::paths::path_key_text;

#[test]
fn repeated_and_trailing_slashes_do_not_count() {
    assert_eq!(path_key_text("/a//b/"), "/a/b");
    assert_eq!(path_key_text("/a/b"), "/a/b");
    assert_eq!(path_key_text("a///b"), "a/b");
}

#[test]
fn inner_dot_components_do_not_count() {
    assert_eq!(path_key_text("a/./b/."), "a/b");
    assert_eq!(path_key_text("/./a"), "/a");
}

#[test]
fn leading_dot_counts() {
    assert_eq!(path_key_text("./a"), "./a");
    assert_eq!(path_key_text("."), "./");
    assert_eq!(path_key_text("./"), "./");
    assert_eq!(path_key_text("././a"), "./a");
    assert_ne!(path_key_text("./a"), path_key_text("a"));
}

#[test]
fn root_and_empty() {
    assert_eq!(path_key_text("/"), "/");
    assert_eq!(path_key_text("//"), "/");
    assert_eq!(path_key_text(""), "");
}

#[test]
fn parent_components_are_kept() {
    assert_eq!(path_key_text("/a/../b"), "/a/../b");
    assert_eq!(path_key_text(".."), "..");
}

#[test]
fn keys_agree_with_std_path_equality() {
    let cases = ["/a//b/", "/a/b", "a/./b", "a/b", "./a", "a", ".", "./", "/", "//x", "/x", "a/b/.", "x/..", "x/../"];
    for p in cases.iter() {
        for q in cases.iter() {
            let same_key = path_key_text(p) == path_key_text(q);
            assert_eq!(same_key, Path::new(p) == Path::new(q), "{} vs {}", p, q);
        }
    }
}
