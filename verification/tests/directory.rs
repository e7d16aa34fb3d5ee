use binary_mock::directory::{is_same_directory, path_components, segment_is_name, DOT, SLASH};
use std::path::Path;

fn list(items: &[&str]) -> Vec<Vec<u8>> {
    items.iter().map(|s| s.as_bytes().to_vec()).collect()
}

#[test]
fn marks_are_slash_and_dot() {
    assert_eq!(SLASH, b'/');
    assert_eq!(DOT, b'.');
}

#[test]
fn components_of_an_absolute_path() {
    assert_eq!(path_components(b"/tmp/mock"), list(&["/", "tmp", "mock"]));
}

#[test]
fn components_of_a_relative_path() {
    assert_eq!(path_components(b"tmp/mock"), list(&["tmp", "mock"]));
}

#[test]
fn components_skip_empty_stretches_and_dots() {
    assert_eq!(path_components(b"/tmp//mock/"), list(&["/", "tmp", "mock"]));
    assert_eq!(path_components(b"/tmp/./mock/."), list(&["/", "tmp", "mock"]));
    assert_eq!(path_components(b"//"), list(&["/"]));
    assert_eq!(path_components(b"/."), list(&["/"]));
}

#[test]
fn components_keep_a_leading_dot() {
    assert_eq!(path_components(b"."), list(&["."]));
    assert_eq!(path_components(b"./tmp"), list(&[".", "tmp"]));
    assert_eq!(path_components(b"./."), list(&["."]));
    assert_eq!(path_components(b".hidden"), list(&[".hidden"]));
}

#[test]
fn components_keep_the_parent_name() {
    assert_eq!(path_components(b"/tmp/../mock"), list(&["/", "tmp", "..", "mock"]));
    assert_eq!(path_components(b".."), list(&[".."]));
}

#[test]
fn components_of_the_empty_path() {
    assert_eq!(path_components(b""), list(&[]));
}

#[test]
fn segment_is_name_unless_empty_or_a_dot() {
    assert!(segment_is_name(b"tmp"));
    assert!(segment_is_name(b".."));
    assert!(segment_is_name(b".x"));
    assert!(segment_is_name(b"x."));
    assert!(!segment_is_name(b""));
    assert!(!segment_is_name(b"."));
}

#[test]
fn trailing_slash_is_the_same_directory() {
    assert!(is_same_directory(b"/tmp/mock/", b"/tmp/mock"));
    assert!(is_same_directory(b"/tmp/mock", b"/tmp/mock/"));
    assert!(is_same_directory(b"/tmp/mock///", b"/tmp/mock"));
    assert!(is_same_directory(b"mock/", b"mock"));
}

#[test]
fn doubled_slash_and_dot_are_the_same_directory() {
    assert!(is_same_directory(b"/tmp//mock", b"/tmp/mock"));
    assert!(is_same_directory(b"/tmp/./mock", b"/tmp/mock"));
    assert!(is_same_directory(b"//tmp/mock", b"/tmp/mock"));
}

#[test]
fn other_names_are_other_directories() {
    assert!(!is_same_directory(b"/tmp/mock", b"/tmp/mocks"));
    assert!(!is_same_directory(b"/tmp/mock", b"/tmp"));
    assert!(!is_same_directory(b"/tmp/mock", b"/tmp/mock/x"));
    assert!(!is_same_directory(b"/tmp/a/../mock", b"/tmp/mock"));
}

#[test]
fn rooted_and_relative_differ() {
    assert!(!is_same_directory(b"/tmp", b"tmp"));
    assert!(!is_same_directory(b"./tmp", b"tmp"));
    assert!(!is_same_directory(b"", b"/"));
    assert!(!is_same_directory(b"", b"."));
    assert!(!is_same_directory(b"/", b"."));
}

#[test]
fn the_empty_path_is_only_itself() {
    assert!(is_same_directory(b"", b""));
    assert!(!is_same_directory(b"", b"x"));
    assert!(!is_same_directory(b"x", b""));
}

#[test]
fn every_path_is_the_same_directory_as_itself() {
    for path in ["", "/", ".", "..", "/tmp/mock", "a//b/./c/", "./x", "/./x"] {
        assert!(is_same_directory(path.as_bytes(), path.as_bytes()));
    }
}

#[test]
fn same_directory_agrees_with_path_equality() {
    let paths = [
        "", "/", "//", ".", "./", "./.", "..", "../", "/.", "/..", "a", "a/", "a//", "./a", "a/.",
        "a/./", "/a", "//a", "/a/", "/./a", "a/b", "a//b", "a/./b", "a/../b", "/a/b", "/a/b/",
        "/a//b", "/a/./b/.", ".a", "a.", "..a", "/tmp/mock", "/tmp/mock/", "/tmp/./mock",
        "/tmp/mock/.", "/tmp/mock/..", "tmp/mock", "./tmp/mock", "/tmp/mocks", "/tmp", " ", "/ /",
    ];
    for a in paths {
        for b in paths {
            assert_eq!(
                is_same_directory(a.as_bytes(), b.as_bytes()),
                Path::new(a) == Path::new(b),
                "{:?} and {:?}",
                a,
                b
            );
        }
    }
}
