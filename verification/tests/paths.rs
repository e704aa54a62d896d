use mcp_search::paths::{
    extension, file_stem, is_absolute, join_path, normalize_path, normalize_relative,
    normalize_root_path, parent, path_components, same_path, strip_prefix, with_extension,
};
use std::path::{Path, PathBuf};

fn samples() -> Vec<&'static str> {
    vec![
        "", "/", ".", "..", "a", "a/", "./a", "a/./b", "/a/b", "/a//b/./c/", "../a", "/..", "a/..",
        "//a", "/a/.b", "/a/b.c", "a.tar.gz", "..foo", "/a/..", "content://x", "/a/.", "a/b.", ".log",
    ]
}

#[test]
fn components_are_those_of_the_file_system() {
    for text in samples() {
        let expected: Vec<String> =
            Path::new(text).components().map(|c| c.as_os_str().to_str().unwrap().to_string()).collect();
        assert_eq!(path_components(text), expected);
    }
}

#[test]
fn paths_are_taken_apart_as_by_the_file_system() {
    for text in samples() {
        let path = Path::new(text);
        assert_eq!(is_absolute(text), path.is_absolute());
        assert_eq!(extension(text), path.extension().map(|e| e.to_str().unwrap().to_string()));
        assert_eq!(file_stem(text), path.file_stem().map(|e| e.to_str().unwrap().to_string()));
        assert_eq!(parent(text), path.parent().map(|e| e.to_str().unwrap().to_string()));
    }
}

#[test]
fn extensions_are_replaced() {
    for (text, expected) in [
        ("a.so", "a.tmp-1"),
        ("/x/a", "/x/a.tmp-1"),
        ("/x/.a", "/x/.a.tmp-1"),
        ("a.tar.gz", "a.tar.tmp-1"),
        ("/x/a.so/", "/x/a.tmp-1"),
        ("/", "/"),
        ("..", ".."),
        ("", ""),
    ] {
        assert_eq!(with_extension(text, "tmp-1"), expected);
        assert_eq!(Path::new(text).with_extension("tmp-1").to_str().unwrap(), expected);
    }
}

#[test]
fn paths_are_joined_and_compared_as_by_the_file_system() {
    for a in samples() {
        for b in samples() {
            assert_eq!(join_path(a, b), Path::new(a).join(b).to_str().unwrap());
            assert_eq!(same_path(a, b), PathBuf::from(a) == PathBuf::from(b));
            assert_eq!(
                strip_prefix(a, b),
                Path::new(a).strip_prefix(b).ok().map(|p| p.to_str().unwrap().to_string())
            );
        }
    }
}

#[test]
fn normalizing_resolves_dots() {
    assert_eq!(normalize_path("/a/./b/../c"), "/a/c");
    assert_eq!(normalize_path("/../a"), "/a");
    assert_eq!(normalize_path("a/../.."), "");
    assert_eq!(normalize_path("/"), "/");
    assert_eq!(normalize_root_path("src/..", "/work/dir"), "/work/dir");
    assert_eq!(normalize_root_path("/abs", "/work"), "/abs");
    for text in samples() {
        let once = normalize_path(text);
        assert_eq!(normalize_path(&once), once);
    }
}

#[test]
fn relative_paths_are_shown_without_dots() {
    assert_eq!(normalize_relative("./src//lib/../main.rs"), "src/main.rs");
    assert_eq!(normalize_relative(".."), ".");
    assert_eq!(normalize_relative(""), ".");
    assert_eq!(normalize_relative("a/../../b"), "b");
}
