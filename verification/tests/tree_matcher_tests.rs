use std::collections::HashSet;

use codeowners::builder::Builder;
use codeowners::matcher::Matcher;

fn matcher_for_patterns(patterns: &[&str]) -> Matcher {
    let mut builder = Builder::new();
    for pattern in patterns {
        builder.add(pattern);
    }
    builder.build()
}

fn assert_all_matches(expected: &[(&str, Vec<usize>)], patterns: &[&str]) {
    let paths: Vec<String> = expected.iter().map(|(path, _)| path.to_string()).collect();
    let mut matcher = matcher_for_patterns(patterns);
    let matches = matcher.matches_for_paths(&paths);
    for (path, expected_ids) in expected {
        let found: Vec<usize> = matches
            .iter()
            .find(|(p, _)| p == path)
            .map(|(_, ids)| ids.clone())
            .unwrap_or_default();
        assert_eq!(
            HashSet::<&usize>::from_iter(expected_ids.iter()),
            HashSet::from_iter(found.iter()),
            "path {}",
            path
        );
    }
}

#[test]
fn tree_matcher_test_literals() {
    let patterns = [
        "/src/parser/mod.rs",
        "/lib/parser/parse.rs",
        "/bin/parser/mod.rs",
        "mod.rs",
    ];
    let expected = &[
        ("src/parser/mod.rs", vec![0, 3]),
        ("lib/parser/parse.rs", vec![1]),
        ("lib/parser/mod.rs", vec![3]),
        ("lib/parser/util.rs", vec![]),
        ("src/lexer/mod.rs", vec![3]),
        ("src/parser/mod.go", vec![]),
    ];

    assert_all_matches(expected, &patterns);
}

#[test]
fn tree_matcher_test_prefixes() {
    let patterns = ["src", "src/parser", "src/parser/"];
    let expected = &[
        ("src/parser/mod.rs", vec![0, 1, 2]),
        ("src/parser", vec![0, 1]),
        ("foo/src/parser/mod.rs", vec![0]),
    ];

    assert_all_matches(expected, &patterns);
}

#[test]
fn tree_matcher_test_anchoring() {
    let patterns = ["/script/foo", "script/foo", "/foo", "foo"];
    let expected = &[
        ("script/foo", vec![0, 1, 3]),
        ("foo", vec![2, 3]),
        ("bar/script/foo", vec![3]),
    ];

    assert_all_matches(expected, &patterns);
}

#[test]
fn tree_matcher_test_wildcards() {
    let patterns = [
        "src/*/mod.rs",
        "src/parser/*",
        "*/*/mod.rs",
        "src/parser/*/",
    ];
    let expected = &[
        ("src/parser/mod.rs", vec![0, 1, 2]),
        ("src/lexer/mod.rs", vec![0, 2]),
        ("src/parser/parser.rs", vec![1]),
        ("test/lexer/mod.rs", vec![2]),
        ("parser/mod.rs", vec![]),
        ("src/parser/subdir/thing.rs", vec![3]),
    ];

    assert_all_matches(expected, &patterns);
}

#[test]
fn tree_matcher_test_trailing_wildcards() {
    let patterns = ["/mammals/*", "/fish/*/"];
    let expected = &[
        ("mammals", vec![]),
        ("mammals/equus", vec![0]),
        ("mammals/equus/zebra", vec![]),
        ("fish", vec![]),
        ("fish/gaddus", vec![]),
        ("fish/gaddus/cod", vec![1]),
    ];

    assert_all_matches(expected, &patterns);
}

#[test]
fn tree_matcher_test_complex_patterns() {
    let patterns = ["/src/parser/*.rs", "/src/p*/*.*"];
    let expected = &[
        ("src/parser/mod.rs", vec![0, 1]),
        ("src/p/lib.go", vec![1]),
        ("src/parser/README", vec![]),
    ];

    assert_all_matches(expected, &patterns);
}

#[test]
fn tree_matcher_test_leading_double_stars() {
    let patterns = ["/**/baz", "/**/bar/baz"];
    let expected = &[
        ("x/y/baz", vec![0]),
        ("x/bar/baz", vec![0, 1]),
        ("baz", vec![0]),
    ];

    assert_all_matches(expected, &patterns);
}

#[test]
fn tree_matcher_test_infix_double_stars() {
    let patterns = ["/foo/**/qux", "/foo/qux"];
    let expected = &[
        ("foo/qux", vec![0, 1]),
        ("foo/bar/qux", vec![0]),
        ("foo/bar/baz/qux", vec![0]),
        ("foo/bar", vec![]),
        ("bar/qux", vec![]),
    ];

    assert_all_matches(expected, &patterns);
}

#[test]
fn tree_matcher_test_trailing_double_stars() {
    let patterns = ["foo/**", "**"];
    let expected = &[
        ("foo", vec![1]),
        ("bar", vec![1]),
        ("foo/bar", vec![0, 1]),
        ("x/y/baz", vec![1]),
        ("foo/bar/baz", vec![0, 1]),
    ];

    assert_all_matches(expected, &patterns);
}

#[test]
fn tree_matcher_test_escape_sequences() {
    let patterns = ["f\\*o", "a*b\\??", "\\*qux", "bar\\*", "\\*"];
    let expected = &[
        ("f*o", vec![0]),
        ("foo", vec![]),
        ("axb?!", vec![1]),
        ("axb?", vec![]),
        ("axbc!", vec![]),
        ("*qux", vec![2]),
        ("xqux", vec![]),
        ("bar*", vec![3]),
        ("bar", vec![]),
        ("*", vec![4]),
        ("a", vec![]),
    ];

    assert_all_matches(expected, &patterns);
}
