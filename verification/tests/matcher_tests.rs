use std::collections::HashSet;

use codeowners::builder::Builder;
use codeowners::matcher::Matcher;

fn matcher_for_patterns(patterns: &[&str]) -> Matcher {
    let mut builder = Builder::new();
    for pattern in patterns {
        builder.add(pattern);
    }
    builder.build()
}

fn assert_matches(matcher: &mut Matcher, path: &str, patterns: &[&str], expected: &[usize]) {
    assert_eq!(
        HashSet::<usize>::from_iter(matcher.matching_patterns(path).into_iter()),
        HashSet::from_iter(expected.iter().copied()),
        "expected {:?} to match {:?}",
        path,
        expected.iter().map(|&i| patterns[i]).collect::<Vec<_>>(),
    );
}

#[test]
fn matcher_test_literals() {
    let patterns = [
        "/src/parser/mod.rs",
        "/lib/parser/parse.rs",
        "/bin/parser/mod.rs",
        "mod.rs",
    ];
    let mut matcher = matcher_for_patterns(&patterns);

    assert_matches(&mut matcher, "src/parser/mod.rs", &patterns, &[0, 3]);
    assert_matches(&mut matcher, "lib/parser/parse.rs", &patterns, &[1]);
    assert_matches(&mut matcher, "lib/parser/mod.rs", &patterns, &[3]);
    assert_matches(&mut matcher, "lib/parser/util.rs", &patterns, &[]);
    assert_matches(&mut matcher, "src/lexer/mod.rs", &patterns, &[3]);
    assert_matches(&mut matcher, "src/parser/mod.go", &patterns, &[]);
}

#[test]
fn matcher_test_prefixes() {
    let patterns = ["src", "src/parser", "src/parser/"];
    let mut matcher = matcher_for_patterns(&patterns);

    assert_matches(&mut matcher, "src/parser/mod.rs", &patterns, &[0, 1, 2]);
    assert_matches(&mut matcher, "src/parser", &patterns, &[0, 1]);
    assert_matches(&mut matcher, "foo/src/parser/mod.rs", &patterns, &[0]);
}

#[test]
fn matcher_test_anchoring() {
    let patterns = ["/script/foo", "script/foo", "/foo", "foo"];
    let mut matcher = matcher_for_patterns(&patterns);

    assert_matches(&mut matcher, "script/foo", &patterns, &[0, 1, 3]);
    assert_matches(&mut matcher, "foo", &patterns, &[2, 3]);
    assert_matches(&mut matcher, "bar/script/foo", &patterns, &[3]);
}

#[test]
fn matcher_test_wildcards() {
    let patterns = [
        "src/*/mod.rs",
        "src/parser/*",
        "*/*/mod.rs",
        "src/parser/*/",
    ];
    let mut matcher = matcher_for_patterns(&patterns);

    assert_matches(&mut matcher, "src/parser/mod.rs", &patterns, &[0, 1, 2]);
    assert_matches(&mut matcher, "src/lexer/mod.rs", &patterns, &[0, 2]);
    assert_matches(&mut matcher, "src/parser/parser.rs", &patterns, &[1]);
    assert_matches(&mut matcher, "test/lexer/mod.rs", &patterns, &[2]);
    assert_matches(&mut matcher, "parser/mod.rs", &patterns, &[]);
    assert_matches(&mut matcher, "src/parser/subdir/thing.rs", &patterns, &[3]);
}

#[test]
fn matcher_test_trailing_wildcards() {
    let patterns = ["/mammals/*", "/fish/*/"];
    let mut matcher = matcher_for_patterns(&patterns);

    assert_matches(&mut matcher, "mammals", &patterns, &[]);
    assert_matches(&mut matcher, "mammals/equus", &patterns, &[0]);
    assert_matches(&mut matcher, "mammals/equus/zebra", &patterns, &[]);

    assert_matches(&mut matcher, "fish", &patterns, &[]);
    assert_matches(&mut matcher, "fish/gaddus", &patterns, &[]);
    assert_matches(&mut matcher, "fish/gaddus/cod", &patterns, &[1]);
}

#[test]
fn matcher_test_complex_patterns() {
    let patterns = ["/src/parser/*.rs", "/src/p*/*.*"];
    let mut matcher = matcher_for_patterns(&patterns);

    assert_matches(&mut matcher, "src/parser/mod.rs", &patterns, &[0, 1]);
    assert_matches(&mut matcher, "src/p/lib.go", &patterns, &[1]);
    assert_matches(&mut matcher, "src/parser/README", &patterns, &[]);
}

#[test]
fn matcher_test_leading_double_stars() {
    let patterns = ["/**/baz", "/**/bar/baz"];
    let mut matcher = matcher_for_patterns(&patterns);

    assert_matches(&mut matcher, "x/y/baz", &patterns, &[0]);
    assert_matches(&mut matcher, "x/bar/baz", &patterns, &[0, 1]);
    assert_matches(&mut matcher, "baz", &patterns, &[0]);
}

#[test]
fn matcher_test_infix_double_stars() {
    let patterns = ["/foo/**/qux", "/foo/qux"];
    let mut matcher = matcher_for_patterns(&patterns);

    assert_matches(&mut matcher, "foo/qux", &patterns, &[0, 1]);
    assert_matches(&mut matcher, "foo/bar/qux", &patterns, &[0]);
    assert_matches(&mut matcher, "foo/bar/baz/qux", &patterns, &[0]);
    assert_matches(&mut matcher, "foo/bar", &patterns, &[]);
    assert_matches(&mut matcher, "bar/qux", &patterns, &[]);
}

#[test]
fn matcher_test_trailing_double_stars() {
    let patterns = ["foo/**", "**"];
    let mut matcher = matcher_for_patterns(&patterns);

    assert_matches(&mut matcher, "foo", &patterns, &[1]);
    assert_matches(&mut matcher, "bar", &patterns, &[1]);
    assert_matches(&mut matcher, "foo/bar", &patterns, &[0, 1]);
    assert_matches(&mut matcher, "x/y/baz", &patterns, &[1]);
    assert_matches(&mut matcher, "foo/bar/baz", &patterns, &[0, 1]);
}

#[test]
fn matcher_test_escape_sequences() {
    let patterns = ["f\\*o", "a*b\\??", "\\*qux", "bar\\*", "\\*"];
    let mut matcher = matcher_for_patterns(&patterns);

    assert_matches(&mut matcher, "f*o", &patterns, &[0]);
    assert_matches(&mut matcher, "foo", &patterns, &[]);
    assert_matches(&mut matcher, "axb?!", &patterns, &[1]);
    assert_matches(&mut matcher, "axb?", &patterns, &[]);
    assert_matches(&mut matcher, "axbc!", &patterns, &[]);
    assert_matches(&mut matcher, "*qux", &patterns, &[2]);
    assert_matches(&mut matcher, "xqux", &patterns, &[]);
    assert_matches(&mut matcher, "bar*", &patterns, &[3]);
    assert_matches(&mut matcher, "bar", &patterns, &[]);
    assert_matches(&mut matcher, "*", &patterns, &[4]);
    assert_matches(&mut matcher, "a", &patterns, &[]);
}
