use std::collections::HashSet;

use codeowners::builder::Builder;
use codeowners::matcher::Matcher;

fn matcher_with(patterns: &[&str]) -> (Matcher, Vec<usize>) {
    let mut builder = Builder::new();
    let mut ids = Vec::new();
    for pattern in patterns {
        ids.push(builder.add(pattern));
    }
    (builder.build(), ids)
}

fn matching(matcher: &mut Matcher, path: &str) -> HashSet<usize> {
    HashSet::from_iter(matcher.matching_patterns(path).into_iter())
}

#[test]
fn test_literal_matches() {
    let (mut nfa, patterns) = matcher_with(&[
        "/src/parser/mod.rs",
        "/lib/parser/parse.rs",
        "/bin/parser/mod.rs",
        "mod.rs",
    ]);

    assert_eq!(
        matching(&mut nfa, "src/parser/mod.rs"),
        HashSet::from([patterns[0], patterns[3]])
    );
    assert_eq!(
        matching(&mut nfa, "lib/parser/parse.rs"),
        HashSet::from([patterns[1]])
    );
    assert_eq!(
        matching(&mut nfa, "lib/parser/mod.rs"),
        HashSet::from([patterns[3]])
    );
    assert!(!nfa.is_match("lib/parser/util.rs"));
    assert_eq!(
        matching(&mut nfa, "src/lexer/mod.rs"),
        HashSet::from([patterns[3]])
    );
    assert!(!nfa.is_match("src/parser/mod.go"));
}

#[test]
fn test_prefix_matches() {
    let (mut nfa, patterns) = matcher_with(&["src", "src/parser", "src/parser/"]);

    assert_eq!(
        matching(&mut nfa, "src/parser/mod.rs"),
        HashSet::from([patterns[0], patterns[1], patterns[2]])
    );
}

#[test]
fn test_anchoring_matches() {
    let (mut nfa, patterns) = matcher_with(&["/script/foo", "script/foo"]);

    assert_eq!(
        matching(&mut nfa, "script/foo"),
        HashSet::from([patterns[0], patterns[1]])
    );
    assert_eq!(matching(&mut nfa, "bar/script/foo"), HashSet::new());
}

#[test]
fn test_wildcard_matches() {
    let (mut nfa, patterns) = matcher_with(&[
        "src/*/mod.rs",
        "src/parser/*",
        "*/*/mod.rs",
        "src/parser/*/",
    ]);

    assert_eq!(
        matching(&mut nfa, "src/parser/mod.rs"),
        HashSet::from([patterns[0], patterns[1], patterns[2]])
    );
    assert_eq!(
        matching(&mut nfa, "src/lexer/mod.rs"),
        HashSet::from([patterns[0], patterns[2]])
    );
    assert_eq!(
        matching(&mut nfa, "src/parser/parser.rs"),
        HashSet::from([patterns[1]])
    );
    assert_eq!(
        matching(&mut nfa, "test/lexer/mod.rs"),
        HashSet::from([patterns[2]])
    );
    assert_eq!(matching(&mut nfa, "parser/mod.rs"), HashSet::new());
    assert_eq!(
        matching(&mut nfa, "src/parser/subdir/thing.rs"),
        HashSet::from([patterns[3]])
    );
}

#[test]
fn nfa_test_trailing_wildcards() {
    let (mut nfa, _patterns) = matcher_with(&["/mammals/*", "/fish/*/"]);

    assert!(!nfa.is_match("mammals"));
    assert!(nfa.is_match("mammals/equus"));
    assert!(!nfa.is_match("mammals/equus/zebra"));

    assert!(!nfa.is_match("fish"));
    assert!(!nfa.is_match("fish/gaddus"));
    assert!(nfa.is_match("fish/gaddus/cod"));
}

#[test]
fn test_complex_matches() {
    let (mut nfa, patterns) = matcher_with(&["/src/parser/*.rs", "/src/p*/*.*"]);

    assert_eq!(
        matching(&mut nfa, "src/parser/mod.rs"),
        HashSet::from([patterns[0], patterns[1]])
    );
    assert_eq!(
        matching(&mut nfa, "src/p/lib.go"),
        HashSet::from([patterns[1]])
    );
    assert!(!nfa.is_match("src/parser/README"));
}

#[test]
fn test_leading_double_star_matches() {
    let (mut nfa, patterns) = matcher_with(&["/**/baz", "/**/bar/baz"]);

    assert_eq!(
        matching(&mut nfa, "x/y/baz"),
        HashSet::from([patterns[0]])
    );
    assert_eq!(
        matching(&mut nfa, "x/bar/baz"),
        HashSet::from([patterns[0], patterns[1]])
    );
    assert_eq!(matching(&mut nfa, "baz"), HashSet::from([patterns[0]]));
}

#[test]
fn test_infix_double_star_matches() {
    let (mut nfa, patterns) = matcher_with(&["/foo/**/qux", "/foo/qux"]);

    assert_eq!(
        matching(&mut nfa, "foo/qux"),
        HashSet::from([patterns[0], patterns[1]])
    );
    assert_eq!(
        matching(&mut nfa, "foo/bar/qux"),
        HashSet::from([patterns[0]])
    );
    assert_eq!(
        matching(&mut nfa, "foo/bar/baz/qux"),
        HashSet::from([patterns[0]])
    );
    assert!(!nfa.is_match("foo/bar"));
    assert!(!nfa.is_match("bar/qux"));
}

#[test]
fn test_trailing_double_star_matches() {
    let (mut nfa, patterns) = matcher_with(&["foo/**", "**"]);

    assert_eq!(matching(&mut nfa, "bar"), HashSet::from([patterns[1]]));
    assert_eq!(
        matching(&mut nfa, "x/y/baz"),
        HashSet::from([patterns[1]])
    );
    assert_eq!(
        matching(&mut nfa, "foo/bar/baz"),
        HashSet::from([patterns[0], patterns[1]])
    );
}
