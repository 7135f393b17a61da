
#[test]
fn test_literal() {
    assert!(codeowners::wildcard::matches("", ""));
    assert!(codeowners::wildcard::matches("foo", "foo"));
    assert!(!codeowners::wildcard::matches("fo", "foo"));
    assert!(!codeowners::wildcard::matches("foo", "fo"));
}

#[test]
fn test_question_mark() {
    assert!(codeowners::wildcard::matches("?", "a"));
    assert!(codeowners::wildcard::matches("f??", "foo"));
    assert!(!codeowners::wildcard::matches("b??", "foo"));
    assert!(!codeowners::wildcard::matches("?b", "foo"));
}

#[test]
fn test_star() {
    assert!(codeowners::wildcard::matches("*", ""));
    assert!(codeowners::wildcard::matches("*", "foo"));
    assert!(codeowners::wildcard::matches("f*", "foo"));
    assert!(codeowners::wildcard::matches("*o", "foo"));
    assert!(codeowners::wildcard::matches("f*o", "foo"));
    assert!(codeowners::wildcard::matches("fo*o", "foo"));
    assert!(codeowners::wildcard::matches("foo*", "foo"));
    assert!(codeowners::wildcard::matches("*foo", "foo"));
    assert!(!codeowners::wildcard::matches("b*", "foo"));
    assert!(!codeowners::wildcard::matches("*b", "a"));
    assert!(!codeowners::wildcard::matches("*b", "foo"));
}

#[test]
fn test_exponential_match() {
    let mut pat = "a*".repeat(10);
    pat.push('b');
    let cand = "a".repeat(100);
    assert!(!codeowners::wildcard::matches(&pat, &cand));
}
