use codeowners::owner::Owner;
use codeowners::owner::OwnerKind;
use codeowners::parser::ParseError;
use codeowners::parser::ParseResult;
use codeowners::parser::Rule;
use codeowners::parser::Span;
use codeowners::parser::Spanned;
use codeowners::parser::parse;

fn sp(v: &str, a: usize, b: usize) -> Spanned<String> {
    Spanned(v.to_string(), Span(a, b))
}

fn rule(pattern: Spanned<String>, owners: Vec<Spanned<Owner>>) -> Rule {
    Rule { pattern, owners, leading_comments: Vec::new(), trailing_comment: None }
}

fn perr(m: &str, a: usize, b: usize) -> ParseError {
    ParseError { message: m.to_string(), span: Span(a, b) }
}

#[test]
fn test_parser() {
    let examples = vec![
        ("foo", vec![rule(sp("foo", 0, 3), vec![])], vec![]),
        // the escape is kept in the pattern, so that the matcher sees it
        ("foo\\  ", vec![rule(sp("foo\\ ", 0, 5), vec![])], vec![]),
        (" foo ", vec![rule(sp("foo", 1, 4), vec![])], vec![]),
        (
            "foo\nbar\r\n \nbaz",
            vec![
                rule(sp("foo", 0, 3), vec![]),
                rule(sp("bar", 4, 7), vec![]),
                rule(sp("baz", 11, 14), vec![]),
            ],
            vec![],
        ),
        (
            "f\0oo",
            vec![rule(sp("f\0oo", 0, 4), vec![])],
            vec![perr("patterns cannot contain null bytes", 1, 2)],
        ),
        (
            "foo bar",
            vec![rule(sp("foo", 0, 3), vec![])],
            vec![perr("invalid owner: bar", 4, 7)],
        ),
        (
            "foo#abc",
            vec![Rule {
                pattern: sp("foo", 0, 3),
                owners: Vec::new(),
                leading_comments: Vec::new(),
                trailing_comment: Some(sp("#abc", 3, 7)),
            }],
            vec![],
        ),
        (
            "foo @bar",
            vec![rule(
                sp("foo", 0, 3),
                vec![Spanned(Owner::new("@bar".to_string(), OwnerKind::User), Span(4, 8))],
            )],
            vec![],
        ),
        (
            "a/b @c/d e@f.co",
            vec![rule(
                sp("a/b", 0, 3),
                vec![
                    Spanned(Owner::new("@c/d".to_string(), OwnerKind::Team), Span(4, 8)),
                    Spanned(Owner::new("e@f.co".to_string(), OwnerKind::Email), Span(9, 15)),
                ],
            )],
            vec![],
        ),
        (
            "\n foo @bar# baz \n",
            vec![Rule {
                pattern: sp("foo", 2, 5),
                owners: vec![Spanned(
                    Owner::new("@bar".to_string(), OwnerKind::User),
                    Span(6, 10),
                )],
                leading_comments: Vec::new(),
                trailing_comment: Some(sp("# baz ", 10, 16)),
            }],
            vec![],
        ),
        (
            "# a\nfoo # b\n# c\n# d\n\nbar\n",
            vec![
                Rule {
                    pattern: sp("foo", 4, 7),
                    owners: vec![],
                    leading_comments: vec![sp("# a", 0, 3)],
                    trailing_comment: Some(sp("# b", 8, 11)),
                },
                Rule {
                    pattern: sp("bar", 21, 24),
                    owners: vec![],
                    leading_comments: vec![sp("# c", 12, 15), sp("# d", 16, 19)],
                    trailing_comment: None,
                },
            ],
            vec![],
        ),
    ];

    for (source, rules, errors) in examples {
        assert_eq!(
            parse(source),
            ParseResult { rules, errors },
            "result mismatch for `{}`",
            source
        );
    }
}

#[test]
fn test_parser_empty_pattern_error() {
    // a lone backslash escapes nothing, so no pattern can be read
    let r = parse("\\");
    assert_eq!(r.rules, vec![]);
    assert_eq!(r.errors, vec![perr("expected pattern", 1, 1)]);
}

#[test]
fn test_parser_recovers_after_invalid_owner() {
    // an invalid owner is scoped to its token; the rule and later owners stay
    let r = parse("p q @u");
    assert_eq!(
        r.rules,
        vec![rule(
            sp("p", 0, 1),
            vec![Spanned(Owner::new("@u".to_string(), OwnerKind::User), Span(4, 6))],
        )]
    );
    assert_eq!(r.errors, vec![perr("invalid owner: q", 2, 3)]);

    // and parsing continues with the following lines
    let r = parse("p q z\nr @u");
    assert_eq!(
        r.rules,
        vec![
            rule(sp("p", 0, 1), vec![]),
            rule(
                sp("r", 6, 7),
                vec![Spanned(Owner::new("@u".to_string(), OwnerKind::User), Span(8, 10))],
            ),
        ]
    );
    assert_eq!(
        r.errors,
        vec![perr("invalid owner: q", 2, 3), perr("invalid owner: z", 4, 5)]
    );

    let r = parse("foo bar baz");
    assert_eq!(r.rules, vec![rule(sp("foo", 0, 3), vec![])]);
    assert_eq!(
        r.errors,
        vec![perr("invalid owner: bar", 4, 7), perr("invalid owner: baz", 8, 11)]
    );
}
