use codeowners::Owner;
use codeowners::OwnerKind;
use codeowners::RuleSet;
use codeowners::parse;
use codeowners::ruleset::serialize_rules;

fn owner_values(os: Option<Vec<Owner>>) -> Option<Vec<String>> {
    os.map(|v| v.into_iter().map(|o| o.value).collect())
}

fn owners_of(rs: &mut RuleSet, path: &str) -> Option<Vec<String>> {
    owner_values(rs.owners(path))
}

#[test]
fn scenario_basic_rules() {
    let mut rs = parse("*.rs @rust-team\n/docs/**/*.md @docs-team\n").into_ruleset();
    assert_eq!(owners_of(&mut rs, "src/main.rs"), Some(vec!["@rust-team".to_string()]));
    assert_eq!(
        owners_of(&mut rs, "docs/intro/guide.md"),
        Some(vec!["@docs-team".to_string()])
    );
    assert_eq!(owners_of(&mut rs, "README.md"), None);
}

#[test]
fn scenario_last_rule_wins() {
    let mut rs = parse("/script/foo @a\nscript/foo @b\n").into_ruleset();
    // both rules match and the later one wins
    assert_eq!(owners_of(&mut rs, "script/foo"), Some(vec!["@b".to_string()]));
    // a multi-segment pattern is anchored even without a leading slash
    assert_eq!(owners_of(&mut rs, "bar/script/foo"), None);
}

#[test]
fn scenario_terminal_star_not_recursive() {
    let mut rs = parse("/mammals/* @m\n/fish/*/ @f\n").into_ruleset();
    assert_eq!(owners_of(&mut rs, "mammals"), None);
    assert_eq!(owners_of(&mut rs, "mammals/equus"), Some(vec!["@m".to_string()]));
    assert_eq!(owners_of(&mut rs, "mammals/equus/zebra"), None);
    assert_eq!(owners_of(&mut rs, "fish/gaddus/cod"), Some(vec!["@f".to_string()]));
}

#[test]
fn scenario_infix_double_star() {
    let mut rs = parse("/foo/**/qux @q\n").into_ruleset();
    assert_eq!(owners_of(&mut rs, "foo/qux"), Some(vec!["@q".to_string()]));
    assert_eq!(owners_of(&mut rs, "foo/a/b/qux"), Some(vec!["@q".to_string()]));
    assert_eq!(owners_of(&mut rs, "bar/qux"), None);
}

#[test]
fn scenario_escaped_wildcards() {
    let mut rs = parse("f\\*o @u\n\\*qux user@example.com\n").into_ruleset();
    assert_eq!(owners_of(&mut rs, "f*o"), Some(vec!["@u".to_string()]));
    assert_eq!(owners_of(&mut rs, "foo"), None);
    let qux_owners = rs.owners("*qux").expect("owned");
    assert_eq!(qux_owners.len(), 1);
    assert_eq!(qux_owners[0].value, "user@example.com");
    assert_eq!(qux_owners[0].kind, OwnerKind::Email);
}

#[test]
fn scenario_invalid_owner() {
    let result = parse("foo bar");
    assert_eq!(result.rules.len(), 1);
    assert_eq!(result.rules[0].pattern.0, "foo");
    assert_eq!(result.rules[0].owners.len(), 0);
    assert_eq!(result.errors.len(), 1);
    assert_eq!(result.errors[0].message, "invalid owner: bar");
    assert_eq!(result.errors[0].span.0, 4);
    assert_eq!(result.errors[0].span.1, 7);
}

#[test]
fn trailing_slash_equals_double_star_suffix() {
    // two patterns differing only in `/` vs `/**` at the end match alike,
    // as long as the pattern is anchored (or multi-segment) and its last
    // segment is not a lone `*`
    let paths = ["foo", "foo/a", "foo/a/b", "bar/foo", "x", "a/x/b", "a/x/b/c"];
    for base in ["/foo", "/a/**/b"] {
        let mut with_slash = parse(&format!("{}/ @o\n", base)).into_ruleset();
        let mut with_stars = parse(&format!("{}/** @o\n", base)).into_ruleset();
        for p in paths {
            assert_eq!(
                owners_of(&mut with_slash, p),
                owners_of(&mut with_stars, p),
                "base {} path {}",
                base,
                p
            );
        }
    }

    // the two shapes where the equivalence breaks:
    // a terminal lone `*` suppresses the recursive epsilon of the `/` form
    let mut star_slash = parse("/fish/*/ @o\n").into_ruleset();
    let mut star_stars = parse("/fish/*/** @o\n").into_ruleset();
    assert_eq!(owners_of(&mut star_slash, "fish/x/y/z"), None);
    assert_eq!(
        owners_of(&mut star_stars, "fish/x/y/z"),
        Some(vec!["@o".to_string()])
    );
    // a single floating segment stays floating with `/` but `/**` anchors it
    let mut float_slash = parse("foo/ @o\n").into_ruleset();
    let mut float_stars = parse("foo/** @o\n").into_ruleset();
    assert_eq!(
        owners_of(&mut float_slash, "x/foo/y"),
        Some(vec!["@o".to_string()])
    );
    assert_eq!(owners_of(&mut float_stars, "x/foo/y"), None);
}

#[test]
fn star_matches_every_path() {
    let mut rs = parse("* @o\n").into_ruleset();
    for p in ["a", "a/b", "a/b/c", "x.rs", "deep/ly/nest/ed/path"] {
        assert_eq!(owners_of(&mut rs, p), Some(vec!["@o".to_string()]), "path {}", p);
    }
}

#[test]
fn double_star_matches_every_path() {
    let mut rs = parse("** @o\n").into_ruleset();
    for p in ["a", "a/b", "a/b/c", "x.rs"] {
        assert_eq!(owners_of(&mut rs, p), Some(vec!["@o".to_string()]), "path {}", p);
    }
}

#[test]
fn empty_path_matches_nothing() {
    let mut rs = parse("* @o\n** @t\nfoo @u\n").into_ruleset();
    assert_eq!(owners_of(&mut rs, ""), None);
}

#[test]
fn unowned_rule_yields_none() {
    // the later rule matches and has no owners: explicitly unowned, and the
    // earlier rule must not be promoted
    let mut rs = parse("foo @a\nfoo\n").into_ruleset();
    assert_eq!(owners_of(&mut rs, "foo"), None);
    let winning = rs.matching_rule("foo").expect("a rule matches");
    assert_eq!(winning.pattern, "foo");
    assert_eq!(winning.owners.len(), 0);
}

#[test]
fn all_matching_rules_reports_every_match_once() {
    let mut rs = parse("* @a\nfoo @b\nbar @c\n").into_ruleset();
    let mut matched: Vec<usize> = rs.all_matching_rules("foo").into_iter().map(|(i, _)| i).collect();
    matched.sort();
    // each matching id appears exactly once
    assert_eq!(matched, vec![0, 1]);
}

#[test]
fn serialize_round_trip() {
    let source = "*.rs @rust-team\n/docs/**/*.md @docs-team user@example.com\nf\\*o @u\nplain\n";
    let first = parse(source).into_ruleset();
    let text = serialize_rules(&first.rules);
    let second = parse(&text).into_ruleset();
    assert_eq!(first.rules, second.rules);
    // serializing again yields the same text
    assert_eq!(serialize_rules(&second.rules), text);
}

#[test]
fn owner_classification() {
    let user = Owner::try_from("@alice".to_string()).expect("user");
    assert_eq!(user.kind, OwnerKind::User);
    let team = Owner::try_from("@org/team-a".to_string()).expect("team");
    assert_eq!(team.kind, OwnerKind::Team);
    let email = Owner::try_from("a.b'c%d+e@some-host.example.org".to_string()).expect("email");
    assert_eq!(email.kind, OwnerKind::Email);

    assert!(Owner::try_from("bare".to_string()).is_err());
    assert!(Owner::try_from("@".to_string()).is_err());
    assert!(Owner::try_from("@org/".to_string()).is_err());
    assert!(Owner::try_from("user@host".to_string()).is_err());
    assert!(Owner::try_from("user@host.toolongtld".to_string()).is_err());
    let e = Owner::try_from("a b".to_string()).unwrap_err();
    assert_eq!(e.message(), "invalid owner: a b");
}
