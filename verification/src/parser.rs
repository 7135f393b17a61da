//! Parsing the CODEOWNERS text format.
//!
//! Line-oriented: a line holds a pattern and whitespace-separated owners,
//! `#` starts a comment, and a backslash inside a pattern escapes the next
//! character (keeping both, so the pattern string carries its escapes into
//! the automaton). Parsing recovers from local errors — an invalid owner or
//! a NUL byte is recorded and parsing goes on — and stops only where a rule
//! was expected but no pattern could be read. Spans are byte offsets.
//!
//! `spec_parse` is the mathematical mirror of the parser; `parse` is proved
//! to return exactly its result.

use vstd::prelude::*;

use crate::owner::Owner;
use crate::owner::OwnerKind;
use crate::owner::classify_owner;
use crate::ruleset;
use crate::ruleset::RuleSet;
use crate::ruleset::owner_views;
use crate::util::byte_len;
use crate::util::chars_of;
use crate::util::lemma_byte_len_mono;
use crate::util::str_byte_len;
use crate::util::string_of;
use crate::util::utf8_len;
use crate::util::utf8_len_exec;

verus! {

/// A span of text: start and end byte offsets into the source.
#[derive(Debug, Clone, Copy, PartialEq, Eq, Structural)]
pub struct Span(pub usize, pub usize);

/// A value with the span it was read from.
#[derive(Debug, Clone, PartialEq, Eq)]
pub struct Spanned<T>(pub T, pub Span);

/// An error met while parsing, with its location.
#[derive(Debug, Clone, PartialEq, Eq)]
pub struct ParseError {
    pub message: String,
    pub span: Span,
}

/// A parsed rule: pattern, owners, and the comments around it.
#[derive(Debug, Clone, PartialEq, Eq)]
pub struct Rule {
    pub pattern: Spanned<String>,
    pub owners: Vec<Spanned<Owner>>,
    pub leading_comments: Vec<Spanned<String>>,
    pub trailing_comment: Option<Spanned<String>>,
}

/// What parsing produced: the rules, and the errors met on the way. With a
/// nonempty error list the rules may be incomplete.
#[derive(Debug, Clone, PartialEq, Eq)]
pub struct ParseResult {
    pub rules: Vec<Rule>,
    pub errors: Vec<ParseError>,
}

// ---- the mathematical mirror ----

/// Model of an error: message text and byte span.
#[verifier::ext_equal]
pub ghost struct GErr {
    pub msg: Seq<char>,
    pub lo: int,
    pub hi: int,
}

/// Model of a spanned string.
#[verifier::ext_equal]
pub ghost struct GStr {
    pub val: Seq<char>,
    pub lo: int,
    pub hi: int,
}

/// Model of a spanned owner.
#[verifier::ext_equal]
pub ghost struct GOwn {
    pub val: Seq<char>,
    pub kind: OwnerKind,
    pub lo: int,
    pub hi: int,
}

/// Model of a parsed rule.
#[verifier::ext_equal]
pub ghost struct GRule {
    pub pattern: GStr,
    pub owners: Seq<GOwn>,
    pub leading: Seq<GStr>,
    pub trailing: Option<GStr>,
}

/// Model of a parse result.
#[verifier::ext_equal]
pub ghost struct GResult {
    pub rules: Seq<GRule>,
    pub errors: Seq<GErr>,
}

pub open spec fn is_ws(c: char) -> bool {
    c == ' ' || c == '\t'
}

pub open spec fn is_nl(c: char) -> bool {
    c == '\r' || c == '\n'
}

/// A pattern or owner token ends at whitespace, a comment, or a line end.
pub open spec fn is_break(c: char) -> bool {
    is_ws(c) || c == '#' || is_nl(c)
}

/// First position at or after `i` that is not a space or tab.
pub open spec fn spec_skip_ws(src: Seq<char>, i: int) -> int
    decreases src.len() - i,
{
    if i < 0 || i >= src.len() {
        i
    } else if is_ws(src[i]) {
        spec_skip_ws(src, i + 1)
    } else {
        i
    }
}

/// End of a comment starting at or after `i`: the next line end, or the end
/// of the source.
pub open spec fn spec_comment_end(src: Seq<char>, i: int) -> int
    decreases src.len() - i,
{
    if i < 0 || i >= src.len() {
        i
    } else if is_nl(src[i]) {
        i
    } else {
        spec_comment_end(src, i + 1)
    }
}

/// End of an owner token starting at `i`.
pub open spec fn spec_token_end(src: Seq<char>, i: int) -> int
    decreases src.len() - i,
{
    if i < 0 || i >= src.len() {
        i
    } else if is_break(src[i]) {
        i
    } else {
        spec_token_end(src, i + 1)
    }
}

/// Scanning a pattern from `i`: the pattern text (escapes kept), the spans
/// of NUL bytes met, and the end position. A backslash escapes the next
/// character; a lone trailing backslash is dropped.
pub open spec fn spec_pattern(src: Seq<char>, i: int, escaped: bool) -> (Seq<char>, Seq<GErr>, int)
    decreases src.len() - i,
{
    if i < 0 || i >= src.len() {
        (Seq::empty(), Seq::empty(), i)
    } else {
        let c = src[i];
        if c == '\\' && !escaped {
            spec_pattern(src, i + 1, true)
        } else if !escaped && is_break(c) {
            (Seq::empty(), Seq::empty(), i)
        } else {
            let rest = spec_pattern(src, i + 1, false);
            let head: Seq<char> = if escaped {
                seq!['\\', c]
            } else {
                seq![c]
            };
            let errs: Seq<GErr> = if c == '\0' {
                seq![
                    GErr {
                        msg: "patterns cannot contain null bytes"@,
                        lo: byte_len(src, i),
                        hi: byte_len(src, i + 1),
                    },
                ] + rest.1
            } else {
                rest.1
            };
            (head + rest.0, errs, rest.2)
        }
    }
}

/// Scanning owners from `i`: skip whitespace, read a token, classify it.
/// An empty token ends the list; an invalid one records an error scoped to
/// that token and scanning continues, so later valid owners are kept.
/// Yields the owners, the errors, and the end position.
pub open spec fn spec_owners(src: Seq<char>, i: int) -> (Seq<GOwn>, Seq<GErr>, int)
    decreases src.len() - i,
    via spec_owners_decreases
{
    let j = spec_skip_ws(src, i);
    let e = spec_token_end(src, j);
    if e <= j {
        (Seq::empty(), Seq::empty(), j)
    } else {
        let tok = src.subrange(j, e);
        match classify_owner(tok) {
            Some(kind) => {
                let rest = spec_owners(src, e);
                let own = GOwn { val: tok, kind, lo: byte_len(src, j), hi: byte_len(src, e) };
                (seq![own] + rest.0, rest.1, rest.2)
            },
            None => {
                let rest = spec_owners(src, e);
                let err = GErr {
                    msg: "invalid owner: "@ + tok,
                    lo: byte_len(src, j),
                    hi: byte_len(src, e),
                };
                (rest.0, seq![err] + rest.1, rest.2)
            },
        }
    }
}

#[via_fn]
proof fn spec_owners_decreases(src: Seq<char>, i: int) {
    lemma_skip_ws_bounds(src, i);
    lemma_token_end_bounds(src, spec_skip_ws(src, i));
}

pub proof fn lemma_skip_ws_bounds(src: Seq<char>, i: int)
    ensures
        spec_skip_ws(src, i) >= i,
        i <= src.len() ==> spec_skip_ws(src, i) <= src.len(),
        0 <= spec_skip_ws(src, i) < src.len() ==> !is_ws(src[spec_skip_ws(src, i)]),
    decreases src.len() - i,
{
    if 0 <= i < src.len() && is_ws(src[i]) {
        lemma_skip_ws_bounds(src, i + 1);
    }
}

pub proof fn lemma_comment_end_bounds(src: Seq<char>, i: int)
    ensures
        spec_comment_end(src, i) >= i,
        i <= src.len() ==> spec_comment_end(src, i) <= src.len(),
    decreases src.len() - i,
{
    if 0 <= i < src.len() && !is_nl(src[i]) {
        lemma_comment_end_bounds(src, i + 1);
    }
}

pub proof fn lemma_token_end_bounds(src: Seq<char>, i: int)
    ensures
        spec_token_end(src, i) >= i,
        i <= src.len() ==> spec_token_end(src, i) <= src.len(),
    decreases src.len() - i,
{
    if 0 <= i < src.len() && !is_break(src[i]) {
        lemma_token_end_bounds(src, i + 1);
    }
}

pub proof fn lemma_pattern_bounds(src: Seq<char>, i: int, escaped: bool)
    ensures
        spec_pattern(src, i, escaped).2 >= i,
        i <= src.len() ==> spec_pattern(src, i, escaped).2 <= src.len(),
    decreases src.len() - i,
{
    if 0 <= i < src.len() {
        let c = src[i];
        if c == '\\' && !escaped {
            lemma_pattern_bounds(src, i + 1, true);
        } else if !escaped && is_break(c) {
        } else {
            lemma_pattern_bounds(src, i + 1, false);
        }
    }
}

/// The result of scanning one rule starting at `i` (where a pattern is
/// expected): the rule with the errors met and the end position, or the
/// fatal error that aborts parsing. Only a missing pattern is fatal: a
/// stray character before the line end is recorded and the rest of the
/// line skipped, keeping the rule with the owners read so far.
pub open spec fn spec_rule(src: Seq<char>, i: int) -> Result<
    (GRule, Seq<GErr>, int),
    (Seq<GErr>, GErr),
> {
    let p = spec_pattern(src, i, false);
    if p.0.len() == 0 {
        Err(
            (
                p.1,
                GErr {
                    msg: "expected pattern"@,
                    lo: byte_len(src, p.2),
                    hi: byte_len(src, p.2),
                },
            ),
        )
    } else {
        let pat = GStr { val: p.0, lo: byte_len(src, i), hi: byte_len(src, p.2) };
        let ow = spec_owners(src, p.2);
        let after = ow.2;
        if after >= src.len() || is_nl(src[after]) {
            let rule = GRule { pattern: pat, owners: ow.0, leading: Seq::empty(), trailing: None };
            Ok((rule, p.1 + ow.1, after))
        } else if src[after] == '#' {
            let ce = spec_comment_end(src, after);
            let tc = GStr {
                val: src.subrange(after, ce),
                lo: byte_len(src, after),
                hi: byte_len(src, ce),
            };
            let rule = GRule {
                pattern: pat,
                owners: ow.0,
                leading: Seq::empty(),
                trailing: Some(tc),
            };
            Ok((rule, p.1 + ow.1, ce))
        } else {
            // cannot arise while the owner scan consumes every token, but
            // the recovery is what holds of it: record, skip the line, keep
            // the rule
            let ce = spec_comment_end(src, after);
            let err = GErr {
                msg: "expected newline"@,
                lo: byte_len(src, after),
                hi: byte_len(src, after),
            };
            let rule = GRule { pattern: pat, owners: ow.0, leading: Seq::empty(), trailing: None };
            Ok((rule, p.1 + ow.1 + seq![err], ce))
        }
    }
}

/// The main parsing loop, with its accumulators: pending leading comments,
/// the rules and errors so far.
pub open spec fn spec_parse_loop(
    src: Seq<char>,
    i: int,
    leading: Seq<GStr>,
    rules: Seq<GRule>,
    errors: Seq<GErr>,
) -> GResult
    decreases src.len() - i,
    via spec_parse_loop_decreases
{
    if i < 0 || i >= src.len() {
        GResult { rules, errors }
    } else if is_nl(src[i]) {
        spec_parse_loop(src, spec_skip_ws(src, i + 1), leading, rules, errors)
    } else if src[i] == '#' {
        let ce = spec_comment_end(src, i);
        let c = GStr { val: src.subrange(i, ce), lo: byte_len(src, i), hi: byte_len(src, ce) };
        spec_parse_loop(src, spec_skip_ws(src, ce), leading.push(c), rules, errors)
    } else {
        match spec_rule(src, i) {
            Ok((rule, errs, end)) => {
                let withlead = GRule { leading, ..rule };
                spec_parse_loop(
                    src,
                    spec_skip_ws(src, end),
                    Seq::empty(),
                    rules.push(withlead),
                    errors + errs,
                )
            },
            Err(e) => GResult { rules, errors: (errors + e.0).push(e.1) },
        }
    }
}

#[via_fn]
proof fn spec_parse_loop_decreases(
    src: Seq<char>,
    i: int,
    leading: Seq<GStr>,
    rules: Seq<GRule>,
    errors: Seq<GErr>,
) {
    if 0 <= i < src.len() {
        lemma_skip_ws_bounds(src, i + 1);
        lemma_comment_end_bounds(src, i);
        if !is_nl(src[i]) && src[i] != '#' {
            lemma_comment_end_bounds(src, i + 1);
            lemma_skip_ws_bounds(src, spec_comment_end(src, i));
            lemma_rule_advances(src, i);
            match spec_rule(src, i) {
                Ok((rule, errs, end)) => {
                    lemma_skip_ws_bounds(src, end);
                },
                Err(e) => {},
            }
        } else if src[i] == '#' {
            assert(spec_comment_end(src, i) >= i + 1) by {
                lemma_comment_end_bounds(src, i + 1);
            }
            lemma_skip_ws_bounds(src, spec_comment_end(src, i));
        }
    }
}

/// A successfully scanned rule ends strictly after where it began.
pub proof fn lemma_rule_advances(src: Seq<char>, i: int)
    requires
        0 <= i <= src.len(),
    ensures
        (match spec_rule(src, i) {
            Ok(r) => i < r.2 <= src.len(),
            Err(e) => true,
        }),
{
    let p = spec_pattern(src, i, false);
    lemma_pattern_bounds(src, i, false);
    if p.0.len() > 0 {
        lemma_pattern_advances(src, i, false);
        let ow = spec_owners(src, p.2);
        lemma_owners_bounds(src, p.2);
        let after = ow.2;
        if after < src.len() && !is_nl(src[after]) {
            lemma_comment_end_bounds(src, after);
        }
    }
}

/// A nonempty pattern consumes at least one character.
pub proof fn lemma_pattern_advances(src: Seq<char>, i: int, escaped: bool)
    requires
        spec_pattern(src, i, escaped).0.len() > 0,
    ensures
        spec_pattern(src, i, escaped).2 > i,
    decreases src.len() - i,
{
    if 0 <= i < src.len() {
        let c = src[i];
        if c == '\\' && !escaped {
            lemma_pattern_advances(src, i + 1, true);
        } else if !escaped && is_break(c) {
        } else {
            lemma_pattern_bounds(src, i + 1, false);
        }
    }
}

pub proof fn lemma_owners_bounds(src: Seq<char>, i: int)
    requires
        0 <= i <= src.len(),
    ensures
        spec_owners(src, i).2 >= i,
        spec_owners(src, i).2 <= src.len(),
    decreases src.len() - i,
{
    let j = spec_skip_ws(src, i);
    lemma_skip_ws_bounds(src, i);
    let e = spec_token_end(src, j);
    lemma_token_end_bounds(src, j);
    if e > j {
        lemma_owners_bounds(src, e);
    }
}

/// What parsing a whole source yields.
pub open spec fn spec_parse(src: Seq<char>) -> GResult {
    spec_parse_loop(src, spec_skip_ws(src, 0), Seq::empty(), Seq::empty(), Seq::empty())
}

/// An empty pattern is no rule: exactly where the pattern production
/// consumes no characters, scanning a rule fails, with an "expected
/// pattern" error at that position, and no rule is produced there.
pub proof fn law_empty_pattern_rejected(src: Seq<char>, i: int)
    ensures
        spec_rule(src, i) is Err <==> spec_pattern(src, i, false).0.len() == 0,
        spec_rule(src, i) is Err ==> (spec_rule(src, i)->Err_0).1 == (GErr {
            msg: "expected pattern"@,
            lo: byte_len(src, spec_pattern(src, i, false).2),
            hi: byte_len(src, spec_pattern(src, i, false).2),
        }),
{
}

/// Appending one scanned rule keeps the accumulated spans within bounds,
/// ordered and nonempty.
proof fn lemma_spans_accum(
    src: Seq<char>,
    i: int,
    p2: int,
    i2: int,
    rules: Seq<GRule>,
    withlead: GRule,
)
    requires
        0 <= i < p2 <= i2,
        withlead.pattern.lo == byte_len(src, i),
        withlead.pattern.hi == byte_len(src, p2),
        forall|z: int|
            0 <= z < rules.len() ==> 0 <= (#[trigger] rules[z]).pattern.lo
                <= rules[z].pattern.hi <= byte_len(src, i),
        forall|z: int|
            0 <= z && z + 1 < rules.len() ==> (#[trigger] rules[z]).pattern.hi <= rules[z
                + 1].pattern.lo,
        forall|z: int|
            0 <= z < rules.len() ==> (#[trigger] rules[z]).pattern.lo < rules[z].pattern.hi,
    ensures
        forall|z: int|
            0 <= z < rules.push(withlead).len() ==> 0 <= (
            #[trigger] rules.push(withlead)[z]).pattern.lo <= rules.push(withlead)[z].pattern.hi
                <= byte_len(src, i2),
        forall|z: int|
            0 <= z && z + 1 < rules.push(withlead).len() ==> (
            #[trigger] rules.push(withlead)[z]).pattern.hi <= rules.push(withlead)[z
                + 1].pattern.lo,
        forall|z: int|
            0 <= z < rules.push(withlead).len() ==> (
            #[trigger] rules.push(withlead)[z]).pattern.lo < rules.push(withlead)[z].pattern.hi,
{
    lemma_byte_len_mono(src, 0, i);
    lemma_byte_len_mono(src, i + 1, p2);
    lemma_byte_len_mono(src, p2, i2);
    assert(byte_len(src, i + 1) == byte_len(src, i) + utf8_len(src[i]));
    let rules2 = rules.push(withlead);
    assert forall|z: int|
        0 <= z < rules2.len() implies 0 <= (#[trigger] rules2[z]).pattern.lo
        <= rules2[z].pattern.hi <= byte_len(src, i2) by {
        if z < rules.len() {
            assert(rules2[z] == rules[z]);
            lemma_byte_len_mono(src, i, i2);
        }
    }
    assert forall|z: int|
        0 <= z && z + 1 < rules2.len() implies (#[trigger] rules2[z]).pattern.hi <= rules2[z
        + 1].pattern.lo by {
        if z + 1 < rules.len() {
            assert(rules2[z] == rules[z]);
            assert(rules2[z + 1] == rules[z + 1]);
        } else {
            assert(rules2[z] == rules[z]);
        }
    }
    assert forall|z: int|
        0 <= z < rules2.len() implies (#[trigger] rules2[z]).pattern.lo
        < rules2[z].pattern.hi by {
        if z < rules.len() {
            assert(rules2[z] == rules[z]);
        }
    }
}

/// Rules accumulate in source order: every pattern span lies at or after
/// the bytes already consumed, within the source, and spans do not
/// overlap.
#[verifier::rlimit(60)]
proof fn lemma_parse_loop_spans(
    src: Seq<char>,
    i: int,
    leading: Seq<GStr>,
    rules: Seq<GRule>,
    errors: Seq<GErr>,
)
    requires
        0 <= i <= src.len(),
        forall|z: int|
            0 <= z < rules.len() ==> 0 <= (#[trigger] rules[z]).pattern.lo
                <= rules[z].pattern.hi <= byte_len(src, i),
        forall|z: int|
            0 <= z && z + 1 < rules.len() ==> (#[trigger] rules[z]).pattern.hi <= rules[z
                + 1].pattern.lo,
        forall|z: int|
            0 <= z < rules.len() ==> (#[trigger] rules[z]).pattern.lo < rules[z].pattern.hi,
    ensures
        ({
            let r = spec_parse_loop(src, i, leading, rules, errors).rules;
            &&& forall|z: int|
                0 <= z < r.len() ==> 0 <= (#[trigger] r[z]).pattern.lo <= r[z].pattern.hi
                    <= byte_len(src, src.len() as int)
            &&& forall|z: int|
                0 <= z && z + 1 < r.len() ==> (#[trigger] r[z]).pattern.hi <= r[z + 1].pattern.lo
            &&& forall|z: int| 0 <= z < r.len() ==> (#[trigger] r[z]).pattern.lo < r[z].pattern.hi
        }),
    decreases src.len() - i,
{
    if i >= src.len() {
        lemma_byte_len_mono(src, i, src.len() as int);
    } else if is_nl(src[i]) {
        let i2 = spec_skip_ws(src, i + 1);
        lemma_skip_ws_bounds(src, i + 1);
        lemma_byte_len_mono(src, i, i2);
        lemma_parse_loop_spans(src, i2, leading, rules, errors);
    } else if src[i] == '#' {
        let ce = spec_comment_end(src, i);
        lemma_comment_end_bounds(src, i);
        lemma_comment_end_bounds(src, i + 1);
        let c = GStr { val: src.subrange(i, ce), lo: byte_len(src, i), hi: byte_len(src, ce) };
        let i2 = spec_skip_ws(src, ce);
        lemma_skip_ws_bounds(src, ce);
        lemma_byte_len_mono(src, i, i2);
        lemma_parse_loop_spans(src, i2, leading.push(c), rules, errors);
    } else {
        match spec_rule(src, i) {
            Ok((rule, errs, end)) => {
                lemma_rule_advances(src, i);
                let p = spec_pattern(src, i, false);
                lemma_pattern_bounds(src, i, false);
                lemma_pattern_advances(src, i, false);
                lemma_owners_bounds(src, p.2);
                let ow = spec_owners(src, p.2);
                lemma_comment_end_bounds(src, ow.2);
                let i2 = spec_skip_ws(src, end);
                lemma_skip_ws_bounds(src, end);
                let withlead = GRule { leading, ..rule };
                assert(withlead.pattern.lo == byte_len(src, i));
                assert(withlead.pattern.hi == byte_len(src, p.2));
                lemma_spans_accum(src, i, p.2, i2, rules, withlead);
                lemma_parse_loop_spans(src, i2, Seq::empty(), rules.push(withlead), errors + errs);
            },
            Err(e) => {
                lemma_byte_len_mono(src, i, src.len() as int);
            },
        }
    }
}

/// Rules come out in source order: each pattern span is a nonempty byte
/// range of the source, and the spans are increasing and do not overlap.
/// `parse` returns exactly these rules, so the law carries over to the
/// spans of its result.
pub proof fn law_rule_spans_ordered(src: Seq<char>)
    ensures
        forall|z: int|
            0 <= z < spec_parse(src).rules.len() ==> 0 <= (
            #[trigger] spec_parse(src).rules[z]).pattern.lo
                < spec_parse(src).rules[z].pattern.hi <= byte_len(src, src.len() as int),
        forall|z: int|
            0 <= z && z + 1 < spec_parse(src).rules.len() ==> (
            #[trigger] spec_parse(src).rules[z]).pattern.hi <= spec_parse(src).rules[z
                + 1].pattern.lo,
{
    lemma_skip_ws_bounds(src, 0);
    lemma_parse_loop_spans(
        src,
        spec_skip_ws(src, 0),
        Seq::empty(),
        Seq::empty(),
        Seq::empty(),
    );
}

// ---- relating the executable types to the mirror ----

pub open spec fn abs_err(e: ParseError) -> GErr {
    GErr { msg: e.message@, lo: e.span.0 as int, hi: e.span.1 as int }
}

pub open spec fn abs_errs(v: Seq<ParseError>) -> Seq<GErr> {
    Seq::new(v.len(), |i: int| abs_err(v[i]))
}

pub open spec fn abs_str(s: Spanned<String>) -> GStr {
    GStr { val: s.0@, lo: s.1.0 as int, hi: s.1.1 as int }
}

pub open spec fn abs_strs(v: Seq<Spanned<String>>) -> Seq<GStr> {
    Seq::new(v.len(), |i: int| abs_str(v[i]))
}

pub open spec fn abs_own(o: Spanned<Owner>) -> GOwn {
    GOwn { val: o.0.value@, kind: o.0.kind, lo: o.1.0 as int, hi: o.1.1 as int }
}

pub open spec fn abs_owns(v: Seq<Spanned<Owner>>) -> Seq<GOwn> {
    Seq::new(v.len(), |i: int| abs_own(v[i]))
}

pub open spec fn abs_rule(r: Rule) -> GRule {
    GRule {
        pattern: abs_str(r.pattern),
        owners: abs_owns(r.owners@),
        leading: abs_strs(r.leading_comments@),
        trailing: (match r.trailing_comment {
            Some(t) => Some(abs_str(t)),
            None => None,
        }),
    }
}

pub open spec fn abs_rules(v: Seq<Rule>) -> Seq<GRule> {
    Seq::new(v.len(), |i: int| abs_rule(v[i]))
}

pub open spec fn abs_result(r: ParseResult) -> GResult {
    GResult { rules: abs_rules(r.rules@), errors: abs_errs(r.errors@) }
}

pub proof fn lemma_abs_errs_push(v: Seq<ParseError>, e: ParseError)
    ensures
        abs_errs(v.push(e)) == abs_errs(v).push(abs_err(e)),
{
    assert(abs_errs(v.push(e)) =~~= abs_errs(v).push(abs_err(e)));
}

pub proof fn lemma_abs_owns_push(v: Seq<Spanned<Owner>>, o: Spanned<Owner>)
    ensures
        abs_owns(v.push(o)) == abs_owns(v).push(abs_own(o)),
{
    assert(abs_owns(v.push(o)) =~~= abs_owns(v).push(abs_own(o)));
}

pub proof fn lemma_abs_strs_push(v: Seq<Spanned<String>>, o: Spanned<String>)
    ensures
        abs_strs(v.push(o)) == abs_strs(v).push(abs_str(o)),
{
    assert(abs_strs(v.push(o)) =~~= abs_strs(v).push(abs_str(o)));
}

pub proof fn lemma_abs_rules_push(v: Seq<Rule>, o: Rule)
    ensures
        abs_rules(v.push(o)) == abs_rules(v).push(abs_rule(o)),
{
    assert(abs_rules(v.push(o)) =~~= abs_rules(v).push(abs_rule(o)));
}

/// Appending one character extends a scanned range by one.
pub proof fn lemma_subrange_snoc(src: Seq<char>, a: int, b: int)
    requires
        0 <= a <= b < src.len(),
    ensures
        src.subrange(a, b + 1) == src.subrange(a, b).push(src[b]),
{
    assert(src.subrange(a, b + 1) =~= src.subrange(a, b).push(src[b]));
}

impl ParseResult {
    /// Compile the parsed rules, dropping spans and comments; errors are
    /// ignored here.
    pub fn into_ruleset(self) -> (r: RuleSet)
        ensures
            r.wf(),
            r.rules@.len() == self.rules@.len(),
            forall|i: int|
                0 <= i < self.rules@.len() ==> (#[trigger] r.rules@[i])@.pattern
                    == self.rules@[i].pattern.0@ && r.rules@[i]@.owners == abs_owner_values(
                    self.rules@[i].owners@,
                ),
    {
        let mut rules: Vec<ruleset::Rule> = Vec::new();
        let mut i: usize = 0;
        while i < self.rules.len()
            invariant
                i <= self.rules@.len(),
                rules@.len() == i,
                forall|t: int|
                    0 <= t < i ==> (#[trigger] rules@[t])@.pattern == self.rules@[t].pattern.0@
                        && rules@[t]@.owners == abs_owner_values(self.rules@[t].owners@),
            decreases self.rules@.len() - i,
        {
            let pr = &self.rules[i];
            let pattern = crate::owner::clone_string(&pr.pattern.0);
            let mut owners: Vec<Owner> = Vec::new();
            let mut k: usize = 0;
            while k < pr.owners.len()
                invariant
                    k <= pr.owners@.len(),
                    owners@.len() == k,
                    forall|t: int| 0 <= t < k ==> owners@[t]@ == (#[trigger] pr.owners@[t]).0@,
                decreases pr.owners@.len() - k,
            {
                owners.push(pr.owners[k].0.duplicate());
                k = k + 1;
            }
            let rr = ruleset::Rule { pattern, owners };
            proof {
                assert(owner_views(rr.owners@) =~~= abs_owner_values(pr.owners@));
            }
            rules.push(rr);
            i = i + 1;
        }
        RuleSet::new(rules)
    }
}

/// The owner views of a spanned owner list, spans dropped.
pub open spec fn abs_owner_values(v: Seq<Spanned<Owner>>) -> Seq<crate::owner::OwnerView> {
    Seq::new(v.len(), |i: int| v[i].0@)
}

// ---- the executable parser ----

/// Parser state: the source as characters, the position in characters and
/// in bytes, and the errors met so far.
struct Parser {
    src: Vec<char>,
    /// Byte length of the whole source.
    total: usize,
    pos: usize,
    bpos: usize,
    errors: Vec<ParseError>,
}

impl Parser {
    spec fn wf(&self) -> bool {
        &&& self.pos <= self.src@.len()
        &&& self.bpos == byte_len(self.src@, self.pos as int)
        &&& self.total == byte_len(self.src@, self.src@.len() as int)
    }

    /// Step past the current character, keeping the byte position in step.
    fn advance(&mut self)
        requires
            old(self).wf(),
            old(self).pos < old(self).src@.len(),
        ensures
            final(self).wf(),
            final(self).pos == old(self).pos + 1,
            final(self).src == old(self).src,
            final(self).total == old(self).total,
            final(self).errors == old(self).errors,
    {
        let n = self.src.len();
        let c = self.src[self.pos];
        let w = utf8_len_exec(c);
        proof {
            lemma_byte_len_mono(self.src@, self.pos + 1, self.src@.len() as int);
        }
        self.bpos = self.bpos + w;
        self.pos = self.pos + 1;
    }

    /// Skip spaces and tabs.
    fn skip_ws(&mut self)
        requires
            old(self).wf(),
        ensures
            final(self).wf(),
            final(self).pos == spec_skip_ws(old(self).src@, old(self).pos as int),
            final(self).src == old(self).src,
            final(self).total == old(self).total,
            final(self).errors == old(self).errors,
    {
        loop
            invariant
                self.wf(),
                self.src == old(self).src,
                self.total == old(self).total,
                self.errors == old(self).errors,
                self.pos >= old(self).pos,
                spec_skip_ws(self.src@, self.pos as int) == spec_skip_ws(
                    old(self).src@,
                    old(self).pos as int,
                ),
            ensures
                self.wf(),
                self.src == old(self).src,
                self.total == old(self).total,
                self.errors == old(self).errors,
                self.pos == spec_skip_ws(old(self).src@, old(self).pos as int),
            decreases self.src@.len() - self.pos,
        {
            if self.pos >= self.src.len() {
                break;
            }
            let c = self.src[self.pos];
            if c != ' ' && c != '\t' {
                break;
            }
            self.advance();
        }
    }

    /// Read a comment: from the current position to the end of the line.
    fn parse_comment(&mut self) -> (r: Spanned<String>)
        requires
            old(self).wf(),
        ensures
            final(self).wf(),
            final(self).pos == spec_comment_end(old(self).src@, old(self).pos as int),
            final(self).src == old(self).src,
            final(self).total == old(self).total,
            final(self).errors == old(self).errors,
            abs_str(r) == (GStr {
                val: old(self).src@.subrange(old(self).pos as int, final(self).pos as int),
                lo: byte_len(old(self).src@, old(self).pos as int),
                hi: byte_len(old(self).src@, final(self).pos as int),
            }),
    {
        let start_b = self.bpos;
        let ghost p0 = self.pos as int;
        let mut content: Vec<char> = Vec::new();
        proof {
            assert(content@ =~= self.src@.subrange(p0, p0));
        }
        loop
            invariant
                self.wf(),
                self.src == old(self).src,
                self.total == old(self).total,
                self.errors == old(self).errors,
                0 <= p0 <= self.pos as int,
                content@ == self.src@.subrange(p0, self.pos as int),
                spec_comment_end(self.src@, self.pos as int) == spec_comment_end(self.src@, p0),
            ensures
                self.wf(),
                self.src == old(self).src,
                self.total == old(self).total,
                self.errors == old(self).errors,
                self.pos == spec_comment_end(self.src@, p0),
                content@ == self.src@.subrange(p0, self.pos as int),
            decreases self.src@.len() - self.pos,
        {
            if self.pos >= self.src.len() {
                break;
            }
            let c = self.src[self.pos];
            if c == '\r' || c == '\n' {
                break;
            }
            let ghost prevpos = self.pos as int;
            content.push(c);
            self.advance();
            proof {
                lemma_subrange_snoc(self.src@, p0, prevpos);
            }
        }
        Spanned(string_of(&content), Span(start_b, self.bpos))
    }

    /// Read a pattern: characters up to an unescaped break, escapes kept.
    fn parse_pattern(&mut self) -> (r: Spanned<String>)
        requires
            old(self).wf(),
        ensures
            final(self).wf(),
            final(self).src == old(self).src,
            final(self).total == old(self).total,
            final(self).pos as int == spec_pattern(old(self).src@, old(self).pos as int, false).2,
            abs_str(r) == (GStr {
                val: spec_pattern(old(self).src@, old(self).pos as int, false).0,
                lo: byte_len(old(self).src@, old(self).pos as int),
                hi: byte_len(old(self).src@, final(self).pos as int),
            }),
            abs_errs(final(self).errors@) == abs_errs(old(self).errors@) + spec_pattern(
                old(self).src@,
                old(self).pos as int,
                false,
            ).1,
    {
        let start_b = self.bpos;
        let ghost p0 = self.pos as int;
        let ghost full = spec_pattern(self.src@, p0, false);
        let mut content: Vec<char> = Vec::new();
        let mut escaped = false;
        let ghost mut added: Seq<GErr> = Seq::empty();
        proof {
            assert(abs_errs(self.errors@) =~~= abs_errs(old(self).errors@) + added);
        }
        loop
            invariant
                self.wf(),
                self.src == old(self).src,
                self.total == old(self).total,
                0 <= p0 <= self.pos as int,
                full == spec_pattern(self.src@, p0, false),
                full.0 == content@ + spec_pattern(self.src@, self.pos as int, escaped).0,
                full.1 == added + spec_pattern(self.src@, self.pos as int, escaped).1,
                full.2 == spec_pattern(self.src@, self.pos as int, escaped).2,
                abs_errs(self.errors@) == abs_errs(old(self).errors@) + added,
            ensures
                self.wf(),
                self.src == old(self).src,
                self.total == old(self).total,
                self.pos as int == full.2,
                content@ == full.0,
                abs_errs(self.errors@) == abs_errs(old(self).errors@) + full.1,
            decreases self.src@.len() - self.pos,
        {
            if self.pos >= self.src.len() {
                proof {
                    assert(content@ =~= full.0);
                }
                break;
            }
            let c = self.src[self.pos];
            if c == '\\' && !escaped {
                escaped = true;
                self.advance();
            } else if !escaped && (c == ' ' || c == '\t' || c == '#' || c == '\r' || c == '\n') {
                proof {
                    assert(content@ =~= full.0);
                }
                break;
            } else {
                let ghost herepos = self.pos as int;
                if c == '\0' {
                    proof {
                        lemma_byte_len_mono(self.src@, herepos + 1, self.src@.len() as int);
                    }
                    let w = utf8_len_exec(c);
                    let e = ParseError {
                        message: "patterns cannot contain null bytes".to_owned(),
                        span: Span(self.bpos, self.bpos + w),
                    };
                    let ghost preverrs = self.errors@;
                    self.errors.push(e);
                    proof {
                        let ghostadd = (GErr {
                            msg: "patterns cannot contain null bytes"@,
                            lo: byte_len(self.src@, herepos),
                            hi: byte_len(self.src@, herepos + 1),
                        });
                        lemma_abs_errs_push(preverrs, e);
                        assert(abs_err(e) =~~= ghostadd);
                        added = added.push(ghostadd);
                        assert(abs_errs(self.errors@) =~~= abs_errs(old(self).errors@) + added);
                    }
                }
                if escaped {
                    content.push('\\');
                }
                content.push(c);
                escaped = false;
                self.advance();
                proof {
                    assert(full.0 =~= content@ + spec_pattern(self.src@, self.pos as int, false).0);
                    assert(full.1 =~~= added + spec_pattern(self.src@, self.pos as int, false).1);
                }
            }
        }
        Spanned(string_of(&content), Span(start_b, self.bpos))
    }

    /// Read the owner list after a pattern: whitespace-separated tokens,
    /// classified as user, team or email; an invalid token records an error
    /// scoped to it and scanning continues.
    fn parse_owners(&mut self) -> (r: Vec<Spanned<Owner>>)
        requires
            old(self).wf(),
        ensures
            final(self).wf(),
            final(self).src == old(self).src,
            final(self).total == old(self).total,
            final(self).pos as int == spec_owners(old(self).src@, old(self).pos as int).2,
            abs_owns(r@) == spec_owners(old(self).src@, old(self).pos as int).0,
            abs_errs(final(self).errors@) == abs_errs(old(self).errors@) + spec_owners(
                old(self).src@,
                old(self).pos as int,
            ).1,
    {
        let ghost p0 = self.pos as int;
        let ghost full = spec_owners(self.src@, p0);
        let mut owners: Vec<Spanned<Owner>> = Vec::new();
        let ghost mut added: Seq<GErr> = Seq::empty();
        proof {
            assert(abs_owns(owners@) =~~= Seq::<GOwn>::empty());
            assert(full.0 =~~= abs_owns(owners@) + spec_owners(self.src@, self.pos as int).0);
            assert(full.1 =~~= added + spec_owners(self.src@, self.pos as int).1);
            assert(abs_errs(self.errors@) =~~= abs_errs(old(self).errors@) + added);
        }
        loop
            invariant
                self.wf(),
                self.src == old(self).src,
                self.total == old(self).total,
                0 <= p0 <= self.pos as int,
                p0 == old(self).pos as int,
                full == spec_owners(self.src@, p0),
                full.0 == abs_owns(owners@) + spec_owners(self.src@, self.pos as int).0,
                full.1 == added + spec_owners(self.src@, self.pos as int).1,
                full.2 == spec_owners(self.src@, self.pos as int).2,
                abs_errs(self.errors@) == abs_errs(old(self).errors@) + added,
            ensures
                self.wf(),
                self.src == old(self).src,
                self.total == old(self).total,
                self.pos as int == full.2,
                abs_owns(owners@) == full.0,
                abs_errs(self.errors@) == abs_errs(old(self).errors@) + full.1,
            decreases self.src@.len() - self.pos,
        {
            let ghost iterstart = self.pos as int;
            self.skip_ws();
            let tstart_b = self.bpos;
            let ghost j = self.pos as int;
            let ghost errs_at_iter = self.errors@;
            proof {
                lemma_skip_ws_bounds(self.src@, iterstart);
                assert(spec_skip_ws(self.src@, j) == j);
                assert(spec_owners(self.src@, iterstart) == spec_owners(self.src@, j));
            }
            let mut tok: Vec<char> = Vec::new();
            proof {
                assert(tok@ =~= self.src@.subrange(j, j));
            }
            loop
                invariant
                    self.wf(),
                    self.src == old(self).src,
                    self.total == old(self).total,
                    self.errors@ == errs_at_iter,
                    0 <= j <= self.pos as int,
                    tok@ == self.src@.subrange(j, self.pos as int),
                    spec_token_end(self.src@, self.pos as int) == spec_token_end(self.src@, j),
                ensures
                    self.wf(),
                    self.src == old(self).src,
                    self.total == old(self).total,
                    self.errors@ == errs_at_iter,
                    self.pos == spec_token_end(self.src@, j),
                    tok@ == self.src@.subrange(j, self.pos as int),
                decreases self.src@.len() - self.pos,
            {
                if self.pos >= self.src.len() {
                    break;
                }
                let c = self.src[self.pos];
                if c == ' ' || c == '\t' || c == '#' || c == '\r' || c == '\n' {
                    break;
                }
                let ghost prevpos = self.pos as int;
                tok.push(c);
                self.advance();
                proof {
                    lemma_subrange_snoc(self.src@, j, prevpos);
                }
            }
            if tok.len() == 0 {
                proof {
                    assert(abs_owns(owners@) =~~= full.0);
                    assert(added =~~= full.1);
                }
                break;
            }
            let toks = string_of(&tok);
            let ghost tokv = tok@;
            let ghost e = self.pos as int;
            proof {
                assert(tokv == self.src@.subrange(j, e));
                assert(e == spec_token_end(self.src@, j));
                assert(j == spec_skip_ws(self.src@, iterstart));
                assert(e > j);
            }
            match Owner::try_from(toks) {
                Ok(o) => {
                    let ghost oldowners = owners@;
                    let sp = Spanned(o, Span(tstart_b, self.bpos));
                    owners.push(sp);
                    proof {
                        let own = (GOwn {
                            val: tokv,
                            kind: sp.0.kind,
                            lo: byte_len(self.src@, j),
                            hi: byte_len(self.src@, e),
                        });
                        lemma_abs_owns_push(oldowners, sp);
                        assert(abs_own(sp) =~~= own);
                        // one unfolding of the owner scan at this iteration
                        assert(spec_owners(self.src@, iterstart).0 =~~= seq![own] + spec_owners(
                            self.src@,
                            e,
                        ).0);
                        assert(spec_owners(self.src@, iterstart).1 == spec_owners(self.src@, e).1);
                        assert(spec_owners(self.src@, iterstart).2 == spec_owners(self.src@, e).2);
                        assert(full.0 =~~= abs_owns(owners@) + spec_owners(
                            self.src@,
                            self.pos as int,
                        ).0);
                    }
                },
                Err(er) => {
                    let msg = er.message();
                    let pe = ParseError { message: msg, span: Span(tstart_b, self.bpos) };
                    let ghost olderrs = self.errors@;
                    self.errors.push(pe);
                    proof {
                        let gerr = (GErr {
                            msg: "invalid owner: "@ + tokv,
                            lo: byte_len(self.src@, j),
                            hi: byte_len(self.src@, e),
                        });
                        lemma_abs_errs_push(olderrs, pe);
                        assert(abs_err(pe) =~~= gerr);
                        // one unfolding of the owner scan at this iteration
                        assert(spec_owners(self.src@, iterstart).0 =~~= spec_owners(
                            self.src@,
                            e,
                        ).0);
                        assert(spec_owners(self.src@, iterstart).1 =~~= seq![gerr] + spec_owners(
                            self.src@,
                            e,
                        ).1);
                        assert(spec_owners(self.src@, iterstart).2 == spec_owners(self.src@, e).2);
                        let prevadded = added;
                        added = added.push(gerr);
                        assert(full.1 =~~= added + spec_owners(self.src@, e).1) by {
                            assert(full.1 =~~= prevadded + (seq![gerr] + spec_owners(
                                self.src@,
                                e,
                            ).1));
                        }
                        assert(abs_errs(self.errors@) =~~= abs_errs(old(self).errors@) + added);
                        assert(full.0 =~~= abs_owns(owners@) + spec_owners(
                            self.src@,
                            self.pos as int,
                        ).0);
                    }
                },
            }
        }
        owners
    }

    /// Read one rule: pattern, owners, and its terminator (line end, end of
    /// input, or a trailing comment). Only a missing pattern aborts; a
    /// stray character before the line end is recorded and the rest of the
    /// line skipped, keeping the rule.
    fn parse_rule(&mut self) -> (r: Result<Rule, ParseError>)
        requires
            old(self).wf(),
        ensures
            final(self).wf(),
            final(self).src == old(self).src,
            final(self).total == old(self).total,
            r is Ok <==> spec_rule(old(self).src@, old(self).pos as int) is Ok,
            (match r {
                Ok(rule) => {
                    let g = spec_rule(old(self).src@, old(self).pos as int)->Ok_0;
                    &&& abs_rule(rule) == g.0
                    &&& abs_errs(final(self).errors@) == abs_errs(old(self).errors@) + g.1
                    &&& final(self).pos as int == g.2
                },
                Err(e) => {
                    let g = spec_rule(old(self).src@, old(self).pos as int)->Err_0;
                    &&& abs_errs(final(self).errors@) == abs_errs(old(self).errors@) + g.0
                    &&& abs_err(e) == g.1
                },
            }),
    {
        let ghost p0 = self.pos as int;
        let pattern = self.parse_pattern();
        let ghost pspec = spec_pattern(old(self).src@, p0, false);
        if pattern.0.as_str().unicode_len() == 0 {
            let e = ParseError {
                message: "expected pattern".to_owned(),
                span: Span(self.bpos, self.bpos),
            };
            proof {
                assert(pspec.0.len() == 0);
            }
            return Err(e);
        }
        let ghost ow = spec_owners(old(self).src@, pspec.2);
        let owners = self.parse_owners();
        if self.pos >= self.src.len() {
            let rule = Rule {
                pattern,
                owners,
                leading_comments: Vec::new(),
                trailing_comment: None,
            };
            proof {
                let g = spec_rule(old(self).src@, p0)->Ok_0;
                assert(abs_rule(rule) =~~= g.0);
                assert(abs_errs(self.errors@) =~~= abs_errs(old(self).errors@) + g.1);
            }
            return Ok(rule);
        }
        let c = self.src[self.pos];
        if c == '\r' || c == '\n' {
            let rule = Rule {
                pattern,
                owners,
                leading_comments: Vec::new(),
                trailing_comment: None,
            };
            proof {
                let g = spec_rule(old(self).src@, p0)->Ok_0;
                assert(abs_rule(rule) =~~= g.0);
                assert(abs_errs(self.errors@) =~~= abs_errs(old(self).errors@) + g.1);
            }
            Ok(rule)
        } else if c == '#' {
            let tc = self.parse_comment();
            let rule = Rule {
                pattern,
                owners,
                leading_comments: Vec::new(),
                trailing_comment: Some(tc),
            };
            proof {
                let g = spec_rule(old(self).src@, p0)->Ok_0;
                assert(abs_rule(rule) =~~= g.0);
                assert(abs_errs(self.errors@) =~~= abs_errs(old(self).errors@) + g.1);
            }
            Ok(rule)
        } else {
            // cannot arise while the owner scan consumes every token, but
            // the recovery is what holds of it: record, skip the line, keep
            // the rule
            let ghost after = self.pos as int;
            let e = ParseError {
                message: "expected newline".to_owned(),
                span: Span(self.bpos, self.bpos),
            };
            let ghost preverrs = self.errors@;
            self.errors.push(e);
            self.skip_to_line_end();
            let rule = Rule {
                pattern,
                owners,
                leading_comments: Vec::new(),
                trailing_comment: None,
            };
            proof {
                let gerr = (GErr {
                    msg: "expected newline"@,
                    lo: byte_len(self.src@, after),
                    hi: byte_len(self.src@, after),
                });
                lemma_abs_errs_push(preverrs, e);
                assert(abs_err(e) =~~= gerr);
                let g = spec_rule(old(self).src@, p0)->Ok_0;
                assert(abs_rule(rule) =~~= g.0);
                assert(abs_errs(self.errors@) =~~= abs_errs(old(self).errors@) + g.1) by {
                    assert(abs_errs(self.errors@) =~~= (abs_errs(old(self).errors@) + (pspec.1
                        + ow.1)).push(gerr));
                }
            }
            Ok(rule)
        }
    }

    /// Skip to the end of the current line, or the end of the source.
    fn skip_to_line_end(&mut self)
        requires
            old(self).wf(),
        ensures
            final(self).wf(),
            final(self).src == old(self).src,
            final(self).total == old(self).total,
            final(self).errors == old(self).errors,
            final(self).pos == spec_comment_end(old(self).src@, old(self).pos as int),
    {
        loop
            invariant
                self.wf(),
                self.src == old(self).src,
                self.total == old(self).total,
                self.errors == old(self).errors,
                self.pos >= old(self).pos,
                spec_comment_end(self.src@, self.pos as int) == spec_comment_end(
                    old(self).src@,
                    old(self).pos as int,
                ),
            ensures
                self.wf(),
                self.src == old(self).src,
                self.total == old(self).total,
                self.errors == old(self).errors,
                self.pos == spec_comment_end(old(self).src@, old(self).pos as int),
            decreases self.src@.len() - self.pos,
        {
            if self.pos >= self.src.len() {
                break;
            }
            let c = self.src[self.pos];
            if c == '\r' || c == '\n' {
                break;
            }
            self.advance();
        }
    }
}

/// Parse a CODEOWNERS source text into rules and recoverable errors.
pub fn parse(source: &str) -> (r: ParseResult)
    ensures
        abs_result(r) == spec_parse(source@),
{
    let src = chars_of(source);
    let total = str_byte_len(source);
    let ghost srcv = src@;
    let mut p = Parser { src, total, pos: 0, bpos: 0, errors: Vec::new() };
    let mut rules: Vec<Rule> = Vec::new();
    let mut leading: Vec<Spanned<String>> = Vec::new();
    p.skip_ws();
    proof {
        assert(abs_strs(leading@) =~~= Seq::<GStr>::empty());
        assert(abs_rules(rules@) =~~= Seq::<GRule>::empty());
        assert(abs_errs(p.errors@) =~~= Seq::<GErr>::empty());
    }
    loop
        invariant_except_break
            spec_parse(source@) == spec_parse_loop(
                srcv,
                p.pos as int,
                abs_strs(leading@),
                abs_rules(rules@),
                abs_errs(p.errors@),
            ),
        invariant
            p.wf(),
            p.src@ == srcv,
            srcv == source@,
        ensures
            spec_parse(source@) == (GResult {
                rules: abs_rules(rules@),
                errors: abs_errs(p.errors@),
            }),
        decreases p.src@.len() - p.pos,
    {
        if p.pos >= p.src.len() {
            break;
        }
        let ghost lead0 = abs_strs(leading@);
        let ghost rules0 = abs_rules(rules@);
        let ghost errs0 = abs_errs(p.errors@);
        let c = p.src[p.pos];
        if c == '\r' || c == '\n' {
            let ghost ri = p.pos as int;
            p.advance();
            let ghost mid = p.pos as int;
            p.skip_ws();
            proof {
                lemma_skip_ws_bounds(srcv, mid);
                assert(spec_parse_loop(srcv, ri, lead0, rules0, errs0) == spec_parse_loop(
                    srcv,
                    spec_skip_ws(srcv, ri + 1),
                    lead0,
                    rules0,
                    errs0,
                ));
            }
        } else if c == '#' {
            let ghost ci = p.pos as int;
            let cm = p.parse_comment();
            let ghost oldlead = leading@;
            let ghost ce = p.pos as int;
            leading.push(cm);
            p.skip_ws();
            proof {
                lemma_comment_end_bounds(srcv, ci);
                lemma_comment_end_bounds(srcv, ci + 1);
                lemma_skip_ws_bounds(srcv, ce);
                let g = (GStr {
                    val: srcv.subrange(ci, spec_comment_end(srcv, ci)),
                    lo: byte_len(srcv, ci),
                    hi: byte_len(srcv, spec_comment_end(srcv, ci)),
                });
                lemma_abs_strs_push(oldlead, cm);
                assert(abs_str(cm) =~~= g);
                assert(spec_parse_loop(srcv, ci, lead0, rules0, errs0) == spec_parse_loop(
                    srcv,
                    spec_skip_ws(srcv, spec_comment_end(srcv, ci)),
                    lead0.push(g),
                    rules0,
                    errs0,
                ));
                assert(abs_strs(leading@) =~~= lead0.push(g));
            }
        } else {
            let ghost ri = p.pos as int;
            match p.parse_rule() {
                Ok(rule) => {
                    let ghost oldlead = abs_strs(leading@);
                    let withlead = Rule {
                        pattern: rule.pattern,
                        owners: rule.owners,
                        leading_comments: leading,
                        trailing_comment: rule.trailing_comment,
                    };
                    leading = Vec::new();
                    let ghost oldrules = rules@;
                    rules.push(withlead);
                    let ghost rend = p.pos as int;
                    p.skip_ws();
                    proof {
                        lemma_rule_advances(srcv, ri);
                        lemma_skip_ws_bounds(srcv, rend);
                        let g = spec_rule(srcv, ri)->Ok_0;
                        lemma_abs_rules_push(oldrules, withlead);
                        assert(abs_rule(withlead) =~~= (GRule { leading: oldlead, ..g.0 }));
                        assert(spec_parse_loop(srcv, ri, lead0, rules0, errs0) == spec_parse_loop(
                            srcv,
                            spec_skip_ws(srcv, g.2),
                            Seq::<GStr>::empty(),
                            rules0.push((GRule { leading: oldlead, ..g.0 })),
                            errs0 + g.1,
                        ));
                        assert(abs_strs(leading@) =~~= Seq::<GStr>::empty());
                    }
                },
                Err(e) => {
                    let ghost olderrs = p.errors@;
                    p.errors.push(e);
                    proof {
                        let g = spec_rule(srcv, ri)->Err_0;
                        lemma_abs_errs_push(olderrs, e);
                        assert(spec_parse_loop(srcv, ri, lead0, rules0, errs0) == (GResult {
                            rules: rules0,
                            errors: (errs0 + g.0).push(g.1),
                        }));
                        assert(abs_errs(p.errors@) =~~= (errs0 + g.0).push(g.1));
                    }
                    break;
                },
            }
        }
    }
    ParseResult { rules, errors: p.errors }
}

} // verus!
