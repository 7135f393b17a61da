//! General properties of rule sets, stated and proved over the same spec
//! functions the public contracts use.

use vstd::prelude::*;

use crate::builder::extends_for;
use crate::builder::has_self_star;
use crate::builder::lemma_build_mark_loops;
use crate::builder::pattern_segments;
use crate::builder::lemma_add_pattern_extends;
use crate::builder::lemma_spec_build_props;
use crate::builder::marks_in;
use crate::builder::spec_add_pattern;
use crate::builder::spec_build;
use crate::builder::state_extends;
use crate::builder::state_fresh;
use crate::nfa::SpecState;
use crate::nfa::edge_to;
use crate::nfa::eps_of;
use crate::nfa::lemma_run_valid;
use crate::nfa::valid_state;
use crate::nfa::unique_edges;
use crate::nfa::wf_model;
use crate::nfa::initial_set;
use crate::nfa::initial_state;
use crate::nfa::nfa_matches;
use crate::nfa::reach_via;
use crate::nfa::run_set;
use crate::nfa::step_set;
use crate::nfa::terminal_for;
use crate::ruleset::Rule;
use crate::ruleset::is_winner;
use crate::ruleset::lemma_match_bounded;
use crate::ruleset::rule_matches;
use crate::ruleset::rule_patterns;
use crate::segment::lemma_star_matches_all;
use crate::util::path_segments;

verus! {

/// Matching is monotone under generalization: if rule `i` matches a path,
/// so does every rule `j` whose compiled pattern matches every path that
/// rule `i`'s does.
pub proof fn law_generalization(rules: Seq<Rule>, path: Seq<char>, i: int, j: int)
    requires
        rule_matches(rules, path, i),
        forall|q: Seq<char>| #[trigger] rule_matches(rules, q, i) ==> rule_matches(rules, q, j),
    ensures
        rule_matches(rules, path, j),
{
}

/// A rule appended after all others wins on every path it matches: its id
/// is the largest, and the winner is the rule with the largest matching id,
/// so the owners reported for such a path are the new rule's.
pub proof fn law_later_rule_wins(rules: Seq<Rule>, newrule: Rule, path: Seq<char>)
    requires
        rule_matches(rules.push(newrule), path, rules.len() as int),
    ensures
        is_winner(rules.push(newrule), path, rules.len() as int),
{
    let rules2 = rules.push(newrule);
    assert forall|j: int| #[trigger] rule_matches(rules2, path, j) implies j
        <= rules.len() as int by {
        lemma_match_bounded(rules2, path, j);
    }
}

/// Compiling one more pattern changes no state set that an older automaton
/// could reach: old states are reached in the extended automaton exactly
/// as before.
proof fn lemma_run_preserved(
    m1: Seq<SpecState>,
    m2: Seq<SpecState>,
    pid: int,
    segs: Seq<Seq<char>>,
    s: int,
)
    requires
        extends_for(m1, m2, pid),
        wf_model(m1),
        0 <= s < m1.len(),
    ensures
        run_set(m2, segs).contains(s) <==> run_set(m1, segs).contains(s),
    decreases segs.len(),
{
    broadcast use vstd::set::group_set_axioms;

    if segs.len() == 0 {
        assert(state_extends(m1[0], m2[0], m1.len() as int, pid));
        if initial_state(m1, s) {
            if s != 0 {
                assert(m1[0].epsilon == Some(s));
                assert(m2[0].epsilon == Some(s));
            }
            assert(initial_state(m2, s));
        }
        if initial_state(m2, s) {
            if s != 0 {
                assert(m2[0].epsilon == Some(s));
                if m1[0].epsilon is None {
                    assert(m2[0].epsilon->0 >= m1.len());
                    assert(false);
                }
                assert(m1[0].epsilon == Some(s));
            }
            assert(initial_state(m1, s));
        }
    } else {
        let prev = segs.drop_last();
        let last = segs.last();
        let prev1 = run_set(m1, prev);
        let prev2 = run_set(m2, prev);
        if run_set(m1, segs).contains(s) {
            let q = choose|q: int| prev1.contains(q) && #[trigger] reach_via(m1, q, last, s);
            lemma_run_valid(m1, prev, q);
            lemma_run_preserved(m1, m2, pid, prev, q);
            assert(prev2.contains(q));
            assert(state_extends(m1[q], m2[q], m1.len() as int, pid));
            if edge_to(m1, q, last, s) {
                let k = choose|k: int|
                    0 <= k < m1[q].transitions.len() && crate::segment::seg_matches(
                        (#[trigger] m1[q].transitions[k]).seg,
                        last,
                    ) && m1[q].transitions[k].target == s;
                assert(m2[q].transitions[k] == m1[q].transitions[k]);
                assert(edge_to(m2, q, last, s));
            } else {
                let t = choose|t: int| #[trigger] edge_to(m1, q, last, t) && eps_of(m1, t, s);
                let k = choose|k: int|
                    0 <= k < m1[q].transitions.len() && crate::segment::seg_matches(
                        (#[trigger] m1[q].transitions[k]).seg,
                        last,
                    ) && m1[q].transitions[k].target == t;
                assert(m2[q].transitions[k] == m1[q].transitions[k]);
                assert(edge_to(m2, q, last, t));
                assert(valid_state(m1, t));
                assert(state_extends(m1[t], m2[t], m1.len() as int, pid));
                assert(m1[t].epsilon == Some(s));
                assert(m2[t].epsilon == Some(s));
                assert(eps_of(m2, t, s));
            }
            assert(reach_via(m2, q, last, s));
            assert(run_set(m2, segs).contains(s));
        }
        if run_set(m2, segs).contains(s) {
            let q = choose|q: int| prev2.contains(q) && #[trigger] reach_via(m2, q, last, s);
            // a fresh state only leads to fresh states, and `s` is old
            if q >= m1.len() {
                assert(state_fresh(m2[q], m1.len() as int, pid));
                if edge_to(m2, q, last, s) {
                    let k = choose|k: int|
                        0 <= k < m2[q].transitions.len() && crate::segment::seg_matches(
                            (#[trigger] m2[q].transitions[k]).seg,
                            last,
                        ) && m2[q].transitions[k].target == s;
                    assert(m2[q].transitions[k].target >= m1.len());
                    assert(false);
                } else {
                    let t = choose|t: int| #[trigger] edge_to(m2, q, last, t) && eps_of(m2, t, s);
                    let k = choose|k: int|
                        0 <= k < m2[q].transitions.len() && crate::segment::seg_matches(
                            (#[trigger] m2[q].transitions[k]).seg,
                            last,
                        ) && m2[q].transitions[k].target == t;
                    assert(t >= m1.len());
                    assert(state_fresh(m2[t], m1.len() as int, pid));
                    assert(m2[t].epsilon->0 >= m1.len());
                    assert(false);
                }
            }
            assert(0 <= q < m1.len());
            lemma_run_preserved(m1, m2, pid, prev, q);
            assert(prev1.contains(q));
            assert(state_extends(m1[q], m2[q], m1.len() as int, pid));
            if edge_to(m2, q, last, s) {
                let k = choose|k: int|
                    0 <= k < m2[q].transitions.len() && crate::segment::seg_matches(
                        (#[trigger] m2[q].transitions[k]).seg,
                        last,
                    ) && m2[q].transitions[k].target == s;
                if k >= m1[q].transitions.len() {
                    assert(m2[q].transitions[k].target >= m1.len());
                    assert(false);
                }
                assert(m2[q].transitions[k] == m1[q].transitions[k]);
                assert(edge_to(m1, q, last, s));
            } else {
                let t = choose|t: int| #[trigger] edge_to(m2, q, last, t) && eps_of(m2, t, s);
                let k = choose|k: int|
                    0 <= k < m2[q].transitions.len() && crate::segment::seg_matches(
                        (#[trigger] m2[q].transitions[k]).seg,
                        last,
                    ) && m2[q].transitions[k].target == t;
                if t >= m1.len() {
                    assert(state_fresh(m2[t], m1.len() as int, pid));
                    assert(m2[t].epsilon->0 >= m1.len());
                    assert(false);
                }
                if k >= m1[q].transitions.len() {
                    assert(m2[q].transitions[k].target >= m1.len());
                    assert(false);
                }
                assert(m2[q].transitions[k] == m1[q].transitions[k]);
                assert(edge_to(m1, q, last, t));
                assert(state_extends(m1[t], m2[t], m1.len() as int, pid));
                assert(m2[t].epsilon == Some(s));
                if m1[t].epsilon is None {
                    assert(m2[t].epsilon->0 >= m1.len());
                    assert(false);
                }
                assert(m1[t].epsilon == Some(s));
                assert(eps_of(m1, t, s));
            }
            assert(reach_via(m1, q, last, s));
            assert(run_set(m1, segs).contains(s));
        }
    }
}

/// Compiling one more pattern leaves every other pattern's matches as they
/// were.
proof fn lemma_matches_preserved(
    m1: Seq<SpecState>,
    m2: Seq<SpecState>,
    pid: int,
    segs: Seq<Seq<char>>,
    pid2: int,
)
    requires
        extends_for(m1, m2, pid),
        wf_model(m1),
        pid2 != pid,
    ensures
        nfa_matches(m2, segs, pid2) <==> nfa_matches(m1, segs, pid2),
{
    if nfa_matches(m1, segs, pid2) {
        let s = choose|s: int| #[trigger] run_set(m1, segs).contains(s) && terminal_for(m1, s, pid2);
        lemma_run_valid(m1, segs, s);
        lemma_run_preserved(m1, m2, pid, segs, s);
        assert(state_extends(m1[s], m2[s], m1.len() as int, pid));
        let k = choose|k: int| 0 <= k < m1[s].terminal.len() && m1[s].terminal[k] == pid2;
        assert(m2[s].terminal[k] == pid2);
        assert(m2[s].terminal.contains(pid2));
        assert(terminal_for(m2, s, pid2));
        assert(run_set(m2, segs).contains(s) && terminal_for(m2, s, pid2));
    }
    if nfa_matches(m2, segs, pid2) {
        let s = choose|s: int| #[trigger] run_set(m2, segs).contains(s) && terminal_for(m2, s, pid2);
        let k = choose|k: int| 0 <= k < m2[s].terminal.len() && m2[s].terminal[k] == pid2;
        if s >= m1.len() {
            assert(state_fresh(m2[s], m1.len() as int, pid));
            assert(m2[s].terminal[k] == pid);
            assert(false);
        }
        assert(state_extends(m1[s], m2[s], m1.len() as int, pid));
        if k >= m1[s].terminal.len() {
            assert(m2[s].terminal[k] == pid);
            assert(false);
        }
        assert(m1[s].terminal[k] == pid2);
        assert(m1[s].terminal.contains(pid2));
        lemma_run_preserved(m1, m2, pid, segs, s);
        assert(run_set(m1, segs).contains(s) && terminal_for(m1, s, pid2));
    }
}

/// Appending a rule changes no other rule's matches: a path matches rule
/// `i` of the extended list exactly when it matched rule `i` before.
/// Together with `law_later_rule_wins` this gives the whole effect of
/// adding a rule at the end: paths the new rule matches now report its
/// owners, every other path reports what it did before.
pub proof fn law_added_rule_preserves_matches(
    rules: Seq<Rule>,
    newrule: Rule,
    path: Seq<char>,
    i: int,
)
    requires
        0 <= i < rules.len(),
    ensures
        rule_matches(rules.push(newrule), path, i) <==> rule_matches(rules, path, i),
{
    let pats1 = rule_patterns(rules);
    let pats2 = rule_patterns(rules.push(newrule));
    assert(pats2.drop_last() =~~= pats1);
    assert(pats2.last() == newrule.pattern@);
    let m1 = spec_build(pats1);
    let m2 = spec_build(pats2);
    assert(m2 == spec_add_pattern(m1, newrule.pattern@, rules.len() as int));
    lemma_spec_build_props(pats1);
    assert(marks_in(m1, rules.len() as int));
    lemma_add_pattern_extends(m1, newrule.pattern@, rules.len() as int);
    lemma_matches_preserved(m1, m2, rules.len() as int, path_segments(path), i);
}

/// A path with no segments matches exactly the patterns marked terminal on
/// a state reached from the start state by epsilon edges alone.
pub proof fn law_empty_path(m: Seq<SpecState>, pid: int)
    ensures
        nfa_matches(m, Seq::empty(), pid) <==> exists|s: int|
            initial_state(m, s) && #[trigger] terminal_for(m, s, pid),
{
    broadcast use vstd::set::group_set_axioms;

    if nfa_matches(m, Seq::<Seq<char>>::empty(), pid) {
        let s = choose|s: int|
            #[trigger] run_set(m, Seq::<Seq<char>>::empty()).contains(s) && terminal_for(m, s, pid);
        assert(initial_set(m).contains(s));
        assert(initial_state(m, s) && terminal_for(m, s, pid));
    }
    if exists|s: int| initial_state(m, s) && #[trigger] terminal_for(m, s, pid) {
        let s = choose|s: int| initial_state(m, s) && #[trigger] terminal_for(m, s, pid);
        assert(run_set(m, Seq::<Seq<char>>::empty()).contains(s));
    }
}

/// Over rules: a path with no segments matches exactly the rules whose
/// pattern reaches a terminal mark through epsilon edges alone.
pub proof fn law_empty_path_rules(rules: Seq<Rule>, path: Seq<char>, pid: int)
    requires
        path_segments(path).len() == 0,
    ensures
        rule_matches(rules, path, pid) <==> exists|s: int|
            initial_state(spec_build(rule_patterns(rules)), s) && #[trigger] terminal_for(
                spec_build(rule_patterns(rules)),
                s,
                pid,
            ),
{
    assert(path_segments(path) =~~= Seq::<Seq<char>>::empty());
    law_empty_path(spec_build(rule_patterns(rules)), pid);
}

/// A state with a `*` self-loop stays active when one more segment is
/// consumed.
proof fn lemma_self_star_stays(m: Seq<SpecState>, segs: Seq<Seq<char>>, e: int, extra: Seq<char>)
    requires
        0 <= e < m.len(),
        has_self_star(m, e),
        run_set(m, segs).contains(e),
    ensures
        run_set(m, segs.push(extra)).contains(e),
{
    broadcast use vstd::set::group_set_axioms;

    assert(segs.push(extra).drop_last() =~~= segs);
    assert(segs.push(extra).last() == extra);
    let k = choose|k: int|
        0 <= k < m[e].transitions.len() && (#[trigger] m[e].transitions[k]).seg == seq!['*']
            && m[e].transitions[k].target == e;
    lemma_star_matches_all(extra);
    assert(edge_to(m, e, extra, e));
    assert(reach_via(m, e, extra, e));
    assert(run_set(m, segs.push(extra)) == crate::nfa::step_set(m, run_set(m, segs), extra));
}

/// A rule whose final segment is not a lone `*` matches recursively: every
/// segment sequence it matches it also matches with any further segment
/// appended.
pub proof fn law_terminal_not_star_matches_recursively(
    rules: Seq<Rule>,
    i: int,
    segs: Seq<Seq<char>>,
    extra: Seq<char>,
)
    requires
        0 <= i < rules.len(),
        pattern_segments(rules[i].pattern@).last() != seq!['*'],
        nfa_matches(spec_build(rule_patterns(rules)), segs, i),
    ensures
        nfa_matches(spec_build(rule_patterns(rules)), segs.push(extra), i),
{
    let m = spec_build(rule_patterns(rules));
    lemma_spec_build_props(rule_patterns(rules));
    let s = choose|s: int| #[trigger] run_set(m, segs).contains(s) && terminal_for(m, s, i);
    assert(rule_patterns(rules)[i] == rules[i].pattern@);
    lemma_build_mark_loops(rule_patterns(rules), i);
    assert(has_self_star(m, s));
    lemma_run_valid(m, segs, s);
    lemma_self_star_stays(m, segs, s, extra);
    assert(run_set(m, segs.push(extra)).contains(s) && terminal_for(m, s, i));
}

/// The same, over paths: a path one segment deeper than a matching path
/// still matches such a rule.
pub proof fn law_deeper_path_still_matches(
    rules: Seq<Rule>,
    i: int,
    path: Seq<char>,
    deeper: Seq<char>,
    extra: Seq<char>,
)
    requires
        0 <= i < rules.len(),
        pattern_segments(rules[i].pattern@).last() != seq!['*'],
        path_segments(deeper) == path_segments(path).push(extra),
        rule_matches(rules, path, i),
    ensures
        rule_matches(rules, deeper, i),
{
    law_terminal_not_star_matches_recursively(rules, i, path_segments(path), extra);
}

/// A state that is initial and carries a `*` self-loop is active after
/// every prefix of a segment sequence.
proof fn lemma_initial_star_prefix_runs(m: Seq<SpecState>, e: int, segs: Seq<Seq<char>>, k: int)
    requires
        0 <= e < m.len(),
        initial_state(m, e),
        has_self_star(m, e),
        0 <= k <= segs.len(),
    ensures
        run_set(m, segs.take(k)).contains(e),
    decreases k,
{
    broadcast use vstd::set::group_set_axioms;

    if k == 0 {
        assert(segs.take(0) =~~= Seq::<Seq<char>>::empty());
        assert(initial_set(m).contains(e));
    } else {
        lemma_initial_star_prefix_runs(m, e, segs, k - 1);
        assert(segs.take(k) =~~= segs.take(k - 1).push(segs[k - 1]));
        lemma_self_star_stays(m, segs.take(k - 1), e, segs[k - 1]);
    }
}

/// Compiling the pattern `*` onto any automaton matches every segment
/// sequence with at least one segment: the floating start keeps consuming
/// leading segments, the `*` transition the final one.
proof fn lemma_add_star_matches(m: Seq<SpecState>, pid: int, segs: Seq<Seq<char>>)
    requires
        wf_model(m),
        unique_edges(m),
        crate::builder::eps_have_loops(m),
        marks_in(m, pid),
        pid >= 0,
        segs.len() >= 1,
    ensures
        nfa_matches(spec_add_pattern(m, "*"@, pid), segs, pid),
{
    broadcast use vstd::set::group_set_axioms;

    reveal_strlit("*");
    let pat = seq!['*'];
    assert("*"@ == pat);
    crate::util::lemma_first_sep(pat, '/');
    assert(crate::util::first_sep(pat, '/') == 1) by {
        assert(pat.skip(1) =~= Seq::<char>::empty());
    }
    let segs_p = crate::util::split_on(pat, '/');
    assert(segs_p =~~= seq![pat]);
    // the floating single segment starts from the start state's epsilon
    let s0 = crate::builder::spec_add_epsilon(m, 0);
    let ma = s0.0;
    let e = s0.1;
    crate::builder::lemma_spec_add_epsilon_props(m, 0, pid);
    assert(has_self_star(ma, e) && initial_state(ma, e)) by {
        if crate::builder::has_self_star(m, 0) {
            assert(ma == m && e == 0);
        } else if m[0].epsilon is Some {
            assert(ma == m && e == m[0].epsilon->0);
            assert(has_self_star(m, e));
        } else {
            assert((#[trigger] ma[e].transitions[0]).seg == seq!['*']
                && ma[e].transitions[0].target == e);
            assert(ma[0].epsilon == Some(e));
        }
    }
    // the `*` segment adds (or reuses) a `*` transition out of `e`
    assert(segs_p[0] != seq!['*', '*']) by {
        assert(segs_p[0].len() != 2);
    }
    let t = crate::builder::spec_add_transition(ma, e, pat);
    let mb = t.0;
    let tt = t.1;
    crate::builder::lemma_spec_add_transition_props(ma, e, pat, pid);
    assert(exists|kk: int|
        0 <= kk < mb[e].transitions.len() && (#[trigger] mb[e].transitions[kk]).seg == pat
            && mb[e].transitions[kk].target == tt) by {
        if crate::builder::has_reusable(ma, e, pat) {
            let kk = choose|kk: int| crate::builder::is_reusable(ma, e, pat, kk);
            assert(crate::builder::is_reusable(ma, e, pat, kk));
            assert((#[trigger] mb[e].transitions[kk]).seg == pat && mb[e].transitions[kk].target
                == tt);
        } else {
            let kk = ma[e].transitions.len() as int;
            assert((#[trigger] mb[e].transitions[kk]).seg == pat && mb[e].transitions[kk].target
                == tt);
        }
    }
    assert(has_self_star(mb, e)) by {
        let kk = choose|kk: int|
            0 <= kk < ma[e].transitions.len() && (#[trigger] ma[e].transitions[kk]).seg
                == seq!['*'] && ma[e].transitions[kk].target == e;
        assert((#[trigger] mb[e].transitions[kk]).seg == seq!['*'] && mb[e].transitions[kk].target
            == e);
    }
    assert(initial_state(mb, e)) by {
        if e != 0 {
            assert(mb[0].epsilon == ma[0].epsilon);
        }
    }
    // the walk ends at `tt`; the terminal is a lone `*`, so no epsilon
    assert(crate::builder::spec_walk(ma, segs_p, 0, e) == crate::builder::spec_walk(
        mb,
        segs_p,
        1,
        tt,
    ));
    assert(crate::builder::spec_walk(ma, segs_p, 0, e) == (mb, tt));
    assert(segs_p.last() == pat);
    let mfin = spec_add_pattern(m, "*"@, pid);
    assert(mfin == crate::builder::spec_mark(mb, tt, pid));
    assert(tt != e);
    assert(initial_state(mfin, e)) by {
        if e != 0 {
            assert(mfin[0].epsilon == mb[0].epsilon);
        }
    }
    assert(has_self_star(mfin, e)) by {
        let kk = choose|kk: int|
            0 <= kk < mb[e].transitions.len() && (#[trigger] mb[e].transitions[kk]).seg
                == seq!['*'] && mb[e].transitions[kk].target == e;
        assert(mfin[e].transitions == mb[e].transitions);
        assert((#[trigger] mfin[e].transitions[kk]).seg == seq!['*']
            && mfin[e].transitions[kk].target == e);
    }
    assert(0 <= e < mfin.len() && 0 <= tt < mfin.len());
    lemma_initial_star_prefix_runs(mfin, e, segs, segs.len() - 1);
    lemma_star_matches_all(segs.last());
    assert(edge_to(mfin, e, segs.last(), tt)) by {
        let kk = choose|kk: int|
            0 <= kk < mb[e].transitions.len() && (#[trigger] mb[e].transitions[kk]).seg == pat
                && mb[e].transitions[kk].target == tt;
        assert(mfin[e].transitions == mb[e].transitions);
        assert((#[trigger] mfin[e].transitions[kk]).seg == pat && mfin[e].transitions[kk].target
            == tt);
    }
    assert(terminal_for(mfin, tt, pid)) by {
        assert(mfin[tt].terminal.last() == pid);
    }
    assert(segs.take(segs.len() - 1) =~~= segs.drop_last());
    assert(reach_via(mfin, e, segs.last(), tt));
    assert(run_set(mfin, segs).contains(tt)) by {
        assert(run_set(mfin, segs) == step_set(
            mfin,
            run_set(mfin, segs.drop_last()),
            segs.last(),
        ));
    }
}

/// The pattern `*` matches every path with at least one segment, wherever
/// it stands in the rule list: later rules do not disturb it, by the
/// preservation law.
pub proof fn law_star_rule_matches_every_path(rules: Seq<Rule>, i: int, path: Seq<char>)
    requires
        0 <= i < rules.len(),
        rules[i].pattern@ == "*"@,
        path_segments(path).len() >= 1,
    ensures
        rule_matches(rules, path, i),
    decreases rules.len(),
{
    let pats = rule_patterns(rules);
    let prev = rules.drop_last();
    assert(rule_patterns(prev) =~~= pats.drop_last());
    if i == rules.len() - 1 {
        lemma_spec_build_props(rule_patterns(prev));
        assert(pats.last() == "*"@);
        lemma_add_star_matches(spec_build(rule_patterns(prev)), i, path_segments(path));
    } else {
        assert(prev[i] == rules[i]);
        law_star_rule_matches_every_path(prev, i, path);
        assert(rules =~~= prev.push(rules.last()));
        law_added_rule_preserves_matches(prev, rules.last(), path, i);
    }
}

/// Compiling the pattern `**` onto any automaton matches every segment
/// sequence with at least one segment: the `**` coalesces into the
/// floating start, its final-`**` transition consumes one segment, and the
/// recursive epsilon absorbs the rest.
proof fn lemma_add_star_star_matches(m: Seq<SpecState>, pid: int, segs: Seq<Seq<char>>)
    requires
        wf_model(m),
        unique_edges(m),
        crate::builder::eps_have_loops(m),
        marks_in(m, pid),
        pid >= 0,
        segs.len() >= 1,
    ensures
        nfa_matches(spec_add_pattern(m, "**"@, pid), segs, pid),
{
    broadcast use vstd::set::group_set_axioms;

    reveal_strlit("**");
    let pat = seq!['*', '*'];
    assert("**"@ == pat);
    crate::util::lemma_first_sep(pat, '/');
    assert(crate::util::first_sep(pat, '/') == 2) by {
        assert(pat.skip(1) =~= seq!['*']);
        assert(seq!['*'].skip(1) =~= Seq::<char>::empty());
    }
    let segs_p = crate::util::split_on(pat, '/');
    assert(segs_p =~~= seq![pat]);
    // the floating single segment starts from the start state's epsilon
    let s0 = crate::builder::spec_add_epsilon(m, 0);
    let ma = s0.0;
    let e = s0.1;
    crate::builder::lemma_spec_add_epsilon_props(m, 0, pid);
    assert(has_self_star(ma, e) && initial_state(ma, e)) by {
        if crate::builder::has_self_star(m, 0) {
            assert(ma == m && e == 0);
        } else if m[0].epsilon is Some {
            assert(ma == m && e == m[0].epsilon->0);
            assert(has_self_star(m, e));
        } else {
            assert((#[trigger] ma[e].transitions[0]).seg == seq!['*']
                && ma[e].transitions[0].target == e);
            assert(ma[0].epsilon == Some(e));
        }
    }
    crate::builder::lemma_spec_add_epsilon_props(ma, e, pid);
    // the `**` segment coalesces into the self-looping state
    assert(crate::builder::spec_add_epsilon(ma, e) == (ma, e));
    assert(crate::builder::spec_walk(ma, segs_p, 0, e) == crate::builder::spec_walk(
        ma,
        segs_p,
        1,
        e,
    ));
    assert(crate::builder::spec_walk(ma, segs_p, 0, e) == (ma, e));
    // the final `**` demands one more segment
    assert(segs_p.last() == pat);
    let t = crate::builder::spec_add_transition(ma, e, seq!['*']);
    let mb = t.0;
    let tt = t.1;
    crate::builder::lemma_spec_add_transition_props(ma, e, seq!['*'], pid);
    assert(exists|kk: int|
        0 <= kk < mb[e].transitions.len() && (#[trigger] mb[e].transitions[kk]).seg == seq!['*']
            && mb[e].transitions[kk].target == tt) by {
        if crate::builder::has_reusable(ma, e, seq!['*']) {
            let kk = choose|kk: int| crate::builder::is_reusable(ma, e, seq!['*'], kk);
            assert(crate::builder::is_reusable(ma, e, seq!['*'], kk));
            assert((#[trigger] mb[e].transitions[kk]).seg == seq!['*']
                && mb[e].transitions[kk].target == tt);
        } else {
            let kk = ma[e].transitions.len() as int;
            assert((#[trigger] mb[e].transitions[kk]).seg == seq!['*']
                && mb[e].transitions[kk].target == tt);
        }
    }
    assert(tt != e);
    assert(has_self_star(mb, e)) by {
        let kk = choose|kk: int|
            0 <= kk < ma[e].transitions.len() && (#[trigger] ma[e].transitions[kk]).seg
                == seq!['*'] && ma[e].transitions[kk].target == e;
        assert((#[trigger] mb[e].transitions[kk]).seg == seq!['*'] && mb[e].transitions[kk].target
            == e);
    }
    assert(initial_state(mb, e)) by {
        if e != 0 {
            assert(mb[0].epsilon == ma[0].epsilon);
        }
    }
    assert(crate::builder::eps_have_loops(mb));
    // the terminal is not a lone `*`, so the match is recursive through an
    // epsilon target
    assert(pat != seq!['*']) by {
        assert(pat.len() != 1);
    }
    let t2 = crate::builder::spec_add_epsilon(mb, tt);
    let mc = t2.0;
    let f = t2.1;
    crate::builder::lemma_spec_add_epsilon_props(mb, tt, pid);
    // entering `tt` activates `f`: directly, or through `tt`'s epsilon
    assert(f == tt || mc[tt].epsilon == Some(f)) by {
        if crate::builder::has_self_star(mb, tt) {
        } else if mb[tt].epsilon is Some {
            assert(mc == mb && f == mb[tt].epsilon->0);
        } else {
            assert(mc[tt].epsilon == Some(f));
        }
    }
    assert(exists|kk: int|
        0 <= kk < mc[e].transitions.len() && (#[trigger] mc[e].transitions[kk]).seg == seq!['*']
            && mc[e].transitions[kk].target == tt) by {
        let kk = choose|kk: int|
            0 <= kk < mb[e].transitions.len() && (#[trigger] mb[e].transitions[kk]).seg
                == seq!['*'] && mb[e].transitions[kk].target == tt;
        if e != tt {
            assert(mc[e].transitions == mb[e].transitions);
        }
        assert((#[trigger] mc[e].transitions[kk]).seg == seq!['*'] && mc[e].transitions[kk].target
            == tt);
    }
    assert(has_self_star(mc, e)) by {
        let kk = choose|kk: int|
            0 <= kk < mb[e].transitions.len() && (#[trigger] mb[e].transitions[kk]).seg
                == seq!['*'] && mb[e].transitions[kk].target == e;
        assert(mc[e].transitions == mb[e].transitions);
        assert((#[trigger] mc[e].transitions[kk]).seg == seq!['*'] && mc[e].transitions[kk].target
            == e);
    }
    assert(initial_state(mc, e)) by {
        if e != 0 {
            if tt == 0 {
                assert(mb[0].epsilon is Some);
                assert(mc == mb);
            } else {
                assert(mc[0].epsilon == mb[0].epsilon);
            }
        }
    }
    let mfin = spec_add_pattern(m, "**"@, pid);
    assert(mfin == crate::builder::spec_mark(mc, f, pid));
    assert(initial_state(mfin, e)) by {
        if e != 0 {
            if f == 0 {
                assert(mfin[0].epsilon == mc[0].epsilon);
            } else {
                assert(mfin[0].epsilon == mc[0].epsilon);
            }
        }
    }
    assert(has_self_star(mfin, e)) by {
        let kk = choose|kk: int|
            0 <= kk < mc[e].transitions.len() && (#[trigger] mc[e].transitions[kk]).seg
                == seq!['*'] && mc[e].transitions[kk].target == e;
        assert(mfin[e].transitions == mc[e].transitions);
        assert((#[trigger] mfin[e].transitions[kk]).seg == seq!['*']
            && mfin[e].transitions[kk].target == e);
    }
    assert(edge_to(mfin, e, segs.last(), tt)) by {
        lemma_star_matches_all(segs.last());
        let kk = choose|kk: int|
            0 <= kk < mc[e].transitions.len() && (#[trigger] mc[e].transitions[kk]).seg
                == seq!['*'] && mc[e].transitions[kk].target == tt;
        assert(mfin[e].transitions == mc[e].transitions);
        assert((#[trigger] mfin[e].transitions[kk]).seg == seq!['*']
            && mfin[e].transitions[kk].target == tt);
    }
    assert(terminal_for(mfin, f, pid)) by {
        assert(mfin[f].terminal.last() == pid);
    }
    assert(reach_via(mfin, e, segs.last(), f)) by {
        if f == tt {
        } else {
            assert(mc[tt].epsilon == Some(f));
            assert(mfin[tt].epsilon == mc[tt].epsilon);
            assert(eps_of(mfin, tt, f));
        }
    }
    lemma_initial_star_prefix_runs(mfin, e, segs, segs.len() - 1);
    assert(segs.take(segs.len() - 1) =~~= segs.drop_last());
    assert(run_set(mfin, segs).contains(f)) by {
        assert(run_set(mfin, segs) == step_set(
            mfin,
            run_set(mfin, segs.drop_last()),
            segs.last(),
        ));
    }
}

/// The pattern `**` matches every path with at least one segment, wherever
/// it stands in the rule list.
pub proof fn law_star_star_rule_matches_every_path(rules: Seq<Rule>, i: int, path: Seq<char>)
    requires
        0 <= i < rules.len(),
        rules[i].pattern@ == "**"@,
        path_segments(path).len() >= 1,
    ensures
        rule_matches(rules, path, i),
    decreases rules.len(),
{
    let pats = rule_patterns(rules);
    let prev = rules.drop_last();
    assert(rule_patterns(prev) =~~= pats.drop_last());
    if i == rules.len() - 1 {
        lemma_spec_build_props(rule_patterns(prev));
        assert(pats.last() == "**"@);
        lemma_add_star_star_matches(spec_build(rule_patterns(prev)), i, path_segments(path));
    } else {
        assert(prev[i] == rules[i]);
        law_star_star_rule_matches_every_path(prev, i, path);
        assert(rules =~~= prev.push(rules.last()));
        law_added_rule_preserves_matches(prev, rules.last(), path, i);
    }
}

/// A pure chain of states: state `s` steps only to `s + 1`, and no state
/// has an epsilon edge.
pub open spec fn chain_edges(m: Seq<SpecState>, top: int) -> bool {
    &&& m.len() == top + 1
    &&& top >= 0
    &&& forall|s: int|
        0 <= s < top ==> (#[trigger] m[s]).transitions.len() == 1 && m[s].transitions[0].target
            == s + 1
    &&& m[top].transitions.len() == 0
    &&& forall|s: int| 0 <= s <= top ==> (#[trigger] m[s]).epsilon is None
}

pub open spec fn chain_unmarked(m: Seq<SpecState>, top: int) -> bool {
    forall|s: int| 0 <= s <= top ==> (#[trigger] m[s]).terminal.len() == 0
}

/// Adding a transition at the top of a chain extends the chain by one.
proof fn lemma_chain_step(m: Seq<SpecState>, top: int, seg: Seq<char>)
    requires
        chain_edges(m, top),
        chain_unmarked(m, top),
    ensures
        ({
            let t = crate::builder::spec_add_transition(m, top, seg);
            &&& t.1 == top + 1
            &&& chain_edges(t.0, top + 1)
            &&& chain_unmarked(t.0, top + 1)
        }),
{
    assert(!crate::builder::has_reusable(m, top, seg)) by {
        assert forall|k: int| !crate::builder::is_reusable(m, top, seg, k) by {
            if 0 <= k < m[top].transitions.len() {
            }
        }
    }
    let t = crate::builder::spec_add_transition(m, top, seg);
    let r = t.0;
    assert forall|s: int|
        0 <= s < top + 1 implies (#[trigger] r[s]).transitions.len() == 1
        && r[s].transitions[0].target == s + 1 by {
        if s < top {
            assert(r[s] == m[s]);
        } else {
            assert(r[s].transitions == m[top].transitions.push(
                (crate::nfa::SpecTransition { seg, target: top + 1 }),
            ));
        }
    }
    assert forall|s: int| 0 <= s <= top + 1 implies (#[trigger] r[s]).epsilon is None by {
        if s < top {
            assert(r[s] == m[s]);
        } else if s == top {
            assert(r[s].epsilon == m[top].epsilon);
        } else {
            assert(r[s] == crate::nfa::empty_spec_state());
        }
    }
    assert forall|s: int| 0 <= s <= top + 1 implies (#[trigger] r[s]).terminal.len() == 0 by {
        if s < top {
            assert(r[s] == m[s]);
        } else if s == top {
            assert(r[s].terminal == m[top].terminal);
        } else {
            assert(r[s] == crate::nfa::empty_spec_state());
        }
    }
}

/// Walking `**`-free segments from the top of a chain extends the chain,
/// one state per segment.
proof fn lemma_walk_chain(m: Seq<SpecState>, segs: Seq<Seq<char>>, i: int, top: int)
    requires
        chain_edges(m, top),
        chain_unmarked(m, top),
        0 <= i <= segs.len(),
        forall|k: int| i <= k < segs.len() ==> (#[trigger] segs[k]) != seq!['*', '*'],
    ensures
        ({
            let w = crate::builder::spec_walk(m, segs, i, top);
            &&& w.1 == top + (segs.len() - i)
            &&& chain_edges(w.0, w.1)
            &&& chain_unmarked(w.0, w.1)
        }),
    decreases segs.len() - i,
{
    if i < segs.len() {
        assert(segs[i] != seq!['*', '*']);
        lemma_chain_step(m, top, segs[i]);
        let t = crate::builder::spec_add_transition(m, top, segs[i]);
        lemma_walk_chain(t.0, segs, i + 1, top + 1);
    }
}

/// In a chain, a run can only be at the state numbered like the count of
/// consumed segments.
proof fn lemma_chain_run(m: Seq<SpecState>, top: int, segs: Seq<Seq<char>>, s: int)
    requires
        chain_edges(m, top),
        run_set(m, segs).contains(s),
    ensures
        s == segs.len(),
        segs.len() <= top,
    decreases segs.len(),
{
    broadcast use vstd::set::group_set_axioms;

    if segs.len() == 0 {
        assert(initial_state(m, s));
        assert(m[0].epsilon is None);
    } else {
        let prev = segs.drop_last();
        let last = segs.last();
        let q = choose|q: int| run_set(m, prev).contains(q) && #[trigger] reach_via(m, q, last, s);
        lemma_chain_run(m, top, prev, q);
        if edge_to(m, q, last, s) {
            let k = choose|k: int|
                0 <= k < m[q].transitions.len() && crate::segment::seg_matches(
                    (#[trigger] m[q].transitions[k]).seg,
                    last,
                ) && m[q].transitions[k].target == s;
            assert(q < top);
            assert(s == q + 1);
        } else {
            let t = choose|t: int| #[trigger] edge_to(m, q, last, t) && eps_of(m, t, s);
            assert(m[t].epsilon is None);
            assert(false);
        }
    }
}

/// A lone rule whose pattern is anchored (or multi-segment), free of `**`,
/// and whose final segment is a lone `*` matches only paths of exactly its
/// own depth — its segment count, plus one for a trailing slash. The
/// terminal `*` appends no recursive epsilon, so no deeper path matches.
pub proof fn law_terminal_star_bounds_depth(rules: Seq<Rule>, path: Seq<char>)
    requires
        rules.len() == 1,
        (rules[0].pattern@.len() > 0 && rules[0].pattern@[0] == '/') || pattern_segments(
            rules[0].pattern@,
        ).len() >= 2,
        forall|k: int|
            0 <= k < pattern_segments(rules[0].pattern@).len() ==> (#[trigger] pattern_segments(
                rules[0].pattern@,
            )[k]) != seq!['*', '*'],
        pattern_segments(rules[0].pattern@).last() == seq!['*'],
        rule_matches(rules, path, 0),
    ensures
        path_segments(path).len() == pattern_segments(rules[0].pattern@).len() + (
        if crate::builder::pattern_trailing(rules[0].pattern@) {
            1int
        } else {
            0int
        }),
{
    broadcast use vstd::set::group_set_axioms;

    let pat = rules[0].pattern@;
    let pats = rule_patterns(rules);
    assert(pats.drop_last() =~~= Seq::<Seq<char>>::empty());
    assert(pats.last() == pat);
    let m0 = spec_build(Seq::<Seq<char>>::empty());
    assert(m0 =~~= seq![crate::nfa::empty_spec_state()]);
    assert(chain_edges(m0, 0) && chain_unmarked(m0, 0));
    let anchored = pat.len() > 0 && pat[0] == '/';
    let trailing = crate::builder::pattern_trailing(pat);
    let segs = pattern_segments(pat);
    // anchored or multi-segment: the start does not float
    let w = crate::builder::spec_walk(m0, segs, 0, 0);
    lemma_walk_chain(m0, segs, 0, 0);
    assert(segs.last() != seq!['*', '*']) by {
        assert(segs[segs.len() - 1] != seq!['*', '*']);
    }
    let t1: (Seq<SpecState>, int) = if trailing {
        lemma_chain_step(w.0, w.1, seq!['*']);
        crate::builder::spec_add_transition(w.0, w.1, seq!['*'])
    } else {
        w
    };
    let top = t1.1;
    let mfin = spec_add_pattern(m0, pat, 0);
    assert(mfin == crate::builder::spec_mark(t1.0, top, 0));
    assert(chain_edges(mfin, top) && chain_unmarked(t1.0, top)) by {
        assert forall|s: int|
            0 <= s < top implies (#[trigger] mfin[s]).transitions.len() == 1
            && mfin[s].transitions[0].target == s + 1 by {
            if s != top {
                assert(mfin[s] == t1.0[s]);
            }
        }
        assert(mfin[top].transitions == t1.0[top].transitions);
        assert forall|s: int| 0 <= s <= top implies (#[trigger] mfin[s]).epsilon is None by {
            if s != top {
                assert(mfin[s] == t1.0[s]);
            } else {
                assert(mfin[s].epsilon == t1.0[s].epsilon);
            }
        }
    }
    // the only terminal mark sits at the top of the chain
    let segsp = path_segments(path);
    let s = choose|s: int| #[trigger] run_set(mfin, segsp).contains(s) && terminal_for(mfin, s, 0);
    assert(s == top) by {
        if s != top {
            assert(mfin[s] == t1.0[s]);
            let k = choose|k: int| 0 <= k < mfin[s].terminal.len() && mfin[s].terminal[k] == 0;
            assert(t1.0[s].terminal.len() == 0);
            assert(false);
        }
    }
    lemma_chain_run(mfin, top, segsp, s);
}

} // verus!