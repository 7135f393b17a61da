//! Rule sets: ordered CODEOWNERS rules compiled into one shared automaton.
//!
//! Pattern ids are assigned in file order, so the CODEOWNERS rule that the
//! last match wins is exactly the largest matching id. A winning rule with
//! no owners means the path is explicitly unowned; the query interface
//! folds that together with "no rule matched" into `None`.

use vstd::prelude::*;

use crate::builder::Builder;
use crate::builder::marks_in;
use crate::builder::lemma_spec_build_props;
use crate::builder::spec_build;
use crate::matcher::Matcher;
use crate::nfa::nfa_matches;
use crate::nfa::run_set;
use crate::nfa::terminal_for;
use crate::owner::Owner;
use crate::owner::OwnerView;
use crate::owner::clone_string;
use crate::util::path_segments;

verus! {

/// One CODEOWNERS rule: a pattern and its owners.
#[derive(Debug, Clone, PartialEq, Eq)]
pub struct Rule {
    pub pattern: String,
    pub owners: Vec<Owner>,
}

/// Model of a rule.
#[verifier::ext_equal]
pub ghost struct RuleView {
    pub pattern: Seq<char>,
    pub owners: Seq<OwnerView>,
}

pub open spec fn owner_views(v: Seq<Owner>) -> Seq<OwnerView> {
    Seq::new(v.len(), |i: int| v[i]@)
}

impl View for Rule {
    type V = RuleView;

    open spec fn view(&self) -> RuleView {
        RuleView { pattern: self.pattern@, owners: owner_views(self.owners@) }
    }
}

impl Rule {
    /// A copy of this rule.
    pub fn duplicate(&self) -> (r: Rule)
        ensures
            r@ == self@,
    {
        let mut owners: Vec<Owner> = Vec::new();
        let mut k: usize = 0;
        while k < self.owners.len()
            invariant
                k <= self.owners@.len(),
                owners@.len() == k,
                forall|t: int| 0 <= t < k ==> owners@[t]@ == (#[trigger] self.owners@[t])@,
            decreases self.owners@.len() - k,
        {
            owners.push(self.owners[k].duplicate());
            k = k + 1;
        }
        let r = Rule { pattern: clone_string(&self.pattern), owners };
        proof {
            assert(owner_views(r.owners@) =~~= owner_views(self.owners@));
            assert(r@ =~~= self@);
        }
        r
    }
}

/// The serialized form of the owners of one rule: one leading space before
/// each owner value.
pub open spec fn spec_serialize_owners(os: Seq<Owner>, k: int) -> Seq<char>
    decreases os.len() - k,
{
    if k < 0 || k >= os.len() {
        Seq::empty()
    } else {
        seq![' '] + os[k].value@ + spec_serialize_owners(os, k + 1)
    }
}

/// The serialized form of a rule list: per rule its pattern, its owners
/// each after one space, and a line feed. Comments and spans are not kept.
pub open spec fn spec_serialize(rules: Seq<Rule>, i: int) -> Seq<char>
    decreases rules.len() - i,
{
    if i < 0 || i >= rules.len() {
        Seq::empty()
    } else {
        rules[i].pattern@ + spec_serialize_owners(rules[i].owners@, 0) + seq!['\n']
            + spec_serialize(rules, i + 1)
    }
}

/// Write rules back to CODEOWNERS text: one line per rule, pattern first,
/// then the owners. Parsing the result yields an equivalent rule list.
pub fn serialize_rules(rules: &Vec<Rule>) -> (r: String)
    ensures
        r@ == spec_serialize(rules@, 0),
{
    let mut out = String::new();
    let mut i: usize = 0;
    proof {
        reveal_strlit(" ");
        reveal_strlit("\n");
    }
    while i < rules.len()
        invariant
            i <= rules@.len(),
            out@ + spec_serialize(rules@, i as int) == spec_serialize(rules@, 0),
        decreases rules@.len() - i,
    {
        let rule = &rules[i];
        let ghost out0 = out@;
        out.append(rule.pattern.as_str());
        let mut k: usize = 0;
        proof {
            reveal_strlit(" ");
            assert(out@ + spec_serialize_owners(rule.owners@, 0) =~= out0 + rule.pattern@
                + spec_serialize_owners(rule.owners@, 0));
        }
        while k < rule.owners.len()
            invariant
                k <= rule.owners@.len(),
                out@ + spec_serialize_owners(rule.owners@, k as int) == out0 + rule.pattern@
                    + spec_serialize_owners(rule.owners@, 0),
            decreases rule.owners@.len() - k,
        {
            proof {
                reveal_strlit(" ");
            }
            let ghost outp = out@;
            out.append(" ");
            out.append(rule.owners[k].value.as_str());
            proof {
                assert(" "@ =~= seq![' ']);
                assert(out@ =~= outp + (seq![' '] + rule.owners@[k as int].value@));
                assert(spec_serialize_owners(rule.owners@, k as int) =~= seq![' ']
                    + rule.owners@[k as int].value@ + spec_serialize_owners(
                    rule.owners@,
                    k + 1,
                ));
            }
            k = k + 1;
        }
        proof {
            reveal_strlit("\n");
        }
        let ghost outq = out@;
        out.append("\n");
        proof {
            assert("\n"@ =~= seq!['\n']);
            assert(out@ =~= outq + seq!['\n']);
            assert(spec_serialize(rules@, i as int) =~= rules@[i as int].pattern@
                + spec_serialize_owners(rules@[i as int].owners@, 0) + seq!['\n']
                + spec_serialize(rules@, i + 1));
            assert(rule.owners@ == rules@[i as int].owners@);
            assert(out@ + spec_serialize(rules@, i + 1) =~= out0 + spec_serialize(
                rules@,
                i as int,
            ));
        }
        i = i + 1;
    }
    proof {
        assert(out@ =~= out@ + spec_serialize(rules@, rules@.len() as int));
    }
    out
}

/// The patterns of a rule list, in file order.
pub open spec fn rule_patterns(rs: Seq<Rule>) -> Seq<Seq<char>> {
    Seq::new(rs.len(), |i: int| rs[i].pattern@)
}

/// Rule `pid` of `rules` matches `path` under the automaton built from the
/// rules' patterns.
pub open spec fn rule_matches(rules: Seq<Rule>, path: Seq<char>, pid: int) -> bool {
    nfa_matches(spec_build(rule_patterns(rules)), path_segments(path), pid)
}

/// `w` is the last matching rule in file order.
pub open spec fn is_winner(rules: Seq<Rule>, path: Seq<char>, w: int) -> bool {
    &&& rule_matches(rules, path, w)
    &&& forall|j: int| #[trigger] rule_matches(rules, path, j) ==> j <= w
}

/// A matching rule id is the id of an actual rule.
pub proof fn lemma_match_bounded(rules: Seq<Rule>, path: Seq<char>, pid: int)
    requires
        rule_matches(rules, path, pid),
    ensures
        0 <= pid < rules.len(),
{
    lemma_spec_build_props(rule_patterns(rules));
    let m = spec_build(rule_patterns(rules));
    let segs = path_segments(path);
    let s = choose|s: int| #[trigger] run_set(m, segs).contains(s) && terminal_for(m, s, pid);
    assert(m[s].terminal.contains(pid));
    let k = choose|k: int| 0 <= k < m[s].terminal.len() && m[s].terminal[k] == pid;
    assert(marks_in(m, rule_patterns(rules).len() as int));
}

/// A set of CODEOWNERS rules compiled for matching.
pub struct RuleSet {
    pub rules: Vec<Rule>,
    pub matcher: Matcher,
}

impl RuleSet {
    /// The compiled automaton is the one built from the rules' patterns, in
    /// order.
    pub open spec fn wf(&self) -> bool {
        &&& self.matcher.wf()
        &&& self.matcher.nfa@ == spec_build(rule_patterns(self.rules@))
    }

    /// Compile a rule list; rule `i` gets pattern id `i`.
    pub fn new(rules: Vec<Rule>) -> (r: RuleSet)
        ensures
            r.wf(),
            r.rules@ == rules@,
    {
        let ghost pats = rule_patterns(rules@);
        let mut builder = Builder::new();
        proof {
            assert(pats.take(0) =~~= Seq::<Seq<char>>::empty());
            assert(builder.nfa@ == spec_build(pats.take(0)));
        }
        let mut i: usize = 0;
        while i < rules.len()
            invariant
                i <= rules@.len(),
                pats == rule_patterns(rules@),
                pats.len() == rules@.len(),
                builder.wf(),
                builder.next_pattern_id == i,
                builder.nfa@ == spec_build(pats.take(i as int)),
            decreases rules@.len() - i,
        {
            let id = builder.add(rules[i].pattern.as_str());
            proof {
                assert(pats.take(i + 1).drop_last() =~~= pats.take(i as int));
                assert(pats.take(i + 1).last() == pats[i as int]);
                assert(pats[i as int] == rules@[i as int].pattern@);
                assert(builder.nfa@ == spec_build(pats.take(i + 1)));
            }
            i = i + 1;
        }
        proof {
            assert(pats.take(rules@.len() as int) =~~= pats);
        }
        let matcher = builder.build();
        RuleSet { rules, matcher }
    }

    /// A copy of this rule set for a worker of its own: the same rules,
    /// compiled afresh, with an empty prefix cache.
    pub fn duplicate(&self) -> (r: RuleSet)
        ensures
            r.wf(),
            r.rules@.len() == self.rules@.len(),
            forall|i: int|
                0 <= i < self.rules@.len() ==> (#[trigger] r.rules@[i])@ == self.rules@[i]@,
    {
        let mut rules: Vec<Rule> = Vec::new();
        let mut k: usize = 0;
        while k < self.rules.len()
            invariant
                k <= self.rules@.len(),
                rules@.len() == k,
                forall|t: int| 0 <= t < k ==> (#[trigger] rules@[t])@ == self.rules@[t]@,
            decreases self.rules@.len() - k,
        {
            rules.push(self.rules[k].duplicate());
            k = k + 1;
        }
        RuleSet::new(rules)
    }

    /// The id of the winning (last matching) rule, if any rule matches.
    fn winning_id(&mut self, path: &str) -> (r: Option<usize>)
        requires
            old(self).wf(),
        ensures
            final(self).wf(),
            final(self).rules@ == old(self).rules@,
            (match r {
                Some(w) => 0 <= w < old(self).rules@.len() && is_winner(
                    old(self).rules@,
                    path@,
                    w as int,
                ),
                None => forall|j: int| !rule_matches(old(self).rules@, path@, j),
            }),
    {
        let ghost rulesv = self.rules@;
        let ids = self.matcher.matching_patterns(path);
        let mut best: usize = 0;
        let mut have = false;
        let mut k: usize = 0;
        while k < ids.len()
            invariant
                k <= ids@.len(),
                have == (k > 0),
                have ==> ids@.contains(best),
                forall|t: int| 0 <= t < k ==> ids@[t] <= best,
            decreases ids@.len() - k,
        {
            let x = ids[k];
            if !have || x > best {
                best = x;
                have = true;
                proof {
                    assert(ids@[k as int] == x);
                }
            }
            proof {
                assert(ids@[k as int] <= best);
            }
            k = k + 1;
        }
        if have {
            proof {
                assert(rule_matches(rulesv, path@, best as int));
                lemma_match_bounded(rulesv, path@, best as int);
                assert forall|j: int| #[trigger]
                    rule_matches(rulesv, path@, j) implies j <= best as int by {
                    lemma_match_bounded(rulesv, path@, j);
                    assert(ids@.contains(j as usize));
                    let t = choose|t: int| 0 <= t < ids@.len() && ids@[t] == j as usize;
                }
            }
            Some(best)
        } else {
            proof {
                assert forall|j: int| !rule_matches(rulesv, path@, j) by {
                    if rule_matches(rulesv, path@, j) {
                        lemma_match_bounded(rulesv, path@, j);
                        assert(ids@.contains(j as usize));
                        let t = choose|t: int| 0 <= t < ids@.len() && ids@[t] == j as usize;
                        assert(false);
                    }
                }
            }
            None
        }
    }

    /// The matching rule for the path: the last one in file order, or
    /// `None` when no rule matches.
    pub fn matching_rule(&mut self, path: &str) -> (r: Option<Rule>)
        requires
            old(self).wf(),
        ensures
            final(self).wf(),
            final(self).rules@ == old(self).rules@,
            (match r {
                Some(rule) => exists|w: int|
                    0 <= w < old(self).rules@.len() && #[trigger] is_winner(
                        old(self).rules@,
                        path@,
                        w,
                    ) && rule@ == old(self).rules@[w]@,
                None => forall|j: int| !rule_matches(old(self).rules@, path@, j),
            }),
    {
        match self.winning_id(path) {
            Some(w) => {
                let rule = self.rules[w].duplicate();
                proof {
                    assert(is_winner(self.rules@, path@, w as int));
                }
                Some(rule)
            },
            None => None,
        }
    }

    /// The owners of the path: those of the winning rule. `None` when no
    /// rule matches or the winning rule has no owners; the two cases are
    /// not distinguished.
    pub fn owners(&mut self, path: &str) -> (r: Option<Vec<Owner>>)
        requires
            old(self).wf(),
        ensures
            final(self).wf(),
            final(self).rules@ == old(self).rules@,
            (match r {
                Some(os) => exists|w: int|
                    0 <= w < old(self).rules@.len() && #[trigger] is_winner(
                        old(self).rules@,
                        path@,
                        w,
                    ) && old(self).rules@[w]@.owners.len() > 0 && owner_views(os@) == old(
                        self,
                    ).rules@[w]@.owners,
                None => (forall|j: int| !rule_matches(old(self).rules@, path@, j)) || (exists|w: int|
                    0 <= w < old(self).rules@.len() && #[trigger] is_winner(
                        old(self).rules@,
                        path@,
                        w,
                    ) && old(self).rules@[w]@.owners.len() == 0),
            }),
    {
        match self.matching_rule(path) {
            Some(rule) => {
                if rule.owners.len() == 0 {
                    None
                } else {
                    proof {
                        let w = choose|w: int|
                            0 <= w < old(self).rules@.len() && #[trigger] is_winner(
                                old(self).rules@,
                                path@,
                                w,
                            ) && rule@ == old(self).rules@[w]@;
                        assert(owner_views(rule.owners@) == old(self).rules@[w]@.owners);
                    }
                    Some(rule.owners)
                }
            },
            None => None,
        }
    }

    /// Every matching rule, once, with its id; order is unspecified, and
    /// the largest id wins.
    pub fn all_matching_rules(&mut self, path: &str) -> (r: Vec<(usize, Rule)>)
        requires
            old(self).wf(),
        ensures
            final(self).wf(),
            final(self).rules@ == old(self).rules@,
            forall|z: int|
                0 <= z < r@.len() ==> rule_matches(
                    old(self).rules@,
                    path@,
                    (#[trigger] r@[z]).0 as int,
                ) && r@[z].0 < old(self).rules@.len() && r@[z].1@ == old(
                    self,
                ).rules@[r@[z].0 as int]@,
            forall|pid: int|
                #[trigger] rule_matches(old(self).rules@, path@, pid) ==> exists|z: int|
                    0 <= z < r@.len() && (#[trigger] r@[z]).0 == pid,
            forall|z1: int, z2: int|
                0 <= z1 < r@.len() && 0 <= z2 < r@.len() && (#[trigger] r@[z1]).0 == (
                #[trigger] r@[z2]).0 ==> z1 == z2,
    {
        let ghost rulesv = self.rules@;
        let ids = self.matcher.matching_patterns(path);
        let mut out: Vec<(usize, Rule)> = Vec::new();
        let mut k: usize = 0;
        while k < ids.len()
            invariant
                k <= ids@.len(),
                self.wf(),
                rulesv == self.rules@,
                forall|pid: usize| #[trigger]
                    ids@.contains(pid) <==> rule_matches(rulesv, path@, pid as int),
                forall|t: int|
                    #![trigger ids@[t]]
                    0 <= t < k ==> exists|z: int|
                        0 <= z < out@.len() && (#[trigger] out@[z]).0 == ids@[t],
                forall|z: int| 0 <= z < out@.len() ==> ids@.contains((#[trigger] out@[z]).0),
                forall|z: int|
                    0 <= z < out@.len() ==> (#[trigger] out@[z]).0 < rulesv.len() && out@[z].1@
                        == rulesv[out@[z].0 as int]@,
                forall|z1: int, z2: int|
                    0 <= z1 < out@.len() && 0 <= z2 < out@.len() && (#[trigger] out@[z1]).0 == (
                    #[trigger] out@[z2]).0 ==> z1 == z2,
            decreases ids@.len() - k,
        {
            let id = ids[k];
            proof {
                assert(ids@[k as int] == id);
                assert(ids@.contains(id));
                lemma_match_bounded(rulesv, path@, id as int);
            }
            if !contains_id(&out, id) {
                let rule = self.rules[id].duplicate();
                let ghost oldout = out@;
                out.push((id, rule));
                proof {
                    assert forall|t: int| #![trigger ids@[t]]
                        0 <= t < k + 1 implies exists|z: int|
                        0 <= z < out@.len() && (#[trigger] out@[z]).0 == ids@[t] by {
                        if t < k {
                            let z = choose|z: int|
                                0 <= z < oldout.len() && (#[trigger] oldout[z]).0 == ids@[t];
                            assert(out@[z].0 == ids@[t]);
                        } else {
                            assert(out@[oldout.len() as int].0 == id);
                        }
                    }
                }
            } else {
                proof {
                    assert forall|t: int| #![trigger ids@[t]]
                        0 <= t < k + 1 implies exists|z: int|
                        0 <= z < out@.len() && (#[trigger] out@[z]).0 == ids@[t] by {
                        if t < k {
                        } else {
                            assert(exists|z: int|
                                0 <= z < out@.len() && (#[trigger] out@[z]).0 == id);
                        }
                    }
                }
            }
            k = k + 1;
        }
        proof {
            assert forall|pid: int|
                #[trigger] rule_matches(rulesv, path@, pid) implies exists|z: int|
                0 <= z < out@.len() && (#[trigger] out@[z]).0 == pid by {
                lemma_match_bounded(rulesv, path@, pid);
                assert(ids@.contains(pid as usize));
                let t = choose|t: int| 0 <= t < ids@.len() && ids@[t] == pid as usize;
                assert(exists|z: int| 0 <= z < out@.len() && (#[trigger] out@[z]).0 == ids@[t]);
            }
            assert forall|z: int| 0 <= z < out@.len() implies rule_matches(
                rulesv,
                path@,
                (#[trigger] out@[z]).0 as int,
            ) by {
                assert(ids@.contains(out@[z].0));
            }
        }
        out
    }
}

/// Does an entry with this id occur in the list?
fn contains_id(v: &Vec<(usize, Rule)>, id: usize) -> (r: bool)
    ensures
        r == exists|z: int| 0 <= z < v@.len() && (#[trigger] v@[z]).0 == id,
{
    let mut z: usize = 0;
    while z < v.len()
        invariant
            z <= v@.len(),
            forall|t: int| 0 <= t < z ==> (#[trigger] v@[t]).0 != id,
        decreases v@.len() - z,
    {
        if v[z].0 == id {
            proof {
                assert(v@[z as int].0 == id);
            }
            return true;
        }
        z = z + 1;
    }
    false
}

} // verus!
