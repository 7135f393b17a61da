//! Compiling glob patterns into the shared automaton.
//!
//! `spec_add_pattern` is the mathematical mirror of the compilation of one
//! pattern; [`Builder::add`] is proved to transform the automaton exactly as
//! the mirror says. Pattern ids are dense and assigned in insertion order.

use vstd::prelude::*;

use crate::nfa::Nfa;
use crate::nfa::SpecState;
use crate::nfa::SpecTransition;
use crate::nfa::StateId;
use crate::nfa::empty_spec_state;
use crate::nfa::terminal_for;
use crate::nfa::unique_edges;
use crate::nfa::valid_state;
use crate::nfa::wf_model;
use crate::util::chars_eq;
use crate::util::chars_of;
use crate::util::clone_chars;
use crate::util::lemma_split_on_len;
use crate::matcher::Matcher;
use crate::util::split_chars;
use crate::util::split_on;

verus! {

/// Transition `k` out of `from` is labelled `seg` and is no self-loop, so
/// compiling another pattern may reuse it.
pub open spec fn is_reusable(m: Seq<SpecState>, from: int, seg: Seq<char>, k: int) -> bool {
    0 <= k < m[from].transitions.len() && m[from].transitions[k].seg == seg
        && m[from].transitions[k].target != from
}

pub open spec fn has_reusable(m: Seq<SpecState>, from: int, seg: Seq<char>) -> bool {
    exists|k: int| is_reusable(m, from, seg, k)
}

/// `from` carries a `*` self-loop (it is the target of an epsilon edge).
pub open spec fn has_self_star(m: Seq<SpecState>, from: int) -> bool {
    exists|k: int|
        0 <= k < m[from].transitions.len() && (#[trigger] m[from].transitions[k]).seg
            == seq!['*'] && m[from].transitions[k].target == from
}

/// Every epsilon target carries a `*` self-loop: an epsilon edge models
/// `**`, whose zero-or-more segments the self-loop consumes.
pub open spec fn eps_have_loops(m: Seq<SpecState>) -> bool {
    forall|s: int|
        0 <= s < m.len() && (#[trigger] m[s].epsilon) is Some ==> has_self_star(
            m,
            m[s].epsilon->0,
        )
}

/// Mirror of adding a plain transition: reuse the unique non-self edge with
/// this label, or allocate a new state and edge to it.
pub open spec fn spec_add_transition(m: Seq<SpecState>, from: int, seg: Seq<char>) -> (
    Seq<SpecState>,
    int,
) {
    if has_reusable(m, from, seg) {
        let k = choose|k: int| is_reusable(m, from, seg, k);
        (m, m[from].transitions[k].target)
    } else {
        let nid = m.len() as int;
        let m1 = m.push(empty_spec_state());
        let m2 = m1.update(
            from,
            (SpecState {
                transitions: m1[from].transitions.push((SpecTransition { seg, target: nid })),
                ..m1[from]
            }),
        );
        (m2, nid)
    }
}

/// Mirror of adding an epsilon edge: a state that already has a `*`
/// self-loop absorbs it (consecutive `**` coalesce); an existing epsilon
/// target is reused; otherwise a new self-looping state is allocated.
pub open spec fn spec_add_epsilon(m: Seq<SpecState>, from: int) -> (Seq<SpecState>, int) {
    if has_self_star(m, from) {
        (m, from)
    } else if m[from].epsilon is Some {
        (m, m[from].epsilon->0)
    } else {
        let e = m.len() as int;
        let m1 = m.push(
            (SpecState {
                terminal: Seq::empty(),
                transitions: seq![SpecTransition { seg: seq!['*'], target: e }],
                epsilon: None,
            }),
        );
        let m2 = m1.update(from, (SpecState { epsilon: Some(e), ..m1[from] }));
        (m2, e)
    }
}

/// Mirror of threading the pattern's segments through the automaton.
pub open spec fn spec_walk(m: Seq<SpecState>, segs: Seq<Seq<char>>, i: int, cur: int) -> (
    Seq<SpecState>,
    int,
)
    decreases segs.len() - i,
{
    if i < 0 || i >= segs.len() {
        (m, cur)
    } else {
        let step = if segs[i] == seq!['*', '*'] {
            spec_add_epsilon(m, cur)
        } else {
            spec_add_transition(m, cur, segs[i])
        };
        spec_walk(step.0, segs, i + 1, step.1)
    }
}

pub open spec fn spec_mark(m: Seq<SpecState>, s: int, pid: int) -> Seq<SpecState> {
    m.update(s, (SpecState { terminal: m[s].terminal.push(pid), ..m[s] }))
}

/// Mirror of compiling one whole pattern, per the CODEOWNERS dialect:
/// a leading `/` anchors; a multi-segment pattern is anchored anyway; a
/// trailing `/` or a final `**` demands one more segment; every terminal
/// except a lone final `*` matches recursively.
pub open spec fn spec_add_pattern(m: Seq<SpecState>, pat: Seq<char>, pid: int) -> Seq<SpecState> {
    let anchored = pat.len() > 0 && pat[0] == '/';
    let p1 = if anchored {
        pat.skip(1)
    } else {
        pat
    };
    let trailing = p1.len() > 0 && p1.last() == '/';
    let p2 = if trailing {
        p1.drop_last()
    } else {
        p1
    };
    let segs = split_on(p2, '/');
    let s0: (Seq<SpecState>, int) = if !anchored && segs.len() == 1 {
        spec_add_epsilon(m, 0)
    } else {
        (m, 0)
    };
    let w = spec_walk(s0.0, segs, 0, s0.1);
    let t1: (Seq<SpecState>, int) = if trailing || segs.last() == seq!['*', '*'] {
        spec_add_transition(w.0, w.1, seq!['*'])
    } else {
        w
    };
    let t2: (Seq<SpecState>, int) = if segs.last() != seq!['*'] {
        spec_add_epsilon(t1.0, t1.1)
    } else {
        t1
    };
    spec_mark(t2.0, t2.1, pid)
}

/// Compiles patterns, in order, into one shared automaton.
pub struct Builder {
    pub nfa: Nfa,
    pub next_pattern_id: usize,
}

impl Builder {
    pub open spec fn wf(&self) -> bool {
        &&& self.nfa.wf()
        &&& unique_edges(self.nfa@)
        &&& eps_have_loops(self.nfa@)
    }

    /// A builder holding an empty automaton and no patterns.
    pub fn new() -> (r: Builder)
        ensures
            r.wf(),
            r.nfa@ =~~= seq![empty_spec_state()],
            r.next_pattern_id == 0,
    {
        Builder { nfa: Nfa::new(), next_pattern_id: 0 }
    }

    /// Freeze the automaton and wrap it in a matcher.
    pub fn build(self) -> (r: Matcher)
        requires
            self.wf(),
        ensures
            r.wf(),
            r.nfa@ == self.nfa@,
    {
        Matcher::new(self.nfa)
    }

    /// The unique reusable transition out of `from` labelled `seg`, if any.
    fn find_reusable(&self, from: StateId, seg: &Vec<char>) -> (r: Option<StateId>)
        requires
            from.0 < self.nfa@.len(),
        ensures
            (match r {
                Some(t) => exists|k: int|
                    is_reusable(self.nfa@, from.0 as int, seg@, k) && #[trigger] self.nfa@[from.0 as int].transitions[k].target
                        == t.0 as int,
                None => !has_reusable(self.nfa@, from.0 as int, seg@),
            }),
    {
        let ghost f = from.0 as int;
        let st = &self.nfa.states[from.0];
        let n = st.transitions.len();
        proof {
            assert(self.nfa@[f].transitions.len() == n);
        }
        let mut k: usize = 0;
        while k < n
            invariant
                k <= n,
                from.0 < self.nfa@.len(),
                f == from.0 as int,
                st == self.nfa.states@[f],
                n == st.transitions@.len(),
                n == self.nfa@[f].transitions.len(),
                forall|t: int| 0 <= t < k ==> !is_reusable(self.nfa@, f, seg@, t),
            decreases n - k,
        {
            let tr = &st.transitions[k];
            proof {
                assert(self.nfa@[f].transitions[k as int] == tr@);
            }
            if tr.target.0 != from.0 && chars_eq(&tr.path_segment, seg) {
                proof {
                    assert(is_reusable(self.nfa@, f, seg@, k as int));
                }
                return Some(tr.target);
            }
            k = k + 1;
        }
        proof {
            assert forall|t: int| !is_reusable(self.nfa@, f, seg@, t) by {
                if 0 <= t < n {
                    assert(!is_reusable(self.nfa@, f, seg@, t));
                }
            }
        }
        None
    }

    /// Does `from` carry a `*` self-loop?
    fn self_star(&self, from: StateId) -> (r: bool)
        requires
            from.0 < self.nfa@.len(),
        ensures
            r == has_self_star(self.nfa@, from.0 as int),
    {
        let ghost f = from.0 as int;
        let st = &self.nfa.states[from.0];
        let n = st.transitions.len();
        proof {
            assert(self.nfa@[f].transitions.len() == n);
        }
        let mut k: usize = 0;
        while k < n
            invariant
                k <= n,
                from.0 < self.nfa@.len(),
                f == from.0 as int,
                st == self.nfa.states@[f],
                n == st.transitions@.len(),
                n == self.nfa@[f].transitions.len(),
                forall|t: int|
                    0 <= t < k ==> !((#[trigger] self.nfa@[f].transitions[t]).seg == seq!['*']
                        && self.nfa@[f].transitions[t].target == f),
            decreases n - k,
        {
            let tr = &st.transitions[k];
            proof {
                assert(self.nfa@[f].transitions[k as int] == tr@);
            }
            if tr.target.0 == from.0 && tr.path_segment.len() == 1 && tr.path_segment[0] == '*' {
                proof {
                    assert(tr.path_segment@ =~= seq!['*']);
                }
                return true;
            }
            proof {
                if tr.path_segment@ == seq!['*'] && tr.target.0 == from.0 {
                    assert(tr.path_segment@.len() == 1 && tr.path_segment@[0] == '*');
                    assert(false);
                }
            }
            k = k + 1;
        }
        false
    }

    /// Add a plain transition out of `from`, reusing an existing edge with
    /// the same label when possible.
    fn add_transition(&mut self, from: StateId, seg: Vec<char>) -> (r: StateId)
        requires
            old(self).wf(),
            from.0 < old(self).nfa@.len(),
        ensures
            final(self).wf(),
            final(self).nfa@ == spec_add_transition(old(self).nfa@, from.0 as int, seg@).0,
            r.0 as int == spec_add_transition(old(self).nfa@, from.0 as int, seg@).1,
            r.0 < final(self).nfa@.len(),
            old(self).nfa@.len() <= final(self).nfa@.len(),
            final(self).next_pattern_id == old(self).next_pattern_id,
    {
        let ghost m = self.nfa@;
        let ghost f = from.0 as int;
        let found = self.find_reusable(from, &seg);
        match found {
            Some(t) => {
                proof {
                    let k0 = choose|k: int|
                        is_reusable(m, f, seg@, k) && self.nfa@[f].transitions[k].target
                            == t.0 as int;
                    let kc = choose|k: int| is_reusable(m, f, seg@, k);
                    assert(is_reusable(m, f, seg@, k0));
                    assert(is_reusable(m, f, seg@, kc));
                    assert(k0 == kc);
                    assert(valid_state(m, m[f].transitions[k0].target));
                }
                t
            },
            None => {
                let nid = self.nfa.add_state();
                let ghost m1 = self.nfa@;
                self.nfa.push_transition(from, seg, nid);
                proof {
                    assert(final(self).nfa@ =~~= spec_add_transition(m, f, seg@).0);
                    lemma_add_transition_new_wf(m, f, seg@);
                }
                nid
            },
        }
    }

    /// Add an epsilon edge out of `from`, coalescing consecutive `**`.
    fn add_epsilon(&mut self, from: StateId) -> (r: StateId)
        requires
            old(self).wf(),
            from.0 < old(self).nfa@.len(),
        ensures
            final(self).wf(),
            final(self).nfa@ == spec_add_epsilon(old(self).nfa@, from.0 as int).0,
            r.0 as int == spec_add_epsilon(old(self).nfa@, from.0 as int).1,
            r.0 < final(self).nfa@.len(),
            old(self).nfa@.len() <= final(self).nfa@.len(),
            final(self).next_pattern_id == old(self).next_pattern_id,
    {
        let ghost m = self.nfa@;
        let ghost f = from.0 as int;
        if self.self_star(from) {
            return from;
        }
        match self.nfa.epsilon_of(from) {
            Some(e) => {
                proof {
                    assert(valid_state(m, m[f].epsilon->0));
                }
                e
            },
            None => {
                let e = self.nfa.add_state();
                let star = vec!['*'];
                proof {
                    assert(star@ =~= seq!['*']);
                }
                self.nfa.push_transition(e, star, e);
                self.nfa.set_epsilon(from, e);
                proof {
                    assert(final(self).nfa@ =~~= spec_add_epsilon(m, f).0);
                    lemma_add_epsilon_new_wf(m, f);
                }
                e
            },
        }
    }

    /// Compile `pattern`, returning its dense id (the number of patterns
    /// added before it).
    pub fn add(&mut self, pattern: &str) -> (id: usize)
        requires
            old(self).wf(),
            old(self).next_pattern_id < usize::MAX,
        ensures
            final(self).wf(),
            id == old(self).next_pattern_id,
            final(self).next_pattern_id == id + 1,
            final(self).nfa@ == spec_add_pattern(old(self).nfa@, pattern@, id as int),
    {
        let ghost m0 = self.nfa@;
        let id = self.next_pattern_id;
        self.next_pattern_id = id + 1;

        let mut v = chars_of(pattern);
        let anchored = v.len() > 0 && v[0] == '/';
        if anchored {
            v.remove(0);
            proof {
                assert(v@ =~= pattern@.skip(1));
            }
        }
        let ghost p1 = v@;
        let trailing = v.len() > 0 && v[v.len() - 1] == '/';
        if trailing {
            v.pop();
            proof {
                assert(v@ =~= p1.drop_last());
            }
        }
        let segs = split_chars(&v, '/');
        let ghost segsv = split_on(v@, '/');
        proof {
            lemma_split_on_len(v@, '/');
            assert(segs.deep_view() == segsv);
            assert(segs@.len() == segsv.len());
        }
        let mut cur = StateId(0);
        if !anchored && segs.len() == 1 {
            cur = self.add_epsilon(StateId(0));
        }
        let ghost s0: (Seq<SpecState>, int) = if !anchored && segsv.len() == 1 {
            spec_add_epsilon(m0, 0)
        } else {
            (m0, 0)
        };
        proof {
            assert(self.nfa@ == s0.0 && cur.0 as int == s0.1);
        }
        let ghost w = spec_walk(s0.0, segsv, 0, s0.1);
        let mut i: usize = 0;
        while i < segs.len()
            invariant
                i <= segs@.len(),
                segs.deep_view() == segsv,
                segs@.len() == segsv.len(),
                self.wf(),
                cur.0 < self.nfa@.len(),
                w == spec_walk(s0.0, segsv, 0, s0.1),
                w == spec_walk(self.nfa@, segsv, i as int, cur.0 as int),
                self.next_pattern_id == id + 1,
            decreases segs@.len() - i,
        {
            let seg = clone_chars(&segs[i]);
            proof {
                assert(segs@[i as int]@ == segsv[i as int]);
                assert(seg@ == segsv[i as int]);
            }
            if seg.len() == 2 && seg[0] == '*' && seg[1] == '*' {
                proof {
                    assert(seg@ =~= seq!['*', '*']);
                }
                cur = self.add_epsilon(cur);
            } else {
                proof {
                    if seg@.len() == 2 && seg@[0] == '*' && seg@[1] == '*' {
                        assert(seg@ =~= seq!['*', '*']);
                        assert(false);
                    }
                }
                cur = self.add_transition(cur, seg);
            }
            i = i + 1;
        }
        proof {
            assert(self.nfa@ == w.0 && cur.0 as int == w.1);
        }
        let lastix = segs.len() - 1;
        let last_is_double = {
            let l = &segs[lastix];
            l.len() == 2 && l[0] == '*' && l[1] == '*'
        };
        let last_is_single = {
            let l = &segs[lastix];
            l.len() == 1 && l[0] == '*'
        };
        proof {
            let l = segs@[lastix as int]@;
            assert(l == segsv.last());
            if last_is_double {
                assert(segsv.last() =~= seq!['*', '*']);
            } else if segsv.last() == seq!['*', '*'] {
                assert(l.len() == 2 && l[0] == '*' && l[1] == '*');
                assert(false);
            }
            if last_is_single {
                assert(segsv.last() =~= seq!['*']);
            } else if segsv.last() == seq!['*'] {
                assert(l.len() == 1 && l[0] == '*');
                assert(false);
            }
        }
        if trailing || last_is_double {
            let star = vec!['*'];
            proof {
                assert(star@ =~= seq!['*']);
            }
            cur = self.add_transition(cur, star);
        }
        let ghost t1: (Seq<SpecState>, int) = if trailing || segsv.last() == seq!['*', '*'] {
            spec_add_transition(w.0, w.1, seq!['*'])
        } else {
            w
        };
        proof {
            assert(self.nfa@ == t1.0 && cur.0 as int == t1.1);
        }
        if !last_is_single {
            cur = self.add_epsilon(cur);
        }
        let ghost t2: (Seq<SpecState>, int) = if segsv.last() != seq!['*'] {
            spec_add_epsilon(t1.0, t1.1)
        } else {
            t1
        };
        proof {
            assert(self.nfa@ == t2.0 && cur.0 as int == t2.1);
        }
        self.nfa.mark_terminal(cur, id);
        proof {
            assert(final(self).nfa@ =~~= spec_mark(t2.0, t2.1, id as int));
            lemma_mark_wf(t2.0, t2.1, id as int);
            assert(final(self).nfa@ == spec_add_pattern(m0, pattern@, id as int));
        }
        id
    }
}

/// The automaton of a whole pattern list, built left to right; pattern `i`
/// gets id `i`.
pub open spec fn spec_build(pats: Seq<Seq<char>>) -> Seq<SpecState>
    decreases pats.len(),
{
    if pats.len() == 0 {
        seq![empty_spec_state()]
    } else {
        spec_add_pattern(spec_build(pats.drop_last()), pats.last(), pats.len() - 1)
    }
}

/// All terminal marks are pattern ids below `bound`.
pub open spec fn marks_in(m: Seq<SpecState>, bound: int) -> bool {
    forall|s: int, k: int|
        valid_state(m, s) && 0 <= k < m[s].terminal.len() ==> 0 <= #[trigger] m[s].terminal[k]
            < bound
}

/// Adding a transition preserves well-formedness, label uniqueness and the
/// bound on terminal marks, and yields a valid target state.
pub proof fn lemma_spec_add_transition_props(m: Seq<SpecState>, from: int, seg: Seq<char>, bound: int)
    requires
        wf_model(m),
        unique_edges(m),
        0 <= from < m.len(),
        marks_in(m, bound),
    ensures
        wf_model(spec_add_transition(m, from, seg).0),
        unique_edges(spec_add_transition(m, from, seg).0),
        marks_in(spec_add_transition(m, from, seg).0, bound),
        valid_state(spec_add_transition(m, from, seg).0, spec_add_transition(m, from, seg).1),
        m.len() <= spec_add_transition(m, from, seg).0.len(),
        eps_have_loops(m) ==> eps_have_loops(spec_add_transition(m, from, seg).0),
{
    let r = spec_add_transition(m, from, seg).0;
    let t = spec_add_transition(m, from, seg).1;
    if has_reusable(m, from, seg) {
        let k = choose|k: int| is_reusable(m, from, seg, k);
        assert(valid_state(m, m[from].transitions[k].target));
    } else {
        lemma_add_transition_new_wf(m, from, seg);
        assert forall|s: int, k: int|
            valid_state(r, s) && 0 <= k < r[s].terminal.len() implies 0 <= #[trigger] r[s].terminal[k]
            < bound by {
            if s == from {
                assert(r[s].terminal == m[s].terminal);
                assert(m[s].terminal[k] == r[s].terminal[k]);
            } else if s < m.len() {
                assert(r[s] == m[s]);
                assert(m[s].terminal[k] == r[s].terminal[k]);
            } else {
                assert(r[s] == empty_spec_state());
            }
        }
    }
}

/// Adding an epsilon edge preserves well-formedness, label uniqueness and
/// the bound on terminal marks, and yields a valid target state.
pub proof fn lemma_spec_add_epsilon_props(m: Seq<SpecState>, from: int, bound: int)
    requires
        wf_model(m),
        unique_edges(m),
        0 <= from < m.len(),
        marks_in(m, bound),
    ensures
        wf_model(spec_add_epsilon(m, from).0),
        unique_edges(spec_add_epsilon(m, from).0),
        marks_in(spec_add_epsilon(m, from).0, bound),
        valid_state(spec_add_epsilon(m, from).0, spec_add_epsilon(m, from).1),
        m.len() <= spec_add_epsilon(m, from).0.len(),
        eps_have_loops(m) ==> eps_have_loops(spec_add_epsilon(m, from).0),
{
    let r = spec_add_epsilon(m, from).0;
    if has_self_star(m, from) {
    } else if m[from].epsilon is Some {
        assert(valid_state(m, m[from].epsilon->0));
    } else {
        lemma_add_epsilon_new_wf(m, from);
        assert forall|s: int, k: int|
            valid_state(r, s) && 0 <= k < r[s].terminal.len() implies 0 <= #[trigger] r[s].terminal[k]
            < bound by {
            if s == from {
                assert(r[s].terminal == m[s].terminal);
                assert(m[s].terminal[k] == r[s].terminal[k]);
            } else if s < m.len() {
                assert(r[s] == m[s]);
                assert(m[s].terminal[k] == r[s].terminal[k]);
            }
        }
    }
}

/// Walking a pattern's segments preserves the builder invariants.
pub proof fn lemma_spec_walk_props(
    m: Seq<SpecState>,
    segs: Seq<Seq<char>>,
    i: int,
    cur: int,
    bound: int,
)
    requires
        wf_model(m),
        unique_edges(m),
        0 <= cur < m.len(),
        marks_in(m, bound),
    ensures
        wf_model(spec_walk(m, segs, i, cur).0),
        unique_edges(spec_walk(m, segs, i, cur).0),
        marks_in(spec_walk(m, segs, i, cur).0, bound),
        valid_state(spec_walk(m, segs, i, cur).0, spec_walk(m, segs, i, cur).1),
        m.len() <= spec_walk(m, segs, i, cur).0.len(),
        eps_have_loops(m) ==> eps_have_loops(spec_walk(m, segs, i, cur).0),
    decreases segs.len() - i,
{
    if i < 0 || i >= segs.len() {
    } else {
        if segs[i] == seq!['*', '*'] {
            lemma_spec_add_epsilon_props(m, cur, bound);
            let step = spec_add_epsilon(m, cur);
            lemma_spec_walk_props(step.0, segs, i + 1, step.1, bound);
        } else {
            lemma_spec_add_transition_props(m, cur, segs[i], bound);
            let step = spec_add_transition(m, cur, segs[i]);
            lemma_spec_walk_props(step.0, segs, i + 1, step.1, bound);
        }
    }
}

/// Compiling one pattern preserves the builder invariants and marks only
/// the new pattern id.
pub proof fn lemma_spec_add_pattern_props(m: Seq<SpecState>, pat: Seq<char>, pid: int)
    requires
        wf_model(m),
        unique_edges(m),
        marks_in(m, pid),
        pid >= 0,
    ensures
        wf_model(spec_add_pattern(m, pat, pid)),
        unique_edges(spec_add_pattern(m, pat, pid)),
        marks_in(spec_add_pattern(m, pat, pid), pid + 1),
        m.len() <= spec_add_pattern(m, pat, pid).len(),
        eps_have_loops(m) ==> eps_have_loops(spec_add_pattern(m, pat, pid)),
{
    let anchored = pat.len() > 0 && pat[0] == '/';
    let p1 = if anchored {
        pat.skip(1)
    } else {
        pat
    };
    let trailing = p1.len() > 0 && p1.last() == '/';
    let p2 = if trailing {
        p1.drop_last()
    } else {
        p1
    };
    let segs = split_on(p2, '/');
    assert(marks_in(m, pid + 1));
    let s0: (Seq<SpecState>, int) = if !anchored && segs.len() == 1 {
        lemma_spec_add_epsilon_props(m, 0, pid + 1);
        spec_add_epsilon(m, 0)
    } else {
        (m, 0)
    };
    lemma_spec_walk_props(s0.0, segs, 0, s0.1, pid + 1);
    let w = spec_walk(s0.0, segs, 0, s0.1);
    let t1: (Seq<SpecState>, int) = if trailing || segs.last() == seq!['*', '*'] {
        lemma_spec_add_transition_props(w.0, w.1, seq!['*'], pid + 1);
        spec_add_transition(w.0, w.1, seq!['*'])
    } else {
        w
    };
    let t2: (Seq<SpecState>, int) = if segs.last() != seq!['*'] {
        lemma_spec_add_epsilon_props(t1.0, t1.1, pid + 1);
        spec_add_epsilon(t1.0, t1.1)
    } else {
        t1
    };
    lemma_mark_wf(t2.0, t2.1, pid);
    let r = spec_mark(t2.0, t2.1, pid);
    assert forall|s: int, k: int|
        valid_state(r, s) && 0 <= k < r[s].terminal.len() implies 0 <= #[trigger] r[s].terminal[k]
        < pid + 1 by {
        if s == t2.1 {
            if k < t2.0[s].terminal.len() {
                assert(r[s].terminal[k] == t2.0[s].terminal[k]);
            } else {
                assert(r[s].terminal[k] == pid);
            }
        } else {
            assert(r[s] == t2.0[s]);
            assert(t2.0[s].terminal[k] == r[s].terminal[k]);
        }
    }
}

/// The automaton built from a pattern list is well formed, keeps labels
/// unique, and marks only pattern ids below the list's length.
pub proof fn lemma_spec_build_props(pats: Seq<Seq<char>>)
    ensures
        wf_model(spec_build(pats)),
        unique_edges(spec_build(pats)),
        marks_in(spec_build(pats), pats.len() as int),
        eps_have_loops(spec_build(pats)),
    decreases pats.len(),
{
    if pats.len() == 0 {
        let r = spec_build(pats);
        assert(r =~~= seq![empty_spec_state()]);
        assert forall|s: int, k: int|
            valid_state(r, s) && 0 <= k < r[s].transitions.len() implies valid_state(
            r,
            (#[trigger] r[s].transitions[k]).target,
        ) by {}
    } else {
        lemma_spec_build_props(pats.drop_last());
        lemma_spec_add_pattern_props(spec_build(pats.drop_last()), pats.last(), pats.len() - 1);
    }
}

/// How compiling one pattern may change an already-present state: its
/// transitions and terminal marks are kept and only extended, new edges
/// point at states allocated during this compilation (at or beyond
/// `bound`), an epsilon edge is only added where none was, and new
/// terminal marks carry only the new pattern id.
pub open spec fn state_extends(s1: SpecState, s2: SpecState, bound: int, pid: int) -> bool {
    &&& s2.transitions.len() >= s1.transitions.len()
    &&& forall|k: int|
        0 <= k < s1.transitions.len() ==> s2.transitions[k] == #[trigger] s1.transitions[k]
    &&& forall|k: int|
        s1.transitions.len() <= k < s2.transitions.len() ==> (#[trigger] s2.transitions[k]).target
            >= bound
    &&& (s2.epsilon == s1.epsilon || (s1.epsilon is None && s2.epsilon is Some && s2.epsilon->0
        >= bound))
    &&& s2.terminal.len() >= s1.terminal.len()
    &&& forall|k: int| 0 <= k < s1.terminal.len() ==> s2.terminal[k] == #[trigger] s1.terminal[k]
    &&& forall|k: int|
        s1.terminal.len() <= k < s2.terminal.len() ==> (#[trigger] s2.terminal[k]) == pid
}

/// A state allocated during this compilation: it links only to states
/// allocated during it, and is terminal only for the new pattern id.
pub open spec fn state_fresh(s2: SpecState, bound: int, pid: int) -> bool {
    &&& forall|k: int|
        0 <= k < s2.transitions.len() ==> (#[trigger] s2.transitions[k]).target >= bound
    &&& (s2.epsilon is Some ==> s2.epsilon->0 >= bound)
    &&& forall|k: int| 0 <= k < s2.terminal.len() ==> (#[trigger] s2.terminal[k]) == pid
}

/// `m2` is `m1` with pattern `pid`'s compilation applied: every old state
/// only extended, every new state fresh.
pub open spec fn extends_for(m1: Seq<SpecState>, m2: Seq<SpecState>, pid: int) -> bool {
    &&& m1.len() <= m2.len()
    &&& forall|s: int|
        0 <= s < m1.len() ==> state_extends(m1[s], #[trigger] m2[s], m1.len() as int, pid)
    &&& forall|s: int|
        m1.len() <= s < m2.len() ==> state_fresh(#[trigger] m2[s], m1.len() as int, pid)
}

pub proof fn lemma_extends_refl(m: Seq<SpecState>, pid: int)
    ensures
        extends_for(m, m, pid),
{
}

pub proof fn lemma_extends_trans(m1: Seq<SpecState>, m2: Seq<SpecState>, m3: Seq<SpecState>, pid: int)
    requires
        extends_for(m1, m2, pid),
        extends_for(m2, m3, pid),
    ensures
        extends_for(m1, m3, pid),
{
    assert forall|s: int| 0 <= s < m1.len() implies state_extends(
        m1[s],
        #[trigger] m3[s],
        m1.len() as int,
        pid,
    ) by {
        assert(state_extends(m1[s], m2[s], m1.len() as int, pid));
        assert(state_extends(m2[s], m3[s], m2.len() as int, pid));
        assert forall|k: int|
            0 <= k < m1[s].transitions.len() implies m3[s].transitions[k]
            == #[trigger] m1[s].transitions[k] by {
            assert(m2[s].transitions[k] == m1[s].transitions[k]);
        }
        assert forall|k: int|
            m1[s].transitions.len() <= k < m3[s].transitions.len() implies (
        #[trigger] m3[s].transitions[k]).target >= m1.len() by {
            if k < m2[s].transitions.len() {
                assert(m3[s].transitions[k] == m2[s].transitions[k]);
            }
        }
        assert forall|k: int|
            0 <= k < m1[s].terminal.len() implies m3[s].terminal[k]
            == #[trigger] m1[s].terminal[k] by {
            assert(m2[s].terminal[k] == m1[s].terminal[k]);
        }
        assert forall|k: int|
            m1[s].terminal.len() <= k < m3[s].terminal.len() implies (
        #[trigger] m3[s].terminal[k]) == pid by {
            if k < m2[s].terminal.len() {
                assert(m3[s].terminal[k] == m2[s].terminal[k]);
            }
        }
    }
    assert forall|s: int| m1.len() <= s < m3.len() implies state_fresh(
        #[trigger] m3[s],
        m1.len() as int,
        pid,
    ) by {
        if s < m2.len() {
            assert(state_fresh(m2[s], m1.len() as int, pid));
            assert(state_extends(m2[s], m3[s], m2.len() as int, pid));
            assert forall|k: int|
                0 <= k < m3[s].transitions.len() implies (#[trigger] m3[s].transitions[k]).target
                >= m1.len() by {
                if k < m2[s].transitions.len() {
                    assert(m3[s].transitions[k] == m2[s].transitions[k]);
                }
            }
            assert forall|k: int|
                0 <= k < m3[s].terminal.len() implies (#[trigger] m3[s].terminal[k]) == pid by {
                if k < m2[s].terminal.len() {
                    assert(m3[s].terminal[k] == m2[s].terminal[k]);
                }
            }
        } else {
            assert(state_fresh(m3[s], m2.len() as int, pid));
        }
    }
}

/// Adding a transition only extends the automaton.
pub proof fn lemma_add_transition_extends(m: Seq<SpecState>, from: int, seg: Seq<char>, pid: int)
    requires
        0 <= from < m.len(),
    ensures
        extends_for(m, spec_add_transition(m, from, seg).0, pid),
{
    if !has_reusable(m, from, seg) {
        let r = spec_add_transition(m, from, seg).0;
        assert forall|s: int| 0 <= s < m.len() implies state_extends(
            m[s],
            #[trigger] r[s],
            m.len() as int,
            pid,
        ) by {
            if s != from {
                assert(r[s] == m[s]);
            }
        }
    }
}

/// Adding an epsilon edge only extends the automaton.
pub proof fn lemma_add_epsilon_extends(m: Seq<SpecState>, from: int, pid: int)
    requires
        0 <= from < m.len(),
    ensures
        extends_for(m, spec_add_epsilon(m, from).0, pid),
{
    if !has_self_star(m, from) && m[from].epsilon is None {
        let r = spec_add_epsilon(m, from).0;
        assert forall|s: int| 0 <= s < m.len() implies state_extends(
            m[s],
            #[trigger] r[s],
            m.len() as int,
            pid,
        ) by {
            if s != from {
                assert(r[s] == m[s]);
            }
        }
        assert(state_fresh(r[m.len() as int], m.len() as int, pid));
    }
}

/// Marking a terminal with the new id only extends the automaton.
pub proof fn lemma_mark_extends(m: Seq<SpecState>, s0: int, pid: int)
    requires
        0 <= s0 < m.len(),
    ensures
        extends_for(m, spec_mark(m, s0, pid), pid),
{
    let r = spec_mark(m, s0, pid);
    assert forall|s: int| 0 <= s < m.len() implies state_extends(
        m[s],
        #[trigger] r[s],
        m.len() as int,
        pid,
    ) by {
        if s != s0 {
            assert(r[s] == m[s]);
        }
    }
}

/// Walking a pattern's segments only extends the automaton.
pub proof fn lemma_walk_extends(
    m: Seq<SpecState>,
    segs: Seq<Seq<char>>,
    i: int,
    cur: int,
    bound: int,
    pid: int,
)
    requires
        wf_model(m),
        unique_edges(m),
        0 <= cur < m.len(),
        marks_in(m, bound),
    ensures
        extends_for(m, spec_walk(m, segs, i, cur).0, pid),
    decreases segs.len() - i,
{
    if i < 0 || i >= segs.len() {
        lemma_extends_refl(m, pid);
    } else {
        if segs[i] == seq!['*', '*'] {
            let step = spec_add_epsilon(m, cur);
            lemma_add_epsilon_extends(m, cur, pid);
            lemma_spec_add_epsilon_props(m, cur, bound);
            lemma_walk_extends(step.0, segs, i + 1, step.1, bound, pid);
            lemma_extends_trans(m, step.0, spec_walk(step.0, segs, i + 1, step.1).0, pid);
        } else {
            let step = spec_add_transition(m, cur, segs[i]);
            lemma_add_transition_extends(m, cur, segs[i], pid);
            lemma_spec_add_transition_props(m, cur, segs[i], bound);
            lemma_walk_extends(step.0, segs, i + 1, step.1, bound, pid);
            lemma_extends_trans(m, step.0, spec_walk(step.0, segs, i + 1, step.1).0, pid);
        }
    }
}

/// Compiling one pattern only extends the automaton: nothing already there
/// changes, new states are reached only from newly added edges, and only
/// the new id is marked.
pub proof fn lemma_add_pattern_extends(m: Seq<SpecState>, pat: Seq<char>, pid: int)
    requires
        wf_model(m),
        unique_edges(m),
        marks_in(m, pid),
        pid >= 0,
    ensures
        extends_for(m, spec_add_pattern(m, pat, pid), pid),
{
    let anchored = pat.len() > 0 && pat[0] == '/';
    let p1 = if anchored {
        pat.skip(1)
    } else {
        pat
    };
    let trailing = p1.len() > 0 && p1.last() == '/';
    let p2 = if trailing {
        p1.drop_last()
    } else {
        p1
    };
    let segs = split_on(p2, '/');
    assert(marks_in(m, pid + 1));
    let s0: (Seq<SpecState>, int) = if !anchored && segs.len() == 1 {
        lemma_add_epsilon_extends(m, 0, pid);
        lemma_spec_add_epsilon_props(m, 0, pid + 1);
        spec_add_epsilon(m, 0)
    } else {
        lemma_extends_refl(m, pid);
        (m, 0)
    };
    lemma_walk_extends(s0.0, segs, 0, s0.1, pid + 1, pid);
    lemma_spec_walk_props(s0.0, segs, 0, s0.1, pid + 1);
    let w = spec_walk(s0.0, segs, 0, s0.1);
    lemma_extends_trans(m, s0.0, w.0, pid);
    let t1: (Seq<SpecState>, int) = if trailing || segs.last() == seq!['*', '*'] {
        lemma_add_transition_extends(w.0, w.1, seq!['*'], pid);
        lemma_spec_add_transition_props(w.0, w.1, seq!['*'], pid + 1);
        spec_add_transition(w.0, w.1, seq!['*'])
    } else {
        lemma_extends_refl(w.0, pid);
        w
    };
    lemma_extends_trans(m, w.0, t1.0, pid);
    let t2: (Seq<SpecState>, int) = if segs.last() != seq!['*'] {
        lemma_add_epsilon_extends(t1.0, t1.1, pid);
        lemma_spec_add_epsilon_props(t1.0, t1.1, pid + 1);
        spec_add_epsilon(t1.0, t1.1)
    } else {
        lemma_extends_refl(t1.0, pid);
        t1
    };
    lemma_extends_trans(m, t1.0, t2.0, pid);
    lemma_mark_extends(t2.0, t2.1, pid);
    lemma_extends_trans(m, t2.0, spec_mark(t2.0, t2.1, pid), pid);
}

/// The segments a pattern compiles through: a leading `/` only anchors, a
/// trailing `/` only demands one extra segment.
pub open spec fn pattern_segments(pat: Seq<char>) -> Seq<Seq<char>> {
    let anchored = pat.len() > 0 && pat[0] == '/';
    let p1 = if anchored {
        pat.skip(1)
    } else {
        pat
    };
    let trailing = p1.len() > 0 && p1.last() == '/';
    let p2 = if trailing {
        p1.drop_last()
    } else {
        p1
    };
    split_on(p2, '/')
}

/// Does the pattern ask for one extra segment through a trailing `/`?
pub open spec fn pattern_trailing(pat: Seq<char>) -> bool {
    let anchored = pat.len() > 0 && pat[0] == '/';
    let p1 = if anchored {
        pat.skip(1)
    } else {
        pat
    };
    p1.len() > 0 && p1.last() == '/'
}

/// When a pattern's final segment is not a lone `*`, its terminal mark
/// lands on an epsilon target, which carries a `*` self-loop.
pub proof fn lemma_add_pattern_mark_loops(m: Seq<SpecState>, pat: Seq<char>, pid: int)
    requires
        wf_model(m),
        unique_edges(m),
        eps_have_loops(m),
        marks_in(m, pid),
        pid >= 0,
        pattern_segments(pat).last() != seq!['*'],
    ensures
        forall|s: int|
            #[trigger] terminal_for(spec_add_pattern(m, pat, pid), s, pid) ==> has_self_star(
                spec_add_pattern(m, pat, pid),
                s,
            ),
{
    let anchored = pat.len() > 0 && pat[0] == '/';
    let p1 = if anchored {
        pat.skip(1)
    } else {
        pat
    };
    let trailing = p1.len() > 0 && p1.last() == '/';
    let p2 = if trailing {
        p1.drop_last()
    } else {
        p1
    };
    let segs = split_on(p2, '/');
    let s0: (Seq<SpecState>, int) = if !anchored && segs.len() == 1 {
        lemma_spec_add_epsilon_props(m, 0, pid);
        spec_add_epsilon(m, 0)
    } else {
        (m, 0)
    };
    lemma_spec_walk_props(s0.0, segs, 0, s0.1, pid);
    let w = spec_walk(s0.0, segs, 0, s0.1);
    let t1: (Seq<SpecState>, int) = if trailing || segs.last() == seq!['*', '*'] {
        lemma_spec_add_transition_props(w.0, w.1, seq!['*'], pid);
        spec_add_transition(w.0, w.1, seq!['*'])
    } else {
        w
    };
    let t2 = spec_add_epsilon(t1.0, t1.1);
    let e = t2.1;
    lemma_spec_add_epsilon_props(t1.0, t1.1, pid);
    let r = spec_mark(t2.0, e, pid);
    assert(r == spec_add_pattern(m, pat, pid));
    // the mark's state carries a self-loop
    assert(has_self_star(t2.0, e)) by {
        if has_self_star(t1.0, t1.1) {
        } else if t1.0[t1.1].epsilon is Some {
            assert(has_self_star(t1.0, t1.0[t1.1].epsilon->0));
        } else {
            assert((#[trigger] t2.0[e].transitions[0]).seg == seq!['*']
                && t2.0[e].transitions[0].target == e);
        }
    }
    assert forall|s: int| #[trigger] terminal_for(r, s, pid) implies has_self_star(r, s) by {
        let k = choose|k: int| 0 <= k < r[s].terminal.len() && r[s].terminal[k] == pid;
        if s != e {
            assert(r[s] == t2.0[s]);
            assert(0 <= t2.0[s].terminal[k] < pid);
            assert(false);
        } else {
            if k < t2.0[e].terminal.len() {
                assert(0 <= t2.0[e].terminal[k] < pid);
                assert(false);
            }
            let kk = choose|kk: int|
                0 <= kk < t2.0[e].transitions.len() && (#[trigger] t2.0[e].transitions[kk]).seg
                    == seq!['*'] && t2.0[e].transitions[kk].target == e;
            assert(r[e].transitions == t2.0[e].transitions);
            assert((#[trigger] r[e].transitions[kk]).seg == seq!['*'] && r[e].transitions[kk].target
                == e);
        }
    }
}

/// Self-loops on an old pattern's terminal states survive compiling one
/// more pattern.
pub proof fn lemma_extends_keeps_marked_loops(
    m1: Seq<SpecState>,
    m2: Seq<SpecState>,
    pid: int,
    i: int,
)
    requires
        extends_for(m1, m2, pid),
        i != pid,
        forall|s: int| #[trigger] terminal_for(m1, s, i) ==> has_self_star(m1, s),
    ensures
        forall|s: int| #[trigger] terminal_for(m2, s, i) ==> has_self_star(m2, s),
{
    assert forall|s: int| #[trigger] terminal_for(m2, s, i) implies has_self_star(m2, s) by {
        let k = choose|k: int| 0 <= k < m2[s].terminal.len() && m2[s].terminal[k] == i;
        if s >= m1.len() {
            assert(state_fresh(m2[s], m1.len() as int, pid));
            assert(m2[s].terminal[k] == pid);
            assert(false);
        }
        assert(state_extends(m1[s], m2[s], m1.len() as int, pid));
        if k >= m1[s].terminal.len() {
            assert(m2[s].terminal[k] == pid);
            assert(false);
        }
        assert(m1[s].terminal[k] == i);
        assert(m1[s].terminal.contains(i));
        assert(terminal_for(m1, s, i));
        let kk = choose|kk: int|
            0 <= kk < m1[s].transitions.len() && (#[trigger] m1[s].transitions[kk]).seg
                == seq!['*'] && m1[s].transitions[kk].target == s;
        assert(m2[s].transitions[kk] == m1[s].transitions[kk]);
        assert((#[trigger] m2[s].transitions[kk]).seg == seq!['*'] && m2[s].transitions[kk].target
            == s);
    }
}

/// In the automaton of a pattern list, every state marked for a rule whose
/// final segment is not a lone `*` carries a `*` self-loop.
pub proof fn lemma_build_mark_loops(pats: Seq<Seq<char>>, i: int)
    requires
        0 <= i < pats.len(),
        pattern_segments(pats[i]).last() != seq!['*'],
    ensures
        forall|s: int|
            #[trigger] terminal_for(spec_build(pats), s, i) ==> has_self_star(spec_build(pats), s),
    decreases pats.len(),
{
    let prev = spec_build(pats.drop_last());
    lemma_spec_build_props(pats.drop_last());
    if i == pats.len() - 1 {
        assert(pats.last() == pats[i]);
        lemma_add_pattern_mark_loops(prev, pats.last(), i);
    } else {
        assert(pats.drop_last()[i] == pats[i]);
        lemma_build_mark_loops(pats.drop_last(), i);
        lemma_add_pattern_extends(prev, pats.last(), pats.len() - 1);
        lemma_extends_keeps_marked_loops(prev, spec_build(pats), pats.len() - 1, i);
    }
}

/// Allocating a fresh target and edge keeps the automaton well formed and
/// its labels unique.
proof fn lemma_add_transition_new_wf(m: Seq<SpecState>, from: int, seg: Seq<char>)
    requires
        wf_model(m),
        unique_edges(m),
        0 <= from < m.len(),
        !has_reusable(m, from, seg),
    ensures
        wf_model(spec_add_transition(m, from, seg).0),
        unique_edges(spec_add_transition(m, from, seg).0),
        spec_add_transition(m, from, seg).0.len() > m.len(),
        eps_have_loops(m) ==> eps_have_loops(spec_add_transition(m, from, seg).0),
{
    let r = spec_add_transition(m, from, seg).0;
    let nid = m.len() as int;
    if eps_have_loops(m) {
        assert forall|s: int|
            0 <= s < r.len() && (#[trigger] r[s].epsilon) is Some implies has_self_star(
            r,
            r[s].epsilon->0,
        ) by {
            assert(s < m.len());
            if s == from {
                assert(r[s].epsilon == m[s].epsilon);
            } else {
                assert(r[s] == m[s]);
            }
            let e = m[s].epsilon->0;
            let k = choose|k: int|
                0 <= k < m[e].transitions.len() && (#[trigger] m[e].transitions[k]).seg
                    == seq!['*'] && m[e].transitions[k].target == e;
            if e == from {
                assert(r[e].transitions[k] == m[e].transitions[k]);
            } else {
                assert(r[e] == m[e]);
            }
            assert((#[trigger] r[e].transitions[k]).seg == seq!['*'] && r[e].transitions[k].target
                == e);
        }
    }
    assert forall|s: int, k: int|
        valid_state(r, s) && 0 <= k < r[s].transitions.len() implies valid_state(
        r,
        (#[trigger] r[s].transitions[k]).target,
    ) by {
        if s == from {
            if k < m[from].transitions.len() {
                assert(r[s].transitions[k] == m[s].transitions[k]);
            }
        } else if s < m.len() {
            assert(r[s] == m[s]);
        } else {
            assert(r[s] == empty_spec_state());
        }
    }
    assert forall|s: int| valid_state(r, s) implies ((#[trigger] r[s].epsilon) is Some
        ==> valid_state(r, r[s].epsilon->0)) by {
        if s < m.len() {
            if s == from {
                assert(r[s].epsilon == m[s].epsilon);
            } else {
                assert(r[s] == m[s]);
            }
        } else {
            assert(r[s] == empty_spec_state());
        }
    }
    assert forall|s: int, k1: int, k2: int|
        valid_state(r, s) && 0 <= k1 < r[s].transitions.len() && 0 <= k2
            < r[s].transitions.len() && (#[trigger] r[s].transitions[k1]).seg
            == (#[trigger] r[s].transitions[k2]).seg && r[s].transitions[k1].target != s
            && r[s].transitions[k2].target != s implies k1 == k2 by {
        if s == from {
            let old_n = m[from].transitions.len();
            if k1 < old_n && k2 < old_n {
                assert(m[s].transitions[k1] == r[s].transitions[k1]);
                assert(m[s].transitions[k2] == r[s].transitions[k2]);
            } else if k1 < old_n {
                assert(r[s].transitions[k2].seg == seg);
                assert(is_reusable(m, from, seg, k1));
            } else if k2 < old_n {
                assert(r[s].transitions[k1].seg == seg);
                assert(is_reusable(m, from, seg, k2));
            }
        } else if s < m.len() {
            assert(r[s] == m[s]);
            assert(m[s].transitions[k1] == r[s].transitions[k1]);
            assert(m[s].transitions[k2] == r[s].transitions[k2]);
        } else {
            assert(r[s] == empty_spec_state());
        }
    }
}

/// Allocating a fresh epsilon target keeps the automaton well formed and
/// its labels unique: the new state's only edge is a self-loop.
proof fn lemma_add_epsilon_new_wf(m: Seq<SpecState>, from: int)
    requires
        wf_model(m),
        unique_edges(m),
        0 <= from < m.len(),
        !has_self_star(m, from),
        m[from].epsilon is None,
    ensures
        wf_model(spec_add_epsilon(m, from).0),
        unique_edges(spec_add_epsilon(m, from).0),
        spec_add_epsilon(m, from).0.len() > m.len(),
        eps_have_loops(m) ==> eps_have_loops(spec_add_epsilon(m, from).0),
{
    let r = spec_add_epsilon(m, from).0;
    let e = m.len() as int;
    if eps_have_loops(m) {
        assert forall|s: int|
            0 <= s < r.len() && (#[trigger] r[s].epsilon) is Some implies has_self_star(
            r,
            r[s].epsilon->0,
        ) by {
            if s == from {
                assert(r[s].epsilon == Some(e));
                assert((#[trigger] r[e].transitions[0]).seg == seq!['*'] && r[e].transitions[0].target
                    == e);
            } else if s < m.len() {
                assert(r[s] == m[s]);
                let t = m[s].epsilon->0;
                let k = choose|k: int|
                    0 <= k < m[t].transitions.len() && (#[trigger] m[t].transitions[k]).seg
                        == seq!['*'] && m[t].transitions[k].target == t;
                if t == from {
                    assert(r[t].transitions == m[t].transitions);
                    assert(r[t].transitions[k] == m[t].transitions[k]);
                } else {
                    assert(r[t] == m[t]);
                }
                assert((#[trigger] r[t].transitions[k]).seg == seq!['*']
                    && r[t].transitions[k].target == t);
            } else {
                assert(r[s].epsilon is None);
            }
        }
    }
    assert forall|s: int, k: int|
        valid_state(r, s) && 0 <= k < r[s].transitions.len() implies valid_state(
        r,
        (#[trigger] r[s].transitions[k]).target,
    ) by {
        if s == from {
            assert(r[s].transitions == m[s].transitions);
            assert(r[s].transitions[k] == m[s].transitions[k]);
        } else if s < m.len() {
            assert(r[s] == m[s]);
        } else {
            assert(r[s].transitions[k].target == e);
        }
    }
    assert forall|s: int| valid_state(r, s) implies ((#[trigger] r[s].epsilon) is Some
        ==> valid_state(r, r[s].epsilon->0)) by {
        if s == from {
            assert(r[s].epsilon == Some(e));
        } else if s < m.len() {
            assert(r[s] == m[s]);
        }
    }
    assert forall|s: int, k1: int, k2: int|
        valid_state(r, s) && 0 <= k1 < r[s].transitions.len() && 0 <= k2
            < r[s].transitions.len() && (#[trigger] r[s].transitions[k1]).seg
            == (#[trigger] r[s].transitions[k2]).seg && r[s].transitions[k1].target != s
            && r[s].transitions[k2].target != s implies k1 == k2 by {
        if s == from {
            assert(r[s].transitions == m[s].transitions);
            assert(m[s].transitions[k1] == r[s].transitions[k1]);
            assert(m[s].transitions[k2] == r[s].transitions[k2]);
        } else if s < m.len() {
            assert(r[s] == m[s]);
            assert(m[s].transitions[k1] == r[s].transitions[k1]);
            assert(m[s].transitions[k2] == r[s].transitions[k2]);
        } else {
            assert(k1 == 0 && k2 == 0);
        }
    }
}

/// Marking a terminal state changes no transitions.
proof fn lemma_mark_wf(m: Seq<SpecState>, s0: int, pid: int)
    requires
        wf_model(m),
        unique_edges(m),
        0 <= s0 < m.len(),
    ensures
        wf_model(spec_mark(m, s0, pid)),
        unique_edges(spec_mark(m, s0, pid)),
        eps_have_loops(m) ==> eps_have_loops(spec_mark(m, s0, pid)),
{
    let r = spec_mark(m, s0, pid);
    if eps_have_loops(m) {
        assert forall|s: int|
            0 <= s < r.len() && (#[trigger] r[s].epsilon) is Some implies has_self_star(
            r,
            r[s].epsilon->0,
        ) by {
            if s == s0 {
                assert(r[s].epsilon == m[s].epsilon);
            } else {
                assert(r[s] == m[s]);
            }
            let t = m[s].epsilon->0;
            let k = choose|k: int|
                0 <= k < m[t].transitions.len() && (#[trigger] m[t].transitions[k]).seg
                    == seq!['*'] && m[t].transitions[k].target == t;
            if t == s0 {
                assert(r[t].transitions == m[t].transitions);
                assert(r[t].transitions[k] == m[t].transitions[k]);
            } else {
                assert(r[t] == m[t]);
            }
            assert((#[trigger] r[t].transitions[k]).seg == seq!['*'] && r[t].transitions[k].target
                == t);
        }
    }
    assert forall|s: int, k: int|
        valid_state(r, s) && 0 <= k < r[s].transitions.len() implies valid_state(
        r,
        (#[trigger] r[s].transitions[k]).target,
    ) by {
        if s == s0 {
            assert(r[s].transitions == m[s].transitions);
            assert(r[s].transitions[k] == m[s].transitions[k]);
        } else {
            assert(r[s] == m[s]);
        }
    }
    assert forall|s: int| valid_state(r, s) implies ((#[trigger] r[s].epsilon) is Some
        ==> valid_state(r, r[s].epsilon->0)) by {
        if s != s0 {
            assert(r[s] == m[s]);
        }
    }
    assert forall|s: int, k1: int, k2: int|
        valid_state(r, s) && 0 <= k1 < r[s].transitions.len() && 0 <= k2
            < r[s].transitions.len() && (#[trigger] r[s].transitions[k1]).seg
            == (#[trigger] r[s].transitions[k2]).seg && r[s].transitions[k1].target != s
            && r[s].transitions[k2].target != s implies k1 == k2 by {
        if s == s0 {
            assert(r[s].transitions == m[s].transitions);
            assert(m[s].transitions[k1] == r[s].transitions[k1]);
            assert(m[s].transitions[k2] == r[s].transitions[k2]);
        } else {
            assert(r[s] == m[s]);
            assert(m[s].transitions[k1] == r[s].transitions[k1]);
            assert(m[s].transitions[k2] == r[s].transitions[k2]);
        }
    }
}

} // verus!
