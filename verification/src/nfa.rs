//! The shared automaton: a dense vector of states with segment-labelled
//! transitions and at most one epsilon edge per state.
//!
//! The mathematical model of an automaton is a `Seq<SpecState>`;
//! `run_set` gives the states a segment sequence reaches, and
//! `nfa_matches` which pattern ids it matches. The builder and the matcher
//! are specified against this model.

use vstd::prelude::*;

use crate::segment::TransitionCondition;
use crate::segment::seg_matches;
use crate::segment::spec_condition;
use crate::segment::classify_segment;

verus! {

/// Index of a state in the automaton's state vector. State 0 is the start
/// state.
#[derive(Debug, Clone, Copy, PartialEq, Eq, Structural)]
pub struct StateId(pub usize);

/// Model of one transition: a segment pattern and a target state.
#[verifier::ext_equal]
pub ghost struct SpecTransition {
    pub seg: Seq<char>,
    pub target: int,
}

/// Model of one state.
#[verifier::ext_equal]
pub ghost struct SpecState {
    /// Pattern ids for which this state is terminal.
    pub terminal: Seq<int>,
    pub transitions: Seq<SpecTransition>,
    /// Traversed unconditionally when entering this state; models `**`.
    pub epsilon: Option<int>,
}

pub open spec fn empty_spec_state() -> SpecState {
    SpecState { terminal: Seq::empty(), transitions: Seq::empty(), epsilon: None }
}

/// A transition from one state to another. For each (state, segment) pair
/// at most one non-self transition exists.
pub struct Transition {
    pub path_segment: Vec<char>,
    pub condition: TransitionCondition,
    pub target: StateId,
}

impl View for Transition {
    type V = SpecTransition;

    open spec fn view(&self) -> SpecTransition {
        SpecTransition { seg: self.path_segment@, target: self.target.0 as int }
    }
}

/// A state of the automaton.
pub struct State {
    pub matching_patterns: Vec<usize>,
    pub transitions: Vec<Transition>,
    pub epsilon_transition: Option<StateId>,
}

impl View for State {
    type V = SpecState;

    open spec fn view(&self) -> SpecState {
        SpecState {
            terminal: Seq::new(self.matching_patterns@.len(), |i: int| self.matching_patterns@[i] as int),
            transitions: Seq::new(self.transitions@.len(), |i: int| self.transitions@[i]@),
            epsilon: match self.epsilon_transition {
                Some(e) => Some(e.0 as int),
                None => None,
            },
        }
    }
}

/// The automaton: a vector of states, state 0 being the start state.
pub struct Nfa {
    pub states: Vec<State>,
}

impl View for Nfa {
    type V = Seq<SpecState>;

    open spec fn view(&self) -> Seq<SpecState> {
        Seq::new(self.states@.len(), |i: int| self.states@[i]@)
    }
}

pub open spec fn valid_state(m: Seq<SpecState>, s: int) -> bool {
    0 <= s < m.len()
}

/// All targets and epsilon edges stay inside the automaton, which has a
/// start state.
pub open spec fn wf_model(m: Seq<SpecState>) -> bool {
    &&& m.len() >= 1
    &&& forall|s: int, k: int|
        valid_state(m, s) && 0 <= k < m[s].transitions.len() ==> valid_state(
            m,
            (#[trigger] m[s].transitions[k]).target,
        )
    &&& forall|s: int|
        valid_state(m, s) ==> ((#[trigger] m[s].epsilon) is Some ==> valid_state(
            m,
            m[s].epsilon->0,
        ))
}

/// At most one non-self transition per (state, segment label).
pub open spec fn unique_edges(m: Seq<SpecState>) -> bool {
    forall|s: int, k1: int, k2: int|
        #![trigger m[s].transitions[k1], m[s].transitions[k2]]
        valid_state(m, s) && 0 <= k1 < m[s].transitions.len() && 0 <= k2
            < m[s].transitions.len() && m[s].transitions[k1].seg == m[s].transitions[k2].seg
            && m[s].transitions[k1].target != s && m[s].transitions[k2].target != s ==> k1 == k2
}

impl Nfa {
    /// Every stored condition is the one computed from its segment pattern.
    pub open spec fn conditions_ok(&self) -> bool {
        forall|s: int, k: int|
            0 <= s < self.states@.len() && 0 <= k < self.states@[s].transitions@.len()
                ==> (#[trigger] self.states@[s].transitions@[k]).condition == spec_condition(
                self.states@[s].transitions@[k].path_segment@,
            )
    }

    pub open spec fn wf(&self) -> bool {
        &&& wf_model(self@)
        &&& self.conditions_ok()
    }

    /// A fresh automaton holding only the start state.
    pub fn new() -> (r: Nfa)
        ensures
            r@ =~~= seq![empty_spec_state()],
            r.wf(),
            unique_edges(r@),
    {
        let states = vec![
            State { matching_patterns: Vec::new(), transitions: Vec::new(), epsilon_transition: None },
        ];
        let r = Nfa { states };
        proof {
            assert(r@ =~~= seq![empty_spec_state()]);
        }
        r
    }

    pub fn num_states(&self) -> (n: usize)
        ensures
            n == self@.len(),
    {
        self.states.len()
    }

    /// Allocate a new state, returning its id.
    pub fn add_state(&mut self) -> (r: StateId)
        ensures
            final(self)@ =~~= old(self)@.push(empty_spec_state()),
            r.0 == old(self)@.len(),
            old(self).conditions_ok() ==> final(self).conditions_ok(),
    {
        let id = self.states.len();
        self.states.push(
            State { matching_patterns: Vec::new(), transitions: Vec::new(), epsilon_transition: None },
        );
        proof {
            assert(final(self)@ =~~= old(self)@.push(empty_spec_state()));
            if old(self).conditions_ok() {
                assert forall|s: int, k: int|
                    0 <= s < self.states@.len() && 0 <= k
                        < self.states@[s].transitions@.len() implies (#[trigger] self.states@[s].transitions@[k]).condition
                    == spec_condition(self.states@[s].transitions@[k].path_segment@) by {
                    if s < old(self).states@.len() {
                        assert(self.states@[s] == old(self).states@[s]);
                    } else {
                        assert(self.states@[s].transitions@.len() == 0);
                    }
                }
            }
        }
        StateId(id)
    }

    /// Append a transition from `from` to `target`, labelled `seg`.
    pub fn push_transition(&mut self, from: StateId, seg: Vec<char>, target: StateId)
        requires
            from.0 < old(self)@.len(),
        ensures
            final(self)@ =~~= old(self)@.update(
                from.0 as int,
                (SpecState {
                    transitions: old(self)@[from.0 as int].transitions.push(
                        (SpecTransition { seg: seg@, target: target.0 as int }),
                    ),
                    ..old(self)@[from.0 as int]
                }),
            ),
            old(self).conditions_ok() ==> final(self).conditions_ok(),
    {
        let condition = classify_segment(&seg);
        let t = Transition { path_segment: seg, condition, target };
        let st = &mut self.states[from.0];
        st.transitions.push(t);
        proof {
            assert(final(self)@ =~~= old(self)@.update(
                from.0 as int,
                (SpecState {
                    transitions: old(self)@[from.0 as int].transitions.push(
                        (SpecTransition { seg: seg@, target: target.0 as int }),
                    ),
                    ..old(self)@[from.0 as int]
                }),
            ));
            if old(self).conditions_ok() {
                assert forall|s: int, k: int|
                    0 <= s < self.states@.len() && 0 <= k < self.states@[s].transitions@.len() implies (
                #[trigger] self.states@[s].transitions@[k]).condition == spec_condition(
                    self.states@[s].transitions@[k].path_segment@,
                ) by {
                    if s != from.0 as int {
                        assert(self.states@[s] == old(self).states@[s]);
                    } else if k < self.states@[s].transitions@.len() - 1 {
                        assert(self.states@[s].transitions@[k] == old(
                            self,
                        ).states@[s].transitions@[k]);
                    }
                }
            }
        }
    }

    /// Set the epsilon edge of `from`.
    pub fn set_epsilon(&mut self, from: StateId, e: StateId)
        requires
            from.0 < old(self)@.len(),
        ensures
            final(self)@ =~~= old(self)@.update(
                from.0 as int,
                (SpecState { epsilon: Some(e.0 as int), ..old(self)@[from.0 as int] }),
            ),
            old(self).conditions_ok() ==> final(self).conditions_ok(),
    {
        let st = &mut self.states[from.0];
        st.epsilon_transition = Some(e);
        proof {
            assert(final(self)@ =~~= old(self)@.update(
                from.0 as int,
                (SpecState { epsilon: Some(e.0 as int), ..old(self)@[from.0 as int] }),
            ));
            if old(self).conditions_ok() {
                assert forall|s: int, k: int|
                    0 <= s < self.states@.len() && 0 <= k < self.states@[s].transitions@.len() implies (
                #[trigger] self.states@[s].transitions@[k]).condition == spec_condition(
                    self.states@[s].transitions@[k].path_segment@,
                ) by {
                    if s != from.0 as int {
                        assert(self.states@[s] == old(self).states@[s]);
                    } else {
                        assert(self.states@[s].transitions@[k] == old(
                            self,
                        ).states@[s].transitions@[k]);
                    }
                }
            }
        }
    }

    /// Mark `sid` terminal for pattern `pid`.
    pub fn mark_terminal(&mut self, sid: StateId, pid: usize)
        requires
            sid.0 < old(self)@.len(),
        ensures
            final(self)@ =~~= old(self)@.update(
                sid.0 as int,
                (SpecState {
                    terminal: old(self)@[sid.0 as int].terminal.push(pid as int),
                    ..old(self)@[sid.0 as int]
                }),
            ),
            old(self).conditions_ok() ==> final(self).conditions_ok(),
    {
        let st = &mut self.states[sid.0];
        st.matching_patterns.push(pid);
        proof {
            assert(final(self)@ =~~= old(self)@.update(
                sid.0 as int,
                (SpecState {
                    terminal: old(self)@[sid.0 as int].terminal.push(pid as int),
                    ..old(self)@[sid.0 as int]
                }),
            ));
            if old(self).conditions_ok() {
                assert forall|s: int, k: int|
                    0 <= s < self.states@.len() && 0 <= k < self.states@[s].transitions@.len() implies (
                #[trigger] self.states@[s].transitions@[k]).condition == spec_condition(
                    self.states@[s].transitions@[k].path_segment@,
                ) by {
                    if s != sid.0 as int {
                        assert(self.states@[s] == old(self).states@[s]);
                    } else {
                        assert(self.states@[s].transitions@[k] == old(
                            self,
                        ).states@[s].transitions@[k]);
                    }
                }
            }
        }
    }

    /// The epsilon target of `sid`, if any.
    pub fn epsilon_of(&self, sid: StateId) -> (r: Option<StateId>)
        requires
            sid.0 < self@.len(),
        ensures
            (match r {
                Some(e) => self@[sid.0 as int].epsilon == Some(e.0 as int),
                None => self@[sid.0 as int].epsilon is None,
            }),
    {
        self.states[sid.0].epsilon_transition
    }
}

/// Some transition out of `q` whose segment pattern matches `seg` leads to
/// `s`.
pub open spec fn edge_to(m: Seq<SpecState>, q: int, seg: Seq<char>, s: int) -> bool {
    valid_state(m, q) && exists|k: int|
        0 <= k < m[q].transitions.len() && seg_matches(
            (#[trigger] m[q].transitions[k]).seg,
            seg,
        ) && m[q].transitions[k].target == s
}

pub open spec fn eps_of(m: Seq<SpecState>, t: int, s: int) -> bool {
    valid_state(m, t) && m[t].epsilon == Some(s)
}

/// Consuming `seg` in state `q` can put the automaton in state `s`: either
/// directly through a matching transition, or through the epsilon edge of
/// the state such a transition enters.
pub open spec fn reach_via(m: Seq<SpecState>, q: int, seg: Seq<char>, s: int) -> bool {
    edge_to(m, q, seg, s) || exists|t: int| #[trigger] edge_to(m, q, seg, t) && eps_of(m, t, s)
}

/// The states active before any segment is consumed: the start state and
/// its epsilon target.
pub open spec fn initial_state(m: Seq<SpecState>, s: int) -> bool {
    s == 0 || (m.len() > 0 && m[0].epsilon == Some(s))
}

pub open spec fn initial_set(m: Seq<SpecState>) -> Set<int> {
    Set::new(|s: int| initial_state(m, s))
}

/// The states one consumed segment moves a state set to.
pub open spec fn step_set(m: Seq<SpecState>, prev: Set<int>, seg: Seq<char>) -> Set<int> {
    Set::new(|s: int| exists|q: int| prev.contains(q) && #[trigger] reach_via(m, q, seg, s))
}

/// The states active after consuming all of `segs`, starting from the
/// initial states.
pub open spec fn run_set(m: Seq<SpecState>, segs: Seq<Seq<char>>) -> Set<int>
    decreases segs.len(),
{
    if segs.len() == 0 {
        initial_set(m)
    } else {
        step_set(m, run_set(m, segs.drop_last()), segs.last())
    }
}

/// Under a well-formed automaton every reachable state is a real state.
pub proof fn lemma_run_valid(m: Seq<SpecState>, segs: Seq<Seq<char>>, s: int)
    requires
        wf_model(m),
        run_set(m, segs).contains(s),
    ensures
        valid_state(m, s),
    decreases segs.len(),
{
    if segs.len() == 0 {
        assert(initial_state(m, s));
    } else {
        let prev = run_set(m, segs.drop_last());
        assert(step_set(m, prev, segs.last()).contains(s));
        let q = choose|q: int| prev.contains(q) && #[trigger] reach_via(m, q, segs.last(), s);
        lemma_run_valid(m, segs.drop_last(), q);
    }
}

pub open spec fn terminal_for(m: Seq<SpecState>, s: int, pid: int) -> bool {
    valid_state(m, s) && m[s].terminal.contains(pid)
}

/// Pattern `pid` matches the segment sequence `segs` under automaton `m`.
pub open spec fn nfa_matches(m: Seq<SpecState>, segs: Seq<Seq<char>>, pid: int) -> bool {
    exists|s: int| #[trigger] run_set(m, segs).contains(s) && terminal_for(m, s, pid)
}

} // verus!
