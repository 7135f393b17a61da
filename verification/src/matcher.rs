//! Matching paths against the compiled automaton.
//!
//! A query splits the path on `/`, drops leading empty segments, and steps
//! the active state set through the automaton one segment at a time;
//! terminal marks of the final states are the matching pattern ids. State
//! sets for path prefixes are memoized per matcher instance, keyed by the
//! segment prefix; entries stay valid because the automaton never changes.

use vstd::prelude::*;

use crate::nfa::Nfa;
use crate::nfa::SpecState;
use crate::nfa::StateId;
use crate::nfa::edge_to;
use crate::nfa::eps_of;
use crate::nfa::initial_set;
use crate::nfa::initial_state;
use crate::nfa::nfa_matches;
use crate::nfa::reach_via;
use crate::nfa::run_set;
use crate::nfa::step_set;
use crate::nfa::terminal_for;
use crate::nfa::valid_state;
use crate::owner::clone_string;
use crate::segment::condition_matches;
use crate::segment::seg_matches;
use crate::util::chars_eq;
use crate::util::chars_of;
use crate::util::clone_chars;
use crate::util::lemma_deep_view_chars;
use crate::util::path_segments;
use crate::util::split_chars;
use crate::util::strip_segs;

verus! {

/// `s` occurs among the ids of `v`.
pub open spec fn in_ids(v: Seq<StateId>, s: int) -> bool {
    exists|i: int| 0 <= i < v.len() && (#[trigger] v[i]).0 == s
}

/// The ids of `v` are exactly the members of `set`.
pub open spec fn ids_match(v: Seq<StateId>, set: Set<int>) -> bool {
    &&& forall|s: int| #[trigger] set.contains(s) ==> in_ids(v, s)
    &&& forall|i: int| 0 <= i < v.len() ==> set.contains((#[trigger] v[i]).0 as int)
}

pub open spec fn ids_valid(m: Seq<SpecState>, v: Seq<StateId>) -> bool {
    forall|i: int| 0 <= i < v.len() ==> valid_state(m, (#[trigger] v[i]).0 as int)
}

/// Some state of `states` has a matching transition into `s`.
pub open spec fn justified(m: Seq<SpecState>, states: Seq<StateId>, seg: Seq<char>, s: int) -> bool {
    exists|q: int| #[trigger] edge_to(m, q, seg, s) && in_ids(states, q)
}

/// `s` is the epsilon target of some state of `base`.
pub open spec fn eps_justified(m: Seq<SpecState>, base: Seq<StateId>, s: int) -> bool {
    exists|t: int| in_ids(base, t) && #[trigger] eps_of(m, t, s)
}

proof fn lemma_in_ids_push(v: Seq<StateId>, x: StateId, s: int)
    ensures
        in_ids(v.push(x), s) <==> (in_ids(v, s) || x.0 == s),
{
    if in_ids(v.push(x), s) {
        let i = choose|i: int| 0 <= i < v.push(x).len() && (#[trigger] v.push(x)[i]).0 == s;
        if i < v.len() {
            assert(v[i].0 == s);
        }
    }
    if in_ids(v, s) {
        let i = choose|i: int| 0 <= i < v.len() && (#[trigger] v[i]).0 == s;
        assert(v.push(x)[i].0 == s);
    }
    if x.0 == s {
        assert(v.push(x)[v.len() as int].0 == s);
    }
}

proof fn lemma_usize_push_contains(v: Seq<usize>, x: usize, y: usize)
    ensures
        v.push(x).contains(y) <==> (v.contains(y) || x == y),
{
    if v.push(x).contains(y) {
        let i = choose|i: int| 0 <= i < v.push(x).len() && v.push(x)[i] == y;
        if i < v.len() {
            assert(v[i] == y);
        }
    }
    if v.contains(y) {
        let i = choose|i: int| 0 <= i < v.len() && v[i] == y;
        assert(v.push(x)[i] == y);
    }
    if x == y {
        assert(v.push(x)[v.len() as int] == y);
    }
}

/// A copy of a state id vector.
fn clone_ids(v: &Vec<StateId>) -> (r: Vec<StateId>)
    ensures
        r@ == v@,
{
    let mut r: Vec<StateId> = Vec::new();
    let mut k: usize = 0;
    while k < v.len()
        invariant
            k <= v@.len(),
            r@ == v@.take(k as int),
        decreases v@.len() - k,
    {
        r.push(v[k]);
        proof {
            assert(r@ =~= v@.take(k + 1));
        }
        k = k + 1;
    }
    proof {
        assert(v@.take(v@.len() as int) =~= v@);
    }
    r
}

/// One step of the automaton: follow every transition whose condition
/// matches `seg`, then add the epsilon target of each entered state.
fn step_states(nfa: &Nfa, states: &Vec<StateId>, seg: &Vec<char>, Ghost(prev): Ghost<Set<int>>) -> (r:
    Vec<StateId>)
    requires
        nfa.wf(),
        ids_valid(nfa@, states@),
        ids_match(states@, prev),
    ensures
        ids_valid(nfa@, r@),
        ids_match(r@, step_set(nfa@, prev, seg@)),
{
    broadcast use vstd::set::group_set_axioms;

    let ghost m = nfa@;
    let mut nxt: Vec<StateId> = Vec::new();
    let mut si: usize = 0;
    while si < states.len()
        invariant
            si <= states@.len(),
            nfa.wf(),
            m == nfa@,
            ids_valid(m, states@),
            ids_match(states@, prev),
            ids_valid(m, nxt@),
            forall|i: int|
                0 <= i < nxt@.len() ==> justified(m, states@, seg@, (#[trigger] nxt@[i]).0 as int),
            forall|ii: int, t: int|
                0 <= ii < si && 0 <= t < m[states@[ii].0 as int].transitions.len()
                    && seg_matches(m[states@[ii].0 as int].transitions[t].seg, seg@) ==> in_ids(
                    nxt@,
                    (#[trigger] m[states@[ii].0 as int].transitions[t]).target,
                ),
        decreases states@.len() - si,
    {
        let q = states[si];
        let ghost qi = q.0 as int;
        proof {
            assert(valid_state(m, states@[si as int].0 as int));
        }
        let st = &nfa.states[q.0];
        proof {
            assert(m[qi] == st@);
        }
        let tn = st.transitions.len();
        let mut k: usize = 0;
        while k < tn
            invariant
                k <= tn,
                si < states@.len(),
                q == states@[si as int],
                qi == q.0 as int,
                0 <= qi < m.len(),
                nfa.wf(),
                m == nfa@,
                st == nfa.states@[qi],
                tn == st.transitions@.len(),
                tn == m[qi].transitions.len(),
                ids_valid(m, states@),
                ids_match(states@, prev),
                ids_valid(m, nxt@),
                forall|i: int|
                    0 <= i < nxt@.len() ==> justified(
                        m,
                        states@,
                        seg@,
                        (#[trigger] nxt@[i]).0 as int,
                    ),
                forall|ii: int, t: int|
                    0 <= ii < si && 0 <= t < m[states@[ii].0 as int].transitions.len()
                        && seg_matches(m[states@[ii].0 as int].transitions[t].seg, seg@) ==> in_ids(
                        nxt@,
                        (#[trigger] m[states@[ii].0 as int].transitions[t]).target,
                    ),
                forall|t: int|
                    0 <= t < k && seg_matches(m[qi].transitions[t].seg, seg@) ==> in_ids(
                        nxt@,
                        (#[trigger] m[qi].transitions[t]).target,
                    ),
            decreases tn - k,
        {
            let tr = &st.transitions[k];
            proof {
                assert(m[qi].transitions[k as int] == tr@);
            }
            if condition_matches(&tr.path_segment, tr.condition, seg) {
                let ghost oldnxt = nxt@;
                nxt.push(tr.target);
                proof {
                    assert(edge_to(m, qi, seg@, tr.target.0 as int));
                    assert(states@[si as int].0 == qi);
                    assert(in_ids(states@, qi));
                    assert(justified(m, states@, seg@, tr.target.0 as int));
                    assert forall|i: int| 0 <= i < nxt@.len() implies justified(
                        m,
                        states@,
                        seg@,
                        (#[trigger] nxt@[i]).0 as int,
                    ) by {
                        if i < oldnxt.len() {
                            assert(nxt@[i] == oldnxt[i]);
                        } else {
                            assert(nxt@[i] == tr.target);
                        }
                    }
                    assert forall|s: int| in_ids(oldnxt, s) implies in_ids(nxt@, s) by {
                        lemma_in_ids_push(oldnxt, tr.target, s);
                    }
                    lemma_in_ids_push(oldnxt, tr.target, tr.target.0 as int);
                }
            }
            k = k + 1;
        }
        si = si + 1;
    }
    // epsilon closure on entry: one hop from every entered state
    let ghost base = nxt@;
    let base_len = nxt.len();
    let mut j: usize = 0;
    while j < base_len
        invariant
            j <= base_len,
            base_len == base.len(),
            nfa.wf(),
            m == nfa@,
            ids_valid(m, base),
            ids_valid(m, nxt@),
            nxt@.len() >= base.len(),
            forall|i: int| 0 <= i < base.len() ==> nxt@[i] == base[i],
            forall|i: int|
                base.len() <= i < nxt@.len() ==> eps_justified(
                    m,
                    base,
                    (#[trigger] nxt@[i]).0 as int,
                ),
            forall|jj: int|
                0 <= jj < j && (#[trigger] m[base[jj].0 as int].epsilon) is Some ==> in_ids(
                    nxt@,
                    m[base[jj].0 as int].epsilon->0,
                ),
        decreases base_len - j,
    {
        let q = nxt[j];
        proof {
            assert(q == base[j as int]);
            assert(valid_state(m, base[j as int].0 as int));
        }
        match nfa.epsilon_of(q) {
            Some(e) => {
                let ghost oldnxt = nxt@;
                nxt.push(e);
                proof {
                    assert(eps_of(m, q.0 as int, e.0 as int));
                    assert(base[j as int].0 == q.0 as int);
                    assert(in_ids(base, q.0 as int));
                    assert(eps_justified(m, base, e.0 as int));
                    assert forall|i: int|
                        base.len() <= i < nxt@.len() implies eps_justified(
                        m,
                        base,
                        (#[trigger] nxt@[i]).0 as int,
                    ) by {
                        if i < oldnxt.len() {
                            assert(nxt@[i] == oldnxt[i]);
                        } else {
                            assert(nxt@[i] == e);
                        }
                    }
                    assert forall|jj: int|
                        0 <= jj < j + 1 && (#[trigger] m[base[jj].0 as int].epsilon) is Some implies in_ids(
                        nxt@,
                        m[base[jj].0 as int].epsilon->0,
                    ) by {
                        if jj < j {
                            lemma_in_ids_push(oldnxt, e, m[base[jj].0 as int].epsilon->0);
                        } else {
                            lemma_in_ids_push(oldnxt, e, e.0 as int);
                        }
                    }
                }
            },
            None => {},
        }
        j = j + 1;
    }
    proof {
        let result = step_set(m, prev, seg@);
        assert forall|s: int| #[trigger] result.contains(s) implies in_ids(nxt@, s) by {
            assert(exists|q: int| prev.contains(q) && #[trigger] reach_via(m, q, seg@, s));
            let q = choose|q: int| prev.contains(q) && #[trigger] reach_via(m, q, seg@, s);
            assert(in_ids(states@, q));
            if edge_to(m, q, seg@, s) {
                let ii = choose|i: int| 0 <= i < states@.len() && (#[trigger] states@[i]).0 == q;
                let t = choose|t: int|
                    0 <= t < m[q].transitions.len() && seg_matches(
                        (#[trigger] m[q].transitions[t]).seg,
                        seg@,
                    ) && m[q].transitions[t].target == s;
                assert(in_ids(base, s));
                let bi = choose|i: int| 0 <= i < base.len() && (#[trigger] base[i]).0 == s;
                assert(nxt@[bi].0 == s);
                assert(in_ids(nxt@, s));
            } else {
                let t = choose|t: int| #[trigger] edge_to(m, q, seg@, t) && eps_of(m, t, s);
                let ii = choose|i: int| 0 <= i < states@.len() && (#[trigger] states@[i]).0 == q;
                let tt = choose|k: int|
                    0 <= k < m[q].transitions.len() && seg_matches(
                        (#[trigger] m[q].transitions[k]).seg,
                        seg@,
                    ) && m[q].transitions[k].target == t;
                assert(in_ids(base, t));
                let bj = choose|i: int| 0 <= i < base.len() && (#[trigger] base[i]).0 == t;
                assert(m[base[bj].0 as int].epsilon is Some);
                assert(m[base[bj].0 as int].epsilon->0 == s);
                assert(in_ids(nxt@, s));
            }
        }
        assert forall|i: int| 0 <= i < nxt@.len() implies result.contains(
            (#[trigger] nxt@[i]).0 as int,
        ) by {
            if i < base.len() {
                assert(justified(m, states@, seg@, base[i].0 as int));
                let q = choose|q: int|
                    #[trigger] edge_to(m, q, seg@, base[i].0 as int) && in_ids(states@, q);
                assert(reach_via(m, q, seg@, base[i].0 as int));
                assert(prev.contains(q));
                assert(nxt@[i] == base[i]);
            } else {
                let t = choose|t: int| in_ids(base, t) && #[trigger] eps_of(m, t, nxt@[i].0 as int);
                let bi = choose|b: int| 0 <= b < base.len() && (#[trigger] base[b]).0 == t;
                assert(justified(m, states@, seg@, t));
                let q = choose|q: int| #[trigger] edge_to(m, q, seg@, t) && in_ids(states@, q);
                assert(reach_via(m, q, seg@, nxt@[i].0 as int));
                assert(prev.contains(q));
            }
        }
    }
    nxt
}

/// Matches paths against the compiled pattern set, memoizing the active
/// state set per path prefix.
pub struct Matcher {
    pub nfa: Nfa,
    pub cache_keys: Vec<Vec<Vec<char>>>,
    pub cache_vals: Vec<Vec<StateId>>,
}

/// A cache entry holds exactly the states that its segment prefix reaches.
pub open spec fn entry_ok(m: Seq<SpecState>, key: Seq<Seq<char>>, val: Seq<StateId>) -> bool {
    &&& ids_match(val, run_set(m, key))
    &&& ids_valid(m, val)
}

impl Matcher {
    pub open spec fn wf(&self) -> bool {
        &&& self.nfa.wf()
        &&& self.cache_keys@.len() == self.cache_vals@.len()
        &&& forall|e: int|
            0 <= e < self.cache_keys@.len() ==> entry_ok(
                self.nfa@,
                (#[trigger] self.cache_keys@[e]).deep_view(),
                self.cache_vals@[e]@,
            )
    }

    /// Wrap a compiled automaton, with an empty prefix cache.
    pub fn new(nfa: Nfa) -> (r: Matcher)
        requires
            nfa.wf(),
        ensures
            r.wf(),
            r.nfa@ == nfa@,
    {
        Matcher { nfa, cache_keys: Vec::new(), cache_vals: Vec::new() }
    }

    /// The cached state set for this segment prefix, if present.
    fn lookup_cache(&self, key: &Vec<Vec<char>>) -> (r: Option<Vec<StateId>>)
        requires
            self.wf(),
        ensures
            (match r {
                Some(v) => entry_ok(self.nfa@, key.deep_view(), v@),
                None => true,
            }),
    {
        let mut e: usize = 0;
        while e < self.cache_keys.len()
            invariant
                self.wf(),
                e <= self.cache_keys@.len(),
            decreases self.cache_keys@.len() - e,
        {
            if keys_eq(&self.cache_keys[e], key) {
                return Some(clone_ids(&self.cache_vals[e]));
            }
            e = e + 1;
        }
        None
    }

    /// Record the state set reached by a segment prefix.
    fn insert_cache(&mut self, key: Vec<Vec<char>>, val: Vec<StateId>)
        requires
            old(self).wf(),
            entry_ok(old(self).nfa@, key.deep_view(), val@),
        ensures
            final(self).wf(),
            final(self).nfa@ == old(self).nfa@,
    {
        self.cache_keys.push(key);
        self.cache_vals.push(val);
        proof {
            assert forall|e: int| 0 <= e < self.cache_keys@.len() implies entry_ok(
                self.nfa@,
                (#[trigger] self.cache_keys@[e]).deep_view(),
                self.cache_vals@[e]@,
            ) by {
                if e < old(self).cache_keys@.len() {
                    assert(self.cache_keys@[e] == old(self).cache_keys@[e]);
                    assert(self.cache_vals@[e] == old(self).cache_vals@[e]);
                }
            }
        }
    }

    /// The ids of the patterns the path matches: an id is in the result
    /// exactly when its pattern matches, though it may occur several times.
    pub fn matching_patterns(&mut self, path: &str) -> (r: Vec<usize>)
        requires
            old(self).wf(),
        ensures
            final(self).wf(),
            final(self).nfa@ == old(self).nfa@,
            forall|pid: usize| #[trigger]
                r@.contains(pid) <==> nfa_matches(old(self).nfa@, path_segments(path@), pid as int),
    {
        broadcast use vstd::set::group_set_axioms;

        let ghost m = self.nfa@;
        let chars = chars_of(path);
        let raw = split_chars(&chars, '/');
        let segs = strip_segs(&raw);
        let ghost segsv = segs.deep_view();
        proof {
            assert(segsv == path_segments(path@));
            lemma_deep_view_chars(&segs);
        }
        let n = segs.len();

        let mut states: Vec<StateId> = Vec::new();
        states.push(StateId(0));
        match self.nfa.epsilon_of(StateId(0)) {
            Some(e) => {
                states.push(e);
            },
            None => {},
        }
        proof {
            assert(segsv.take(0) =~~= Seq::<Seq<char>>::empty());
            assert forall|s: int| #[trigger] initial_set(m).contains(s) implies in_ids(
                states@,
                s,
            ) by {
                assert(initial_state(m, s));
                if s == 0 {
                    assert(states@[0].0 == s);
                } else {
                    assert(states@[1].0 == s);
                }
            }
            assert forall|i: int| 0 <= i < states@.len() implies initial_set(m).contains(
                (#[trigger] states@[i]).0 as int,
            ) by {
                assert(initial_state(m, states@[i].0 as int));
            }
        }

        let mut l: usize = 0;
        while l < n
            invariant
                l <= n,
                n == segs@.len(),
                n == segsv.len(),
                segs.deep_view() == segsv,
                forall|t: int| 0 <= t < segs@.len() ==> #[trigger] segs.deep_view()[t] == segs@[t]@,
                self.wf(),
                m == self.nfa@,
                ids_match(states@, run_set(m, segsv.take(l as int))),
                ids_valid(m, states@),
            decreases n - l,
        {
            // memoize the state set of the current prefix
            let mut key: Vec<Vec<char>> = Vec::new();
            let mut t: usize = 0;
            while t < l
                invariant
                    t <= l,
                    l <= n,
                    n == segs@.len(),
                    segs.deep_view() == segsv,
                    forall|z: int|
                        0 <= z < segs@.len() ==> #[trigger] segs.deep_view()[z] == segs@[z]@,
                    n == segsv.len(),
                    key.deep_view() == segsv.subrange(0, t as int),
                decreases l - t,
            {
                let ghost prevdv = key.deep_view();
                key.push(clone_chars(&segs[t]));
                proof {
                    lemma_deep_view_chars(&key);
                    assert(key.deep_view() =~~= segsv.subrange(0, t + 1)) by {
                        assert forall|z: int| 0 <= z < key@.len() implies key.deep_view()[z]
                            == segsv.subrange(0, t + 1)[z] by {
                            if z < prevdv.len() {
                                assert(key.deep_view()[z] == prevdv[z]);
                                assert(prevdv[z] == segsv.subrange(0, t as int)[z]);
                            } else {
                                assert(key.deep_view()[z] == key@[z]@);
                                assert(key@[z]@ == segs@[t as int]@);
                            }
                        }
                    }
                }
                t = t + 1;
            }
            proof {
                assert(key.deep_view() =~~= segsv.take(l as int));
            }
            match self.lookup_cache(&key) {
                Some(v) => {
                    states = v;
                },
                None => {
                    let copy = clone_ids(&states);
                    self.insert_cache(key, copy);
                },
            }
            let seg = &segs[l];
            proof {
                assert(seg@ == segsv[l as int]);
            }
            let stepped = step_states(
                &self.nfa,
                &states,
                seg,
                Ghost(run_set(m, segsv.take(l as int))),
            );
            states = stepped;
            proof {
                assert(segsv.take(l + 1).drop_last() =~~= segsv.take(l as int));
                assert(segsv.take(l + 1).last() == segsv[l as int]);
                assert(run_set(m, segsv.take(l + 1)) == step_set(
                    m,
                    run_set(m, segsv.take(l as int)),
                    segsv[l as int],
                ));
            }
            l = l + 1;
        }
        proof {
            assert(segsv.take(n as int) =~~= segsv);
        }

        // union of the terminal marks of the final states
        let mut out: Vec<usize> = Vec::new();
        let mut i: usize = 0;
        while i < states.len()
            invariant
                i <= states@.len(),
                self.wf(),
                m == self.nfa@,
                ids_match(states@, run_set(m, segsv)),
                ids_valid(m, states@),
                forall|z: int|
                    0 <= z < out@.len() ==> nfa_matches(m, segsv, (#[trigger] out@[z]) as int),
                forall|ii: int, k: int|
                    0 <= ii < i && 0 <= k < m[states@[ii].0 as int].terminal.len()
                        ==> out@.contains(
                        (#[trigger] m[states@[ii].0 as int].terminal[k]) as usize,
                    ),
            decreases states@.len() - i,
        {
            let q = states[i];
            let ghost qi = q.0 as int;
            proof {
                assert(valid_state(m, states@[i as int].0 as int));
            }
            let st = &self.nfa.states[q.0];
            proof {
                assert(m[qi] == st@);
                assert(run_set(m, segsv).contains(qi));
            }
            let pn = st.matching_patterns.len();
            let mut k: usize = 0;
            while k < pn
                invariant
                    k <= pn,
                    i < states@.len(),
                    q == states@[i as int],
                    qi == q.0 as int,
                    0 <= qi < m.len(),
                    self.wf(),
                    m == self.nfa@,
                    st == self.nfa.states@[qi],
                    pn == st.matching_patterns@.len(),
                    pn == m[qi].terminal.len(),
                    ids_match(states@, run_set(m, segsv)),
                    ids_valid(m, states@),
                    run_set(m, segsv).contains(qi),
                    forall|z: int|
                        0 <= z < out@.len() ==> nfa_matches(m, segsv, (#[trigger] out@[z]) as int),
                    forall|ii: int, kk: int|
                        0 <= ii < i && 0 <= kk < m[states@[ii].0 as int].terminal.len()
                            ==> out@.contains(
                            (#[trigger] m[states@[ii].0 as int].terminal[kk]) as usize,
                        ),
                    forall|kk: int|
                        0 <= kk < k ==> out@.contains((#[trigger] m[qi].terminal[kk]) as usize),
                decreases pn - k,
            {
                let pid = st.matching_patterns[k];
                let ghost oldout = out@;
                out.push(pid);
                proof {
                    assert(m[qi].terminal[k as int] == pid as int);
                    assert(m[qi].terminal.contains(pid as int));
                    assert(terminal_for(m, qi, pid as int));
                    assert(nfa_matches(m, segsv, pid as int));
                    assert forall|z: int| 0 <= z < out@.len() implies nfa_matches(
                        m,
                        segsv,
                        (#[trigger] out@[z]) as int,
                    ) by {
                        if z < oldout.len() {
                            assert(out@[z] == oldout[z]);
                        } else {
                            assert(out@[z] == pid);
                        }
                    }
                    assert forall|ii: int, kk: int|
                        0 <= ii < i && 0 <= kk
                            < m[states@[ii].0 as int].terminal.len() implies out@.contains(
                        (#[trigger] m[states@[ii].0 as int].terminal[kk]) as usize,
                    ) by {
                        lemma_usize_push_contains(
                            oldout,
                            pid,
                            m[states@[ii].0 as int].terminal[kk] as usize,
                        );
                    }
                    assert forall|kk: int| 0 <= kk < k + 1 implies out@.contains(
                        (#[trigger] m[qi].terminal[kk]) as usize,
                    ) by {
                        lemma_usize_push_contains(oldout, pid, m[qi].terminal[kk] as usize);
                        if kk == k {
                            assert(m[qi].terminal[kk] as usize == pid);
                        }
                    }
                }
                k = k + 1;
            }
            i = i + 1;
        }
        proof {
            assert forall|pid: usize| nfa_matches(m, segsv, pid as int) implies #[trigger]
                out@.contains(pid) by {
                let s = choose|s: int|
                    #[trigger] run_set(m, segsv).contains(s) && terminal_for(m, s, pid as int);
                let ii = choose|z: int| 0 <= z < states@.len() && (#[trigger] states@[z]).0 == s;
                let kk = choose|z: int|
                    0 <= z < m[s].terminal.len() && m[s].terminal[z] == pid as int;
                assert(states@[ii].0 as int == s);
                assert(out@.contains(m[states@[ii].0 as int].terminal[kk] as usize));
                assert(m[states@[ii].0 as int].terminal[kk] as usize == pid);
            }
        }
        out
    }

    /// Does any pattern match the path?
    pub fn is_match(&mut self, path: &str) -> (r: bool)
        requires
            old(self).wf(),
        ensures
            final(self).wf(),
            final(self).nfa@ == old(self).nfa@,
            r == exists|pid: usize| nfa_matches(old(self).nfa@, path_segments(path@), pid as int),
    {
        let ids = self.matching_patterns(path);
        let r = ids.len() > 0;
        proof {
            if ids@.len() > 0 {
                assert(ids@.contains(ids@[0]));
            } else {
                if exists|pid: usize| nfa_matches(old(self).nfa@, path_segments(path@), pid as int) {
                    let pid = choose|pid: usize|
                        nfa_matches(old(self).nfa@, path_segments(path@), pid as int);
                    assert(ids@.contains(pid));
                    assert(false);
                }
            }
        }
        r
    }

    /// Match many paths at once: each path paired with the ids of the
    /// patterns it matches. Work on shared path prefixes is shared through
    /// the prefix cache.
    pub fn matches_for_paths(&mut self, paths: &Vec<String>) -> (r: Vec<(String, Vec<usize>)>)
        requires
            old(self).wf(),
        ensures
            final(self).wf(),
            final(self).nfa@ == old(self).nfa@,
            r@.len() == paths@.len(),
            forall|z: int|
                0 <= z < r@.len() ==> (#[trigger] r@[z]).0@ == paths@[z]@ && ids_of(
                    old(self).nfa@,
                    paths@[z]@,
                    r@[z].1@,
                ),
    {
        let ghost m = self.nfa@;
        let mut out: Vec<(String, Vec<usize>)> = Vec::new();
        let mut i: usize = 0;
        while i < paths.len()
            invariant
                i <= paths@.len(),
                self.wf(),
                m == self.nfa@,
                out@.len() == i,
                forall|z: int|
                    0 <= z < i ==> (#[trigger] out@[z]).0@ == paths@[z]@ && ids_of(
                        m,
                        paths@[z]@,
                        out@[z].1@,
                    ),
            decreases paths@.len() - i,
        {
            let p = &paths[i];
            let ids = self.matching_patterns(p.as_str());
            out.push((clone_string(p), ids));
            i = i + 1;
        }
        out
    }
}

/// `ids` holds exactly the matching pattern ids for `path`.
pub open spec fn ids_of(m: Seq<SpecState>, path: Seq<char>, ids: Seq<usize>) -> bool {
    forall|pid: usize| #[trigger]
        ids.contains(pid) <==> nfa_matches(m, path_segments(path), pid as int)
}

/// Are two segment vectors equal?
fn keys_eq(a: &Vec<Vec<char>>, b: &Vec<Vec<char>>) -> (r: bool)
    ensures
        r == (a.deep_view() == b.deep_view()),
{
    proof {
        lemma_deep_view_chars(a);
        lemma_deep_view_chars(b);
    }
    if a.len() != b.len() {
        proof {
            assert(a.deep_view().len() != b.deep_view().len());
        }
        return false;
    }
    let mut k: usize = 0;
    while k < a.len()
        invariant
            k <= a@.len(),
            a@.len() == b@.len(),
            a.deep_view().len() == a@.len(),
            b.deep_view().len() == b@.len(),
            forall|t: int| 0 <= t < a@.len() ==> #[trigger] a.deep_view()[t] == a@[t]@,
            forall|t: int| 0 <= t < b@.len() ==> #[trigger] b.deep_view()[t] == b@[t]@,
            forall|t: int| 0 <= t < k ==> #[trigger] a.deep_view()[t] == b.deep_view()[t],
        decreases a@.len() - k,
    {
        if !chars_eq(&a[k], &b[k]) {
            proof {
                assert(a.deep_view()[k as int] != b.deep_view()[k as int]);
            }
            return false;
        }
        k = k + 1;
    }
    proof {
        assert(a.deep_view() =~~= b.deep_view());
    }
    true
}

} // verus!
