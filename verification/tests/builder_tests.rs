use codeowners::builder::Builder;
use codeowners::nfa::Nfa;
use codeowners::nfa::StateId;

#[test]
fn test_nfa_builder() {
    let mut builder = Builder::new();

    builder.add("/foo/*");
    assert_eq!(
        transitions_for(&builder.nfa),
        vec![(0, "foo".to_owned(), 1), (1, "*".to_owned(), 2)]
    );

    builder.add("/foo/bar");
    assert_eq!(
        transitions_for(&builder.nfa),
        vec![
            (0, "foo".to_owned(), 1),
            (1, "*".to_owned(), 2),
            (1, "bar".to_owned(), 3),
            (4, "*".to_owned(), 4)
        ]
    );
}

#[test]
fn test_thing() {
    let pat = "/modules/thanos-*/**";
    let mut builder = Builder::new();
    builder.add(pat);
    println!("{}", generate_dot(&builder.nfa));
}

fn generate_dot(nfa: &Nfa) -> String {
    let mut dot = String::from("digraph G {\n  rankdir=\"LR\"\n");
    for (state_id, state) in nfa.states.iter().enumerate() {
        if !state.matching_patterns.is_empty() {
            dot.push_str(&format!("  s{} [shape=doublecircle];\n", state_id));
        }
        for transition in state.transitions.iter() {
            let label: String = transition.path_segment.iter().collect();
            dot.push_str(&format!(
                "  s{} -> s{} [label=\"{}\"];\n",
                state_id, transition.target.0, label
            ));
        }
        if let Some(next_state_id) = nfa.states[state_id].epsilon_transition {
            dot.push_str(&format!(
                "  s{} -> s{} [label=\"e\"];\n",
                state_id, next_state_id.0
            ));
        }
    }
    dot.push_str("}\n");
    dot
}

fn transitions_for(nfa: &Nfa) -> Vec<(usize, String, usize)> {
    let mut out = Vec::new();
    for (idx, s) in nfa.states.iter().enumerate() {
        for t in s.transitions.iter() {
            let label: String = t.path_segment.iter().collect();
            let StateId(target) = t.target;
            out.push((idx, label, target));
        }
    }
    out
}
