use automata::alphabet::Alphabet;
use automata::assembly::bind_transition;
use automata::dfa::DFA;
use automata::nfa::NFA;
use automata::node::Node;
use automata::render::{render_list, render_set};

fn alphabet_of(symbols: &str) -> Alphabet {
    let mut alphabet = Alphabet::new();
    for c in symbols.chars() {
        alphabet.insert(c);
    }
    alphabet
}

fn branching() -> NFA {
    let mut q0 = Node::new("q0", false);
    q0.add_transition('a', 0);
    q0.add_transition('a', 1);
    let mut q1 = Node::new("q1", false);
    q1.add_transition('b', 2);
    let q2 = Node::new("q2", true);
    NFA::new(alphabet_of("ab"), vec![q0, q1, q2], Some(0)).unwrap()
}

fn strings(names: &[&str]) -> Vec<String> {
    names.iter().map(|s| s.to_string()).collect()
}

#[test]
fn set_is_written_in_curly_brackets() {
    assert_eq!(render_set(&strings(&["q0", "q1"])), "{q0, q1}");
    assert_eq!(render_set(&strings(&["q0"])), "{q0}");
    assert_eq!(render_set(&strings(&[])), "{}");
    assert_eq!(render_set(&strings(&["", ""])), "{, }");
}

#[test]
fn list_is_written_in_square_brackets() {
    assert_eq!(render_list(&strings(&["q0", "q1", "q2"])), "[q0, q1, q2]");
    assert_eq!(render_list(&strings(&[])), "[]");
}

#[test]
fn states_and_accept_states_are_shown_in_declaration_order() {
    let nfa = branching();
    assert_eq!(nfa.render_states(), "{q0, q1, q2}");
    assert_eq!(nfa.render_accept_states(), "{q2}");
    assert_eq!(nfa.state_names(), strings(&["q0", "q1", "q2"]));
    assert_eq!(nfa.accept_state_names(), strings(&["q2"]));
}

#[test]
fn alphabet_is_shown_with_quoted_symbols() {
    assert_eq!(branching().render_alphabet(), "{'a', 'b'}");
    let odd = NFA::new(alphabet_of("\n'x"), Vec::new(), None).unwrap();
    assert_eq!(odd.render_alphabet(), "{'\\n', '\\'', 'x'}");
    assert_eq!(NFA::new(Alphabet::new(), Vec::new(), None).unwrap().render_alphabet(), "{}");
}

#[test]
fn start_state_is_shown_by_name() {
    assert_eq!(branching().render_start_state(), "q0");
    let empty = NFA::new(alphabet_of("a"), Vec::new(), None).unwrap();
    assert_eq!(empty.render_start_state(), "Empty");
}

#[test]
fn transitions_are_shown_line_by_line() {
    assert_eq!(branching().render_transitions(), "δ(q0, a) = [q0, q1]\nδ(q1, b) = [q2]\n");
    let empty = NFA::new(alphabet_of("a"), Vec::new(), None).unwrap();
    assert_eq!(empty.render_transitions(), "");
}

#[test]
fn bound_pairs_are_shown_in_the_order_of_their_first_binding() {
    let mut states = vec![Node::new("q0", true)];
    for (symbol, name) in [('a', "q0"), ('b', "q0"), ('a', "q0")] {
        assert_eq!(bind_transition(&mut states, 0, symbol, name), Ok(0));
    }
    let dfa = DFA::new(alphabet_of("ab"), states, Some(0)).unwrap();
    assert_eq!(dfa.as_automaton().render_transitions(), "δ(q0, a) = [q0]\nδ(q0, b) = [q0]\n");
}

#[test]
fn five_tuple_names_every_part() {
    assert_eq!(branching().tupla(), "A = <Q = {q0, q1, q2}, Σ = {'a', 'b'}, q0, δ, F = {q2}>");
    let empty = NFA::new(Alphabet::new(), Vec::new(), None).unwrap();
    assert_eq!(empty.tupla(), "A = <Q = {}, Σ = {}, Empty, δ, F = {}>");
}

#[test]
fn accepted_path_is_traced_by_state_names() {
    let nfa = branching();
    let found = nfa.trace("ab");
    assert_eq!(found.accepted.len(), 1);
    assert_eq!(nfa.path_names(&found.accepted[0]), Some(strings(&["q0", "q1", "q2"])));
    assert_eq!(nfa.path_names(&vec![0, 3]), None);
    assert_eq!(nfa.path_names(&Vec::new()), Some(Vec::new()));
}

#[test]
fn deterministic_automaton_is_shown_like_any_other() {
    let mut q0 = Node::new("even", true);
    q0.set_transition('1', 1);
    let mut q1 = Node::new("odd", false);
    q1.set_transition('1', 0);
    let dfa = DFA::new(alphabet_of("1"), vec![q0, q1], Some(0)).unwrap();
    assert_eq!(dfa.as_automaton().tupla(), "A = <Q = {even, odd}, Σ = {'1'}, even, δ, F = {even}>");
    assert_eq!(
        dfa.as_automaton().render_transitions(),
        "δ(even, 1) = [odd]\nδ(odd, 1) = [even]\n"
    );
}
