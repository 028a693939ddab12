use automata::alphabet::Alphabet;
use automata::dfa::DFA;
use automata::error::AssemblyError;
use automata::node::Node;

fn alphabet_of(symbols: &str) -> Alphabet {
    let mut alphabet = Alphabet::new();
    for c in symbols.chars() {
        alphabet.insert(c);
    }
    alphabet
}

/// q0 --0--> q0, q0 --1--> q1, q1 --0--> q0, q1 --1--> q1; q1 accepts.
fn ends_in_one() -> DFA {
    let mut q0 = Node::new("q0", false);
    q0.set_transition('0', 0);
    q0.set_transition('1', 1);
    let mut q1 = Node::new("q1", true);
    q1.set_transition('0', 0);
    q1.set_transition('1', 1);
    DFA::new(alphabet_of("01"), vec![q0, q1], Some(0)).unwrap()
}

/// Accepts the binary numbers divisible by three.
fn divisible_by_three() -> DFA {
    let mut states = Vec::new();
    for r in 0..3usize {
        let mut q = Node::new(&format!("q{}", r), r == 0);
        q.set_transition('0', (2 * r) % 3);
        q.set_transition('1', (2 * r + 1) % 3);
        states.push(q);
    }
    DFA::new(alphabet_of("01"), states, Some(0)).unwrap()
}

#[test]
fn word_that_ends_in_an_accept_state_is_accepted() {
    let dfa = ends_in_one();
    assert!(dfa.run("1101"));
    let found = dfa.walk("1101");
    assert_eq!(found.halted_at, None);
    assert_eq!(found.visited, vec![0, 1, 1, 0, 1]);
}

#[test]
fn empty_word_stays_at_the_start_state() {
    let dfa = ends_in_one();
    assert!(!dfa.run(""));
    let found = dfa.walk("");
    assert_eq!(found.halted_at, None);
    assert_eq!(found.visited, vec![0]);
}

#[test]
fn symbol_outside_the_alphabet_halts_the_walk() {
    let dfa = ends_in_one();
    assert!(!dfa.run("102"));
    let found = dfa.walk("102");
    assert_eq!(found.halted_at, Some(2));
    assert_eq!(found.visited, vec![0, 1, 0]);
    let found = dfa.walk("2111");
    assert_eq!(found.halted_at, Some(0));
    assert_eq!(found.visited, vec![0]);
    assert!(!dfa.run("121"));
}

#[test]
fn same_word_gets_the_same_verdict_every_time() {
    let dfa = divisible_by_three();
    for word in ["", "0", "11", "110", "1001", "111", "10", "12"] {
        let first = dfa.run(word);
        assert_eq!(dfa.run(word), first);
        assert_eq!(dfa.run(word), first);
    }
}

#[test]
fn multiples_of_three_are_accepted() {
    let dfa = divisible_by_three();
    for n in 0..200u32 {
        let word = format!("{:b}", n);
        assert_eq!(dfa.run(&word), n % 3 == 0, "{}", word);
    }
}

#[test]
fn words_over_the_alphabet_are_read_to_the_end() {
    let dfa = divisible_by_three();
    for n in 0..64u32 {
        let word = format!("{:b}", n);
        let found = dfa.walk(&word);
        assert_eq!(found.halted_at, None);
        assert_eq!(found.visited.len(), word.len() + 1);
    }
}

#[test]
fn deterministic_verdict_is_the_nondeterministic_one() {
    let dfa = divisible_by_three();
    for word in ["", "0", "11", "110", "1001", "111", "10", "12", "1x1"] {
        assert_eq!(dfa.run(word), dfa.as_automaton().run(word), "{}", word);
    }
    assert_eq!(dfa.as_automaton().trace("110").accepted, vec![dfa.walk("110").visited]);
}

#[test]
fn unbound_pair_keeps_the_automaton_from_being_made() {
    let mut q0 = Node::new("q0", false);
    q0.set_transition('0', 0);
    let mut q1 = Node::new("q1", true);
    q1.set_transition('0', 0);
    q1.set_transition('1', 1);
    assert!(matches!(
        DFA::new(alphabet_of("01"), vec![q0, q1], Some(0)),
        Err(AssemblyError::MissingTransition)
    ));
    assert!(matches!(
        DFA::new(alphabet_of("0"), vec![Node::new("q0", true)], Some(0)),
        Err(AssemblyError::MissingTransition)
    ));
}

#[test]
fn second_destination_keeps_the_automaton_from_being_made() {
    let mut q0 = Node::new("q0", false);
    q0.add_transition('0', 0);
    q0.add_transition('0', 0);
    assert!(matches!(
        DFA::new(alphabet_of("0"), vec![q0], Some(0)),
        Err(AssemblyError::AmbiguousTransition)
    ));
}

#[test]
fn defects_of_any_automaton_come_first() {
    let twice = vec![Node::new("q0", false), Node::new("q0", false)];
    assert!(matches!(
        DFA::new(alphabet_of("0"), twice, Some(0)),
        Err(AssemblyError::DuplicateState)
    ));
    let mut q0 = Node::new("q0", false);
    q0.set_transition('0', 4);
    assert!(matches!(
        DFA::new(alphabet_of("0"), vec![q0], Some(0)),
        Err(AssemblyError::UnknownState)
    ));
    let mut q0 = Node::new("q0", false);
    q0.set_transition('0', 0);
    q0.set_transition('1', 0);
    assert!(matches!(
        DFA::new(alphabet_of("0"), vec![q0], Some(0)),
        Err(AssemblyError::UnknownSymbol)
    ));
    let mut q0 = Node::new("q0", false);
    q0.set_transition('0', 0);
    assert!(matches!(
        DFA::new(alphabet_of("0"), vec![q0], None),
        Err(AssemblyError::InvalidStart)
    ));
}

#[test]
fn rebinding_a_pair_keeps_the_last_destination() {
    let mut q0 = Node::new("q0", false);
    q0.set_transition('0', 0);
    q0.set_transition('0', 1);
    let mut q1 = Node::new("q1", true);
    q1.set_transition('0', 1);
    let dfa = DFA::new(alphabet_of("0"), vec![q0, q1], Some(0)).unwrap();
    assert!(dfa.run("0"));
    assert_eq!(dfa.walk("00").visited, vec![0, 1, 1]);
}

#[test]
fn deterministic_automaton_without_states_rejects_everything() {
    let dfa = DFA::new(alphabet_of("0"), Vec::new(), None).unwrap();
    assert!(!dfa.run(""));
    assert!(!dfa.run("0"));
    assert_eq!(dfa.walk("").halted_at, None);
    assert_eq!(dfa.walk("00").halted_at, Some(0));
    assert_eq!(dfa.walk("00").visited, Vec::<usize>::new());
}

#[test]
fn automaton_over_no_symbols_reads_the_empty_word_only() {
    let dfa = DFA::new(Alphabet::new(), vec![Node::new("q0", true)], Some(0)).unwrap();
    assert!(dfa.run(""));
    assert!(!dfa.run("a"));
}
