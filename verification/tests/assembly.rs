use automata::alphabet::Alphabet;
use automata::assembly::{
    apply_statement, bind_transition, declare_state, decide_transition, define_start_state,
    enter_state_name, enter_symbol, enter_transition, entry_wanted, find_state,
    first_unknown_name, parse_accept_flag, parse_cardinality, TransitionEntry,
};
use automata::error::AssemblyError;
use automata::nfa::NFA;
use automata::node::Node;
use automata::statement::parse_statement;

fn alphabet_of(symbols: &str) -> Alphabet {
    let mut alphabet = Alphabet::new();
    for c in symbols.chars() {
        alphabet.insert(c);
    }
    alphabet
}

fn three_states() -> Vec<Node> {
    let mut states = Vec::new();
    declare_state(&mut states, "q0", false);
    declare_state(&mut states, "q1", false);
    declare_state(&mut states, "q2", true);
    states
}

#[test]
fn cardinality_is_an_unsigned_decimal_number() {
    assert_eq!(parse_cardinality("0"), Ok(0));
    assert_eq!(parse_cardinality("3"), Ok(3));
    assert_eq!(parse_cardinality(" 12 \n"), Ok(12));
    assert_eq!(parse_cardinality("+7"), Ok(7));
    assert_eq!(parse_cardinality("007"), Ok(7));
    assert_eq!(parse_cardinality("4096"), Ok(4096));
}

#[test]
fn cardinality_that_is_no_number_is_turned_down() {
    for line in ["", " ", "+", "-", "-1", "++1", "1 2", "3a", "a3", "1.5", "٣", "+ 1"] {
        assert_eq!(parse_cardinality(line), Err(AssemblyError::InvalidCardinality), "{:?}", line);
    }
}

#[test]
fn cardinality_must_fit_the_machine() {
    let max = usize::MAX.to_string();
    assert_eq!(parse_cardinality(&max), Ok(usize::MAX));
    let over = format!("{}0", max);
    assert_eq!(parse_cardinality(&over), Err(AssemblyError::InvalidCardinality));
    let next = format!("{}", usize::MAX as u128 + 1);
    assert_eq!(parse_cardinality(&next), Err(AssemblyError::InvalidCardinality));
}

#[test]
fn cardinality_agrees_with_the_standard_library() {
    let samples = ["0", "+0", "42", " 42", "42 ", "+", "", "-0", "18446744073709551615",
        "18446744073709551616", "00000000000000000000000001", "1_000", "0x10"];
    for line in samples {
        assert_eq!(parse_cardinality(line).ok(), line.trim().parse::<usize>().ok(), "{:?}", line);
    }
}

#[test]
fn symbol_is_the_first_character_of_the_line() {
    let mut alphabet = Alphabet::new();
    assert_eq!(enter_symbol(&mut alphabet, "a\n"), Ok('a'));
    assert_eq!(enter_symbol(&mut alphabet, "  bcd"), Ok('b'));
    assert_eq!(alphabet.len(), 2);
    assert_eq!(alphabet.get(0), 'a');
    assert_eq!(alphabet.get(1), 'b');
    assert!(alphabet.contains('a'));
    assert!(!alphabet.contains('c'));
}

#[test]
fn rejected_symbol_leaves_the_count_as_it_was() {
    let mut alphabet = Alphabet::new();
    assert_eq!(enter_symbol(&mut alphabet, "0"), Ok('0'));
    assert_eq!(enter_symbol(&mut alphabet, "0"), Err(AssemblyError::DuplicateSymbol));
    assert_eq!(alphabet.len(), 1);
    assert_eq!(enter_symbol(&mut alphabet, "   \n"), Err(AssemblyError::EmptyEntry));
    assert_eq!(enter_symbol(&mut alphabet, ""), Err(AssemblyError::EmptyEntry));
    assert_eq!(alphabet.len(), 1);
    assert_eq!(enter_symbol(&mut alphabet, "01"), Err(AssemblyError::DuplicateSymbol));
    assert_eq!(alphabet.len(), 1);
    assert_eq!(enter_symbol(&mut alphabet, "1"), Ok('1'));
    assert_eq!(alphabet.len(), 2);
}

#[test]
fn alphabet_of_no_symbols_is_legal() {
    let alphabet = Alphabet::new();
    assert_eq!(alphabet.len(), 0);
    assert!(!alphabet.contains('a'));
}

#[test]
fn state_name_is_the_trimmed_line() {
    let states = three_states();
    assert_eq!(enter_state_name(&states, " q3 \n"), Ok("q3".to_string()));
    assert_eq!(enter_state_name(&states, ""), Ok(String::new()));
}

#[test]
fn rejected_state_name_leaves_the_count_as_it_was() {
    let mut states = three_states();
    assert_eq!(enter_state_name(&states, "q1"), Err(AssemblyError::DuplicateState));
    assert_eq!(enter_state_name(&states, "  q2\n"), Err(AssemblyError::DuplicateState));
    assert_eq!(states.len(), 3);
    let name = enter_state_name(&states, "q3").unwrap();
    declare_state(&mut states, &name, true);
    assert_eq!(states.len(), 4);
    assert_eq!(states[3].state(), "q3");
    assert!(states[3].is_accept());
    assert_eq!(enter_state_name(&states, "q3"), Err(AssemblyError::DuplicateState));
}

#[test]
fn accept_flag_is_s_or_n() {
    assert_eq!(parse_accept_flag("s"), Ok(true));
    assert_eq!(parse_accept_flag("n"), Ok(false));
    assert_eq!(parse_accept_flag(" s\n"), Ok(true));
    for line in ["", "S", "N", "si", "y", "no", "s n"] {
        assert_eq!(parse_accept_flag(line), Err(AssemblyError::InvalidAcceptFlag), "{:?}", line);
    }
}

#[test]
fn first_state_of_a_name_is_found() {
    let states = three_states();
    assert_eq!(find_state(&states, &"q0".to_string()), Some(0));
    assert_eq!(find_state(&states, &"q2".to_string()), Some(2));
    assert_eq!(find_state(&states, &"q3".to_string()), None);
    assert_eq!(find_state(&Vec::new(), &"q0".to_string()), None);
}

#[test]
fn statement_adds_its_destinations_in_order() {
    let mut states = three_states();
    let alphabet = alphabet_of("ab");
    let entry = enter_transition(&mut states, &alphabet, "(q0, a)->{q0, q1}\n");
    assert!(matches!(entry, TransitionEntry::Applied { found, .. } if found == vec![0, 1]));
    assert_eq!(states[0].next_states('a'), vec![0, 1]);
    let again = enter_transition(&mut states, &alphabet, " (q1,b) -> { q2 } ");
    assert!(matches!(again, TransitionEntry::Applied { statement, .. }
        if statement.state == "q1" && statement.symbol == 'b' && statement.targets == vec!["q2"]));
    assert_eq!(states[0].next_states('b'), Vec::<usize>::new());
    assert_eq!(states[1].next_states('a'), Vec::<usize>::new());
}

#[test]
fn statements_for_one_pair_accumulate() {
    let mut states = three_states();
    let alphabet = alphabet_of("ab");
    enter_transition(&mut states, &alphabet, "(q0, a)->{q1}");
    enter_transition(&mut states, &alphabet, "(q0, b)->{q2}");
    enter_transition(&mut states, &alphabet, "(q0, a)->{q2, q1}");
    assert_eq!(states[0].next_states('a'), vec![1, 2, 1]);
    assert_eq!(states[0].next_states('b'), vec![2]);
    assert_eq!(states[0].symbol_list(), vec!['a', 'b']);
}

/// The names of the destinations of the state at `from` on `symbol`.
fn destination_names(states: &Vec<Node>, from: usize, symbol: char) -> Vec<String> {
    states[from].next_states(symbol).into_iter().map(|t| states[t].state().clone()).collect()
}

#[test]
fn statement_with_an_unknown_destination_is_turned_down_whole() {
    let mut states = three_states();
    let alphabet = alphabet_of("ab");
    for line in ["(q0, a)->{q1, q9}", "(q0, a)->{q9, q1}", "(q0, a)->{q1, q2, }", "exit"] {
        let _ = enter_transition(&mut states, &alphabet, line);
    }
    assert_eq!(states[0].next_states('a'), Vec::<usize>::new());
    assert_eq!(states[0].symbol_list(), Vec::<char>::new());
    let entry = enter_transition(&mut states, &alphabet, "(q0, a)->{q1, q9}");
    assert!(matches!(entry, TransitionEntry::Rejected { error, subject }
        if error == AssemblyError::UnknownState && subject == "q9"));
    let entry = enter_transition(&mut states, &alphabet, "(q1, b)->{q9, q2, }");
    assert!(matches!(entry, TransitionEntry::Rejected { error, subject }
        if error == AssemblyError::UnknownState && subject == "q9"));
    let entry = enter_transition(&mut states, &alphabet, "(q1, b)->{q2, }");
    assert!(matches!(entry, TransitionEntry::Rejected { error, subject }
        if error == AssemblyError::UnknownState && subject == ""));
    assert_eq!(states[1].next_states('b'), Vec::<usize>::new());
}

#[test]
fn statement_that_was_turned_down_can_be_entered_again() {
    let mut states = three_states();
    let alphabet = alphabet_of("ab");
    let first = enter_transition(&mut states, &alphabet, "(q0, a)->{q1, q3}");
    assert!(matches!(first, TransitionEntry::Rejected { .. }));
    declare_state(&mut states, "q3", false);
    let again = enter_transition(&mut states, &alphabet, "(q0, a)->{q1, q3}");
    assert!(matches!(again, TransitionEntry::Applied { found, .. } if found == vec![1, 3]));
    assert_eq!(destination_names(&states, 0, 'a'), vec!["q1", "q3"]);
}

#[test]
fn symbol_of_more_than_one_byte_names_a_transition() {
    let mut states = Vec::new();
    declare_state(&mut states, "q0", true);
    let mut alphabet = Alphabet::new();
    assert_eq!(enter_symbol(&mut alphabet, "λ"), Ok('λ'));
    for line in ["(q0, λ)->{q0}", "exit"] {
        let _ = enter_transition(&mut states, &alphabet, line);
    }
    assert_eq!(destination_names(&states, 0, 'λ'), vec!["q0"]);
    let nfa = NFA::new(alphabet, states, Some(0)).unwrap();
    assert!(nfa.run("λλλ"));
    assert!(!nfa.run("λa"));
}

#[test]
fn empty_braces_name_the_state_without_a_name() {
    let mut states = three_states();
    let alphabet = alphabet_of("ab");
    let entry = enter_transition(&mut states, &alphabet, "(q2, b)->{}");
    assert!(matches!(entry, TransitionEntry::Rejected { error, subject }
        if error == AssemblyError::UnknownState && subject == ""));
    assert_eq!(states[2].symbol_list(), Vec::<char>::new());
    declare_state(&mut states, "", false);
    let entry = enter_transition(&mut states, &alphabet, "(q2, b)->{}");
    assert!(matches!(entry, TransitionEntry::Applied { found, .. } if found == vec![3]));
    let entry = enter_transition(&mut states, &alphabet, "(, a)->{q0, }");
    assert!(matches!(entry, TransitionEntry::Applied { found, .. } if found == vec![0, 3]));
    assert_eq!(states[3].next_states('a'), vec![0, 3]);
}

#[test]
fn first_name_without_a_state_is_found() {
    let states = three_states();
    let alphabet = alphabet_of("ab");
    let unknown = |line: &str| {
        first_unknown_name(&states, &parse_statement(line, &alphabet).unwrap())
    };
    assert_eq!(unknown("(q0, a)->{q1, q2}"), None);
    assert_eq!(unknown("(q7, a)->{q8, q9}"), Some("q7".to_string()));
    assert_eq!(unknown("(q0, a)->{q1, q8, q9}"), Some("q8".to_string()));
    assert_eq!(unknown("(q0, a)->{q1, }"), Some(String::new()));
}

#[test]
fn another_entry_is_wanted_until_the_count_is_reached() {
    assert!(entry_wanted(0, 1));
    assert!(entry_wanted(2, 3));
    assert!(!entry_wanted(3, 3));
    assert!(!entry_wanted(0, 0));
    assert!(!entry_wanted(4, 3));
}

#[test]
fn rejection_names_what_it_is_about() {
    let mut states = three_states();
    let alphabet = alphabet_of("ab");
    let subject_of = |entry: TransitionEntry| match entry {
        TransitionEntry::Rejected { subject, .. } => subject,
        _ => panic!("not turned down"),
    };
    assert_eq!(subject_of(enter_transition(&mut states, &alphabet, "(q0, c)->{q1}")), "c");
    assert_eq!(subject_of(enter_transition(&mut states, &alphabet, "(q0, λ)->q1")), "λ");
    assert_eq!(subject_of(enter_transition(&mut states, &alphabet, "(q5, a)->{q9}")), "q5");
    assert_eq!(subject_of(enter_transition(&mut states, &alphabet, "(q0, a)->{q1,q9}")), "q9");
    assert_eq!(subject_of(enter_transition(&mut states, &alphabet, "(q0, ab)->{q1}")), "");
    assert_eq!(subject_of(enter_transition(&mut states, &alphabet, "q0, a->{q1}")), "");
}

#[test]
fn rejected_statement_loses_nothing_and_adds_nothing() {
    let mut states = three_states();
    let alphabet = alphabet_of("ab");
    enter_transition(&mut states, &alphabet, "(q0, a)->{q1}");
    let rejected = [
        ("(q9, a)->{q1}", AssemblyError::UnknownState),
        ("(q0, c)->{q1}", AssemblyError::UnknownSymbol),
        ("(q0, λ)->{q1}", AssemblyError::UnknownSymbol),
        ("(q0, a)=>{q1}", AssemblyError::MalformedStatement),
        ("q0, a->{q1}", AssemblyError::MalformedSource),
        ("(q0 a)->{q1}", AssemblyError::MalformedPair),
        ("(q0, aa)->{q1}", AssemblyError::InvalidSymbol),
        ("(q0, a)->q1", AssemblyError::MalformedTargets),
        ("(q0, a)->{q1, q9}", AssemblyError::UnknownState),
    ];
    for (line, error) in rejected {
        let entry = enter_transition(&mut states, &alphabet, line);
        assert!(
            matches!(entry, TransitionEntry::Rejected { error: e, .. } if e == error),
            "{:?}",
            line
        );
        assert_eq!(states.len(), 3);
        assert_eq!(states[0].next_states('a'), vec![1]);
        assert_eq!(states[0].symbol_list(), vec!['a']);
        assert_eq!(states[1].symbol_list(), Vec::<char>::new());
    }
}

#[test]
fn exit_in_any_case_ends_the_entry() {
    let mut states = three_states();
    let alphabet = alphabet_of("ab");
    for line in ["exit", "EXIT", "Exit\n", "  eXiT  "] {
        assert!(matches!(enter_transition(&mut states, &alphabet, line), TransitionEntry::Finished));
    }
    for line in ["exit now", "exi", "quit", ""] {
        assert!(matches!(
            enter_transition(&mut states, &alphabet, line),
            TransitionEntry::Rejected { .. }
        ));
    }
}

#[test]
fn decision_goes_by_the_lowered_word_it_is_given() {
    let mut states = three_states();
    let alphabet = alphabet_of("ab");
    assert!(matches!(
        decide_transition(&mut states, &alphabet, "(q0, a)->{q1}", "exit"),
        TransitionEntry::Finished
    ));
    assert_eq!(states[0].next_states('a'), Vec::<usize>::new());
    assert!(matches!(
        decide_transition(&mut states, &alphabet, "(q0, a)->{q1}", "EXIT"),
        TransitionEntry::Applied { .. }
    ));
    assert_eq!(states[0].next_states('a'), vec![1]);
    assert!(matches!(
        decide_transition(&mut states, &alphabet, "exit", "exit "),
        TransitionEntry::Rejected { error: AssemblyError::MalformedStatement, .. }
    ));
}

#[test]
fn statement_is_applied_after_it_is_read() {
    let mut states = three_states();
    let alphabet = alphabet_of("ab");
    let st = parse_statement("(q2, b)->{q2, q0}", &alphabet).unwrap();
    assert_eq!(apply_statement(&mut states, &st), Ok(vec![2, 0]));
    assert_eq!(states[2].next_states('b'), vec![2, 0]);
    let st = parse_statement("(q7, b)->{q2}", &alphabet).unwrap();
    assert_eq!(apply_statement(&mut states, &st), Err(AssemblyError::UnknownState));
    let st = parse_statement("(q2, b)->{q1, q7}", &alphabet).unwrap();
    assert_eq!(apply_statement(&mut states, &st), Err(AssemblyError::UnknownState));
    assert_eq!(states[2].next_states('b'), vec![2, 0]);
}

#[test]
fn start_state_is_designated_by_name() {
    let states = three_states();
    assert_eq!(define_start_state(&states, "q1\n"), Ok(Some(1)));
    assert_eq!(define_start_state(&states, " q0 "), Ok(Some(0)));
    assert_eq!(define_start_state(&states, "q5"), Err(AssemblyError::UnknownState));
    assert_eq!(define_start_state(&states, ""), Err(AssemblyError::UnknownState));
}

#[test]
fn placeholder_starts_an_automaton_without_states() {
    let states: Vec<Node> = Vec::new();
    assert_eq!(define_start_state(&states, "q0"), Ok(None));
    assert_eq!(define_start_state(&states, ""), Ok(None));
}

#[test]
fn binding_overwrites_the_earlier_destination() {
    let mut states = three_states();
    assert_eq!(bind_transition(&mut states, 0, 'a', "q1"), Ok(1));
    assert_eq!(bind_transition(&mut states, 0, 'b', " q0\n"), Ok(0));
    assert_eq!(bind_transition(&mut states, 0, 'a', "q2"), Ok(2));
    assert_eq!(states[0].next_states('a'), vec![2]);
    assert_eq!(states[0].next_states('b'), vec![0]);
    assert_eq!(states[0].symbol_list(), vec!['a', 'b']);
    assert_eq!(states[0].next_state('a'), Some(2));
    assert_eq!(states[0].next_state('c'), None);
}

#[test]
fn binding_to_an_unknown_state_changes_nothing() {
    let mut states = three_states();
    assert_eq!(bind_transition(&mut states, 0, 'a', "q1"), Ok(1));
    assert_eq!(bind_transition(&mut states, 0, 'a', "q9"), Err(AssemblyError::UnknownState));
    assert_eq!(bind_transition(&mut states, 3, 'a', "q1"), Err(AssemblyError::UnknownState));
    assert_eq!(states[0].next_states('a'), vec![1]);
}

#[test]
fn assembled_parts_form_an_automaton() {
    let mut alphabet = Alphabet::new();
    for line in ["a", "a", "", "b"] {
        let _ = enter_symbol(&mut alphabet, line);
    }
    let mut states = Vec::new();
    for (line, flag) in [("q0", "n"), ("q1", "n"), ("q1", "s"), ("q2", "s")] {
        if let Ok(name) = enter_state_name(&states, line) {
            declare_state(&mut states, &name, parse_accept_flag(flag).unwrap());
        }
    }
    for line in
        ["(q0, a)->{q0, q1}", "(q1, b)->{q2, q7}", "(q1, b)->{q2}", "(q1, c)->{q2}", "oops", "exit"]
    {
        let _ = enter_transition(&mut states, &alphabet, line);
    }
    let start = define_start_state(&states, "q0").unwrap();
    let nfa = NFA::new(alphabet, states, start).unwrap();
    assert_eq!(nfa.state_count(), 3);
    assert_eq!(nfa.symbols().len(), 2);
    assert_eq!(nfa.start_index(), Some(0));
    assert!(nfa.run("ab"));
    assert!(nfa.run("aaab"));
    assert!(!nfa.run("b"));
}
