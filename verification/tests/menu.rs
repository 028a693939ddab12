use automata::menu::{parse_command, Command};

#[test]
fn digits_choose_in_menu_order() {
    assert_eq!(parse_command("1"), Command::Rebuild);
    assert_eq!(parse_command("2"), Command::Validate);
    assert_eq!(parse_command("3"), Command::ShowStates);
    assert_eq!(parse_command("4"), Command::ShowAlphabet);
    assert_eq!(parse_command("5"), Command::ShowStartState);
    assert_eq!(parse_command("6"), Command::ShowAcceptStates);
    assert_eq!(parse_command("7"), Command::ShowTuple);
    assert_eq!(parse_command("8"), Command::ShowTransitions);
    assert_eq!(parse_command("9"), Command::Quit);
}

#[test]
fn choice_is_read_without_surrounding_whitespace() {
    assert_eq!(parse_command(" 2 \n"), Command::Validate);
    assert_eq!(parse_command("9\r\n"), Command::Quit);
}

#[test]
fn anything_else_is_no_choice() {
    assert_eq!(parse_command(""), Command::Invalid);
    assert_eq!(parse_command("0"), Command::Invalid);
    assert_eq!(parse_command("10"), Command::Invalid);
    assert_eq!(parse_command("q"), Command::Invalid);
    assert_eq!(parse_command("1 2"), Command::Invalid);
}
