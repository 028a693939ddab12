//! The choices of the main menu.

use vstd::prelude::*;
use crate::text::{trimmed, trimmed_chars};

verus! {

/// What a line entered at the main menu asks for.
#[derive(Clone, Copy, Debug, PartialEq, Eq, Structural)]
pub enum Command {
    /// Assemble a new automaton in place of the present one.
    Rebuild,
    /// Test whether a word is accepted.
    Validate,
    /// Show the state set.
    ShowStates,
    /// Show the alphabet.
    ShowAlphabet,
    /// Show the start state.
    ShowStartState,
    /// Show the accept states.
    ShowAcceptStates,
    /// Show the five-tuple.
    ShowTuple,
    /// Show the transitions.
    ShowTransitions,
    /// Leave the program.
    Quit,
    /// The line is none of the choices.
    Invalid,
}

/// The choice that a line without the whitespace around it stands for: one
/// of the digits `1` to `9`, in the order of the menu.
pub open spec fn command_of(entry: Seq<char>) -> Command {
    if entry.len() != 1 {
        Command::Invalid
    } else if entry[0] == '1' {
        Command::Rebuild
    } else if entry[0] == '2' {
        Command::Validate
    } else if entry[0] == '3' {
        Command::ShowStates
    } else if entry[0] == '4' {
        Command::ShowAlphabet
    } else if entry[0] == '5' {
        Command::ShowStartState
    } else if entry[0] == '6' {
        Command::ShowAcceptStates
    } else if entry[0] == '7' {
        Command::ShowTuple
    } else if entry[0] == '8' {
        Command::ShowTransitions
    } else if entry[0] == '9' {
        Command::Quit
    } else {
        Command::Invalid
    }
}

/// Reads a line entered at the main menu.
pub fn parse_command(line: &str) -> (command: Command)
    ensures
        command == command_of(trimmed(line@)),
{
    let entry = trimmed_chars(line);
    if entry.len() != 1 {
        return Command::Invalid;
    }
    let c = entry[0];
    if c == '1' {
        Command::Rebuild
    } else if c == '2' {
        Command::Validate
    } else if c == '3' {
        Command::ShowStates
    } else if c == '4' {
        Command::ShowAlphabet
    } else if c == '5' {
        Command::ShowStartState
    } else if c == '6' {
        Command::ShowAcceptStates
    } else if c == '7' {
        Command::ShowTuple
    } else if c == '8' {
        Command::ShowTransitions
    } else if c == '9' {
        Command::Quit
    } else {
        Command::Invalid
    }
}

} // verus!
