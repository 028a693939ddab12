//! What can be wrong with an entry made while an automaton is assembled.

use vstd::prelude::*;

verus! {

/// The reason an entry or a construction was turned down. None of them is
/// fatal: what was accepted before stays, and the entry can be made again.
#[derive(Clone, Copy, Debug, PartialEq, Eq, Structural)]
pub enum AssemblyError {
    /// A cardinality is not an unsigned decimal number that fits the machine.
    InvalidCardinality,
    /// A symbol was asked for and the line holds none.
    EmptyEntry,
    /// The symbol is already in the alphabet.
    DuplicateSymbol,
    /// A state of that name is already declared.
    DuplicateState,
    /// The accept flag is neither yes nor no.
    InvalidAcceptFlag,
    /// A transition statement does not hold exactly one arrow.
    MalformedStatement,
    /// The left side of a statement is not enclosed in round brackets.
    MalformedSource,
    /// The left side does not hold exactly one comma.
    MalformedPair,
    /// The symbol of a statement is not exactly one character.
    InvalidSymbol,
    /// The symbol is not in the alphabet.
    UnknownSymbol,
    /// The right side of a statement is not enclosed in curly brackets.
    MalformedTargets,
    /// No state has that name, or that position.
    UnknownState,
    /// A state lacks a destination for a symbol of the alphabet.
    MissingTransition,
    /// A state of a deterministic automaton has two destinations for a symbol.
    AmbiguousTransition,
    /// The start state is absent though there are states, or is none of them.
    InvalidStart,
}

} // verus!
