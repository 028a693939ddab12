//! Finite automata over a finite alphabet of characters: assembly of a
//! deterministic or nondeterministic automaton from declared symbols, states
//! and transitions, simulation on input words, and rendering of the formal
//! five-tuple.

pub mod alphabet;
pub mod assembly;
pub mod dfa;
pub mod error;
pub mod gather;
pub mod menu;
pub mod nfa;
pub mod node;
pub mod render;
pub mod statement;
pub mod text;
