//! The deterministic automaton: every state has exactly one destination for
//! every symbol of the alphabet, so a word is read along a single path.

use vstd::prelude::*;
use crate::alphabet::Alphabet;
use crate::error::AssemblyError;
use crate::nfa::{defect, NFA};
use crate::node::{lemma_symbols_have_targets, Node};
use crate::text::chars_of;

verus! {

/// Every state has a destination for every symbol of the alphabet.
pub open spec fn total(states: Seq<Node>, alphabet: Seq<char>) -> bool {
    forall|i: int, a: int|
        0 <= i < states.len() && 0 <= a < alphabet.len() ==> (#[trigger] states[i]).targets(
            #[trigger] alphabet[a],
        ).len() >= 1
}

/// `node` has at most one destination for any symbol.
pub open spec fn node_single(node: Node) -> bool {
    forall|c: char| #![trigger node.targets(c)] node.targets(c).len() <= 1
}

/// No state has two destinations for one symbol.
pub open spec fn single_valued(states: Seq<Node>) -> bool {
    forall|i: int| 0 <= i < states.len() ==> node_single(#[trigger] states[i])
}

/// What keeps the given parts from forming a deterministic automaton: a
/// defect that any automaton can have, a missing destination, or a second
/// destination; the first of them that holds, or nothing.
pub open spec fn dfa_defect(states: Seq<Node>, alphabet: Seq<char>, start: Option<usize>) -> Option<
    AssemblyError,
> {
    match defect(states, alphabet, start) {
        Some(e) => Some(e),
        None => if !total(states, alphabet) {
            Some(AssemblyError::MissingTransition)
        } else if !single_valued(states) {
            Some(AssemblyError::AmbiguousTransition)
        } else {
            None
        },
    }
}

/// Whether `node` has a destination for every symbol of `alphabet`.
fn binds_every_symbol(node: &Node, alphabet: &Alphabet) -> (ok: bool)
    requires
        node.wf(),
    ensures
        ok == forall|a: int|
            0 <= a < alphabet@.len() ==> node.targets(#[trigger] alphabet@[a]).len() >= 1,
{
    let mut a: usize = 0;
    while a < alphabet.len()
        invariant
            a <= alphabet@.len(),
            node.wf(),
            forall|b: int| 0 <= b < a ==> node.targets(#[trigger] alphabet@[b]).len() >= 1,
        decreases alphabet@.len() - a,
    {
        if node.next_state(alphabet.get(a)).is_none() {
            return false;
        }
        a += 1;
    }
    true
}

/// Whether `node` has at most one destination for any symbol.
fn binds_at_most_once(node: &Node) -> (ok: bool)
    requires
        node.wf(),
    ensures
        ok == node_single(*node),
{
    let list = node.symbol_list();
    let mut a: usize = 0;
    while a < list.len()
        invariant
            a <= list.len(),
            node.wf(),
            list@ == node.symbols(),
            forall|b: int| 0 <= b < a ==> node.targets(#[trigger] list@[b]).len() <= 1,
        decreases list.len() - a,
    {
        if node.next_states(list[a]).len() > 1 {
            return false;
        }
        a += 1;
    }
    proof {
        assert forall|c: char| #![trigger node.targets(c)] node.targets(c).len() <= 1 by {
            lemma_symbols_have_targets(*node, c);
        }
    }
    true
}

/// What a deterministic walk found out about a word.
pub struct Walk {
    /// The position of the symbol for which the state reached had no
    /// destination, where the walk stopped early.
    pub halted_at: Option<usize>,
    /// The states visited, from the start state on, as positions.
    pub visited: Vec<usize>,
}

/// A deterministic finite automaton.
pub struct DFA {
    inner: NFA,
}

impl DFA {
    /// The automaton seen as a nondeterministic one, with the same states,
    /// alphabet and start state.
    pub closed spec fn as_nfa(&self) -> NFA {
        self.inner
    }

    /// The states, in declaration order.
    pub open spec fn states(&self) -> Seq<Node> {
        self.as_nfa().states()
    }

    /// The alphabet, in declaration order.
    pub open spec fn alphabet(&self) -> Seq<char> {
        self.as_nfa().alphabet()
    }

    /// The position of the start state; `None` for the placeholder of an
    /// automaton without states.
    pub open spec fn start(&self) -> Option<usize> {
        self.as_nfa().start()
    }

    /// The automaton is complete and deterministic: its parts have no defect.
    pub open spec fn wf(&self) -> bool {
        &&& self.as_nfa().wf()
        &&& dfa_defect(self.states(), self.alphabet(), self.start()) is None
    }

    /// The state that follows `q` on `c`, if `q` has a destination for `c`.
    pub open spec fn step(&self, q: usize, c: char) -> Option<usize> {
        if q < self.states().len() && self.states()[q as int].targets(c).len() > 0 {
            Some(self.states()[q as int].targets(c)[0])
        } else {
            None
        }
    }

    /// The state reached after `w` has been read from the start state, or
    /// nothing once a symbol found no destination.
    pub open spec fn state_after(&self, w: Seq<char>) -> Option<usize>
        decreases w.len(),
    {
        if w.len() == 0 {
            self.start()
        } else {
            match self.state_after(w.drop_last()) {
                Some(q) => self.step(q, w.last()),
                None => None,
            }
        }
    }

    /// Whether the automaton accepts `w`: the whole word can be read, and
    /// the state reached is an accept state.
    pub open spec fn accepts(&self, w: Seq<char>) -> bool {
        match self.state_after(w) {
            Some(q) => q < self.states().len() && self.states()[q as int].accepting(),
            None => false,
        }
    }

    /// The position of the first symbol of `w` that finds no destination.
    pub open spec fn halt(&self, w: Seq<char>) -> Option<int>
        decreases w.len(),
    {
        if w.len() == 0 {
            None
        } else {
            match self.halt(w.drop_last()) {
                Some(k) => Some(k),
                None => if self.state_after(w) is None {
                    Some(w.len() - 1)
                } else {
                    None
                },
            }
        }
    }

    /// The states visited while `w` is read, the start state first, up to
    /// where the walk stops.
    pub open spec fn route(&self, w: Seq<char>) -> Seq<usize>
        decreases w.len(),
    {
        if w.len() == 0 {
            match self.start() {
                Some(s) => seq![s],
                None => Seq::empty(),
            }
        } else {
            match self.state_after(w) {
                Some(q) => self.route(w.drop_last()).push(q),
                None => self.route(w.drop_last()),
            }
        }
    }

    /// Assembles a deterministic automaton from an alphabet, the declared
    /// states with their transitions, and the position of the start state.
    /// Parts with a defect are turned down with it: an automaton that lacks
    /// a destination for some state and symbol is never handed out.
    pub fn new(alphabet: Alphabet, states: Vec<Node>, start_state: Option<usize>) -> (made: Result<
        DFA,
        AssemblyError,
    >)
        requires
            alphabet.wf(),
            forall|i: int| 0 <= i < states.len() ==> (#[trigger] states@[i]).wf(),
        ensures
            match made {
                Ok(dfa) => {
                    &&& dfa_defect(states@, alphabet@, start_state) is None
                    &&& dfa.wf()
                    &&& dfa.states() == states@
                    &&& dfa.alphabet() == alphabet@
                    &&& dfa.start() == start_state
                },
                Err(e) => dfa_defect(states@, alphabet@, start_state) == Some(e),
            },
    {
        let ghost st = states@;
        let ghost al = alphabet@;
        let inner = match NFA::new(alphabet, states, start_state) {
            Err(e) => {
                return Err(e);
            },
            Ok(inner) => inner,
        };
        let n = inner.state_count();
        let mut i: usize = 0;
        while i < n
            invariant
                i <= n == inner.states().len(),
                inner.wf(),
                inner.states() == st,
                inner.alphabet() == al,
                st == states@,
                al == alphabet@,
                defect(st, al, start_state) is None,
                forall|h: int, a: int|
                    0 <= h < i && 0 <= a < inner.alphabet().len() ==> (
                    #[trigger] inner.states()[h]).targets(#[trigger] inner.alphabet()[a]).len() >= 1,
            decreases n - i,
        {
            if !binds_every_symbol(inner.node(i), inner.symbols()) {
                return Err(AssemblyError::MissingTransition);
            }
            i += 1;
        }
        let mut i: usize = 0;
        while i < n
            invariant
                i <= n == inner.states().len(),
                inner.wf(),
                inner.states() == st,
                inner.alphabet() == al,
                st == states@,
                al == alphabet@,
                defect(st, al, start_state) is None,
                total(inner.states(), inner.alphabet()),
                forall|h: int| 0 <= h < i ==> node_single(#[trigger] inner.states()[h]),
            decreases n - i,
        {
            if !binds_at_most_once(inner.node(i)) {
                return Err(AssemblyError::AmbiguousTransition);
            }
            i += 1;
        }
        Ok(DFA { inner })
    }

    /// Walks the automaton along `input` from the start state, one
    /// transition for each symbol. A symbol for which the state reached has
    /// no destination ends the walk at once.
    pub fn walk(&self, input: &str) -> (found: Walk)
        requires
            self.wf(),
        ensures
            found.visited@ == self.route(input@),
            match self.halt(input@) {
                Some(k) => found.halted_at == Some(k as usize),
                None => found.halted_at is None,
            },
    {
        let word = chars_of(input);
        let mut visited: Vec<usize> = Vec::new();
        let mut current = match self.inner.start_index() {
            Some(s) => s,
            None => {
                proof {
                    self.lemma_stopped(word@, 0);
                }
                let halted_at = if word.len() > 0 {
                    Some(0)
                } else {
                    None
                };
                return Walk { halted_at, visited };
            },
        };
        visited.push(current);
        let mut k: usize = 0;
        while k < word.len()
            invariant
                k <= word.len(),
                self.wf(),
                word@ == input@,
                current < self.states().len(),
                self.state_after(word@.take(k as int)) == Some(current),
                self.halt(word@.take(k as int)) is None,
                visited@ == self.route(word@.take(k as int)),
            decreases word.len() - k,
        {
            assert(word@.take(k as int + 1).drop_last() =~= word@.take(k as int));
            match self.inner.node(current).next_state(word[k]) {
                None => {
                    proof {
                        self.lemma_stopped(word@, k as int + 1);
                    }
                    return Walk { halted_at: Some(k), visited };
                },
                Some(next) => {
                    current = next;
                    visited.push(current);
                },
            }
            k += 1;
        }
        assert(word@.take(k as int) =~= word@);
        Walk { halted_at: None, visited }
    }

    /// Whether the automaton accepts `input`. The automaton is not changed,
    /// and the verdict depends on the automaton and the word alone.
    pub fn run(&self, input: &str) -> (accepted: bool)
        requires
            self.wf(),
        ensures
            accepted == self.accepts(input@),
    {
        let found = self.walk(input);
        proof {
            if self.halt(input@) is Some {
                self.lemma_halt_means_stopped(input@);
            }
        }
        match found.halted_at {
            Some(_) => false,
            None => {
                if found.visited.len() == 0 {
                    false
                } else {
                    let last = found.visited[found.visited.len() - 1];
                    last < self.inner.state_count() && self.inner.node(last).is_accept()
                }
            },
        }
    }

    /// Once the walk has stopped after the first `j` symbols, with the state
    /// lost, it has stopped for the whole word, at the same place; the
    /// states visited are those visited up to there.
    pub proof fn lemma_stopped(&self, w: Seq<char>, j: int)
        requires
            0 <= j <= w.len(),
            self.state_after(w.take(j)) is None,
        ensures
            self.state_after(w) is None,
            self.route(w) == self.route(w.take(j)),
            j > 0 ==> self.halt(w) == self.halt(w.take(j)),
            j == 0 ==> self.halt(w) == if w.len() > 0 {
                Some(0int)
            } else {
                None
            },
        decreases w.len(),
    {
        if j == w.len() {
            assert(w.take(j) =~= w);
        } else {
            assert(w.drop_last().take(j) =~= w.take(j));
            self.lemma_stopped(w.drop_last(), j);
        }
    }

    /// The walk stops early exactly when the state is lost: a word with a
    /// stopping point reaches no state, and a non-empty word without one
    /// reaches a state.
    pub proof fn lemma_halt_means_stopped(&self, w: Seq<char>)
        ensures
            self.halt(w) is Some ==> self.state_after(w) is None,
            self.halt(w) is Some ==> 0 <= self.halt(w)->0 < w.len(),
            w.len() > 0 && self.halt(w) is None ==> self.state_after(w) is Some,
        decreases w.len(),
    {
        if w.len() > 0 {
            self.lemma_halt_means_stopped(w.drop_last());
        }
    }
}

impl DFA {
    /// The automaton as a nondeterministic one, for what both kinds share.
    pub fn as_automaton(&self) -> (nfa: &NFA)
        ensures
            *nfa == self.as_nfa(),
    {
        &self.inner
    }

    /// The transition function is total and single-valued: every state has
    /// exactly one destination for every symbol of the alphabet, and that
    /// destination is one of the states.
    pub proof fn lemma_total(&self, q: usize, c: char)
        requires
            self.wf(),
            q < self.states().len(),
            self.alphabet().contains(c),
        ensures
            self.states()[q as int].targets(c).len() == 1,
            self.step(q, c) matches Some(t) && t < self.states().len(),
    {
    }

    /// Every state reached is one of the states.
    pub proof fn lemma_state_in_range(&self, w: Seq<char>)
        requires
            self.wf(),
        ensures
            self.state_after(w) matches Some(q) ==> q < self.states().len(),
    {
    }

    /// An automaton with states reads every word over its alphabet to the
    /// end: the walk never stops early, and a state is reached.
    pub proof fn lemma_runs_to_end(&self, w: Seq<char>)
        requires
            self.wf(),
            self.states().len() > 0,
            forall|i: int| 0 <= i < w.len() ==> self.alphabet().contains(#[trigger] w[i]),
        ensures
            self.halt(w) is None,
            self.state_after(w) matches Some(q) && q < self.states().len(),
        decreases w.len(),
    {
        if w.len() > 0 {
            self.lemma_runs_to_end(w.drop_last());
        }
    }

    /// Read as a nondeterministic automaton, a deterministic one holds a
    /// single path, the states it visits, for as long as it has not stopped,
    /// and none afterwards.
    pub proof fn lemma_single_path(&self, w: Seq<char>)
        requires
            self.wf(),
        ensures
            self.as_nfa().paths(w) == match self.state_after(w) {
                Some(q) => seq![self.route(w)],
                None => Seq::<Seq<usize>>::empty(),
            },
        decreases w.len(),
    {
        if w.len() > 0 {
            let shorter = w.drop_last();
            self.lemma_single_path(shorter);
            if self.state_after(shorter) is Some {
                let only = seq![self.route(shorter)];
                assert(self.as_nfa().step_all(only.drop_last(), w.last()) =~= Seq::<
                    Seq<usize>,
                >::empty());
            }
        }
    }

    /// A deterministic automaton accepts the words that it accepts when read
    /// as a nondeterministic one: those for which a path from the start state
    /// along the symbols ends in an accept state.
    pub proof fn lemma_accepts_as_nfa(&self, w: Seq<char>)
        requires
            self.wf(),
        ensures
            self.accepts(w) <==> self.as_nfa().accepts(w),
    {
        let nfa = self.as_nfa();
        self.lemma_single_path(w);
        nfa.lemma_accepts_iff_accepting_path(w);
        if self.state_after(w) is Some {
            let only = seq![self.route(w)];
            assert(nfa.select_accepting(only.drop_last()) =~= Seq::<Seq<usize>>::empty());
            if nfa.halt(w) is Some {
                nfa.lemma_halt_leaves_no_path(w);
            }
        }
    }
}

} // verus!
