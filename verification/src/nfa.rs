//! The nondeterministic automaton: a list of states that refer to each other
//! by position, an alphabet and a start state. A word is accepted when at
//! least one path that follows its symbols from the start state ends in an
//! accept state.

use vstd::prelude::*;
use crate::alphabet::{distinct, Alphabet};
use crate::error::AssemblyError;
use crate::node::{lemma_symbols_have_targets, Node};
use crate::text::chars_of;

verus! {

/// Every destination of `node` is a position below `n`.
pub open spec fn node_in_range(node: Node, n: nat) -> bool {
    forall|c: char, k: int| 0 <= k < node.targets(c).len() ==> #[trigger] node.targets(c)[k] < n
}

/// `node` has destinations only on symbols of `alphabet`.
pub open spec fn node_over(node: Node, alphabet: Seq<char>) -> bool {
    forall|c: char| #![trigger node.targets(c)] node.targets(c).len() > 0 ==> alphabet.contains(c)
}

/// No two states have the same name.
pub open spec fn names_distinct(states: Seq<Node>) -> bool {
    forall|i: int, j: int|
        0 <= i < j < states.len() ==> (#[trigger] states[i]).name() != (#[trigger] states[j]).name()
}

/// Every transition leads to one of the states.
pub open spec fn targets_in_range(states: Seq<Node>) -> bool {
    forall|i: int| 0 <= i < states.len() ==> node_in_range(#[trigger] states[i], states.len())
}

/// Every transition is on a symbol of the alphabet.
pub open spec fn symbols_declared(states: Seq<Node>, alphabet: Seq<char>) -> bool {
    forall|i: int| 0 <= i < states.len() ==> node_over(#[trigger] states[i], alphabet)
}

/// The start state is one of the states; it is absent exactly when there are
/// no states, and a placeholder that accepts nothing then stands for it.
pub open spec fn start_designated(states: Seq<Node>, start: Option<usize>) -> bool {
    match start {
        None => states.len() == 0,
        Some(s) => s < states.len(),
    }
}

/// What keeps the given parts from forming an automaton: the first of the
/// four conditions that fails, or nothing.
pub open spec fn defect(states: Seq<Node>, alphabet: Seq<char>, start: Option<usize>) -> Option<
    AssemblyError,
> {
    if !names_distinct(states) {
        Some(AssemblyError::DuplicateState)
    } else if !targets_in_range(states) {
        Some(AssemblyError::UnknownState)
    } else if !symbols_declared(states, alphabet) {
        Some(AssemblyError::UnknownSymbol)
    } else if !start_designated(states, start) {
        Some(AssemblyError::InvalidStart)
    } else {
        None
    }
}

/// Whether no two states have the same name.
pub fn has_distinct_names(states: &Vec<Node>) -> (ok: bool)
    ensures
        ok == names_distinct(states@),
{
    let mut j: usize = 0;
    while j < states.len()
        invariant
            j <= states.len(),
            forall|a: int, b: int|
                0 <= a < b < j ==> (#[trigger] states@[a]).name() != (#[trigger] states@[b]).name(),
        decreases states.len() - j,
    {
        let mut i: usize = 0;
        while i < j
            invariant
                i <= j < states.len(),
                forall|a: int|
                    0 <= a < i ==> (#[trigger] states@[a]).name() != states@[j as int].name(),
            decreases j - i,
        {
            if *states[i].state() == *states[j].state() {
                return false;
            }
            i += 1;
        }
        j += 1;
    }
    true
}

/// Whether every destination of `node` is a position below `n`.
pub fn leads_within(node: &Node, n: usize) -> (ok: bool)
    requires
        node.wf(),
    ensures
        ok == node_in_range(*node, n as nat),
{
    let list = node.symbol_list();
    let mut a: usize = 0;
    while a < list.len()
        invariant
            a <= list.len(),
            node.wf(),
            list@ == node.symbols(),
            forall|b: int, k: int|
                0 <= b < a && 0 <= k < node.targets(list@[b]).len() ==> #[trigger] node.targets(
                    list@[b],
                )[k] < n,
        decreases list.len() - a,
    {
        let next = node.next_states(list[a]);
        let mut k: usize = 0;
        while k < next.len()
            invariant
                k <= next.len(),
                a < list.len(),
                next@ == node.targets(list@[a as int]),
                forall|h: int| 0 <= h < k ==> next@[h] < n,
            decreases next.len() - k,
        {
            if next[k] >= n {
                return false;
            }
            k += 1;
        }
        a += 1;
    }
    proof {
        assert forall|c: char, k: int| 0 <= k < node.targets(c).len() implies #[trigger] node.targets(
            c,
        )[k] < n by {
            lemma_symbols_have_targets(*node, c);
        }
    }
    true
}

/// Whether `node` has destinations only on symbols of `alphabet`.
pub fn reads_only(node: &Node, alphabet: &Alphabet) -> (ok: bool)
    requires
        node.wf(),
    ensures
        ok == node_over(*node, alphabet@),
{
    let list = node.symbol_list();
    let mut a: usize = 0;
    while a < list.len()
        invariant
            a <= list.len(),
            node.wf(),
            list@ == node.symbols(),
            forall|b: int| 0 <= b < a ==> alphabet@.contains(#[trigger] list@[b]),
        decreases list.len() - a,
    {
        if !alphabet.contains(list[a]) {
            proof {
                lemma_symbols_have_targets(*node, list@[a as int]);
            }
            return false;
        }
        a += 1;
    }
    proof {
        assert forall|c: char| node.targets(c).len() > 0 implies alphabet@.contains(c) by {
            lemma_symbols_have_targets(*node, c);
        }
    }
    true
}

/// The paths held in a list of vectors.
pub open spec fn views(paths: Seq<Vec<usize>>) -> Seq<Seq<usize>> {
    Seq::new(paths.len(), |j: int| paths[j]@)
}

/// What a simulation found out about a word.
pub struct Trace {
    /// The position of the symbol at which every path was left without a
    /// destination, where the simulation stopped early.
    pub halted_at: Option<usize>,
    /// For each symbol that was read, the number of live paths that had no
    /// destination on it and were dropped.
    pub dropped: Vec<usize>,
    /// The paths that end in an accept state, each as the positions of the
    /// states it visits; none after an early stop.
    pub accepted: Vec<Vec<usize>>,
}

/// A nondeterministic finite automaton.
pub struct NFA {
    states: Vec<Node>,
    alphabet: Alphabet,
    start_state: Option<usize>,
}

impl NFA {
    /// The states, in declaration order; a transition names a state by its
    /// position in this list.
    pub closed spec fn states(&self) -> Seq<Node> {
        self.states@
    }

    /// The alphabet, in declaration order.
    pub closed spec fn alphabet(&self) -> Seq<char> {
        self.alphabet@
    }

    /// The position of the start state; `None` for the placeholder of an
    /// automaton without states.
    pub closed spec fn start(&self) -> Option<usize> {
        self.start_state
    }

    /// The automaton is complete: its parts have no defect.
    pub open spec fn wf(&self) -> bool {
        &&& distinct(self.alphabet())
        &&& forall|i: int| 0 <= i < self.states().len() ==> (#[trigger] self.states()[i]).wf()
        &&& defect(self.states(), self.alphabet(), self.start()) is None
    }

    /// Assembles an automaton from an alphabet, the declared states with
    /// their transitions, and the position of the start state. The parts are
    /// taken as they are or, where they have a defect, turned down with it.
    pub fn new(alphabet: Alphabet, states: Vec<Node>, start_state: Option<usize>) -> (made: Result<
        NFA,
        AssemblyError,
    >)
        requires
            alphabet.wf(),
            forall|i: int| 0 <= i < states.len() ==> (#[trigger] states@[i]).wf(),
        ensures
            match made {
                Ok(nfa) => {
                    &&& defect(states@, alphabet@, start_state) is None
                    &&& nfa.wf()
                    &&& nfa.states() == states@
                    &&& nfa.alphabet() == alphabet@
                    &&& nfa.start() == start_state
                },
                Err(e) => defect(states@, alphabet@, start_state) == Some(e),
            },
    {
        if !has_distinct_names(&states) {
            return Err(AssemblyError::DuplicateState);
        }
        let n = states.len();
        let mut i: usize = 0;
        while i < n
            invariant
                i <= n == states.len(),
                forall|h: int| 0 <= h < states.len() ==> (#[trigger] states@[h]).wf(),
                names_distinct(states@),
                forall|h: int| 0 <= h < i ==> node_in_range(#[trigger] states@[h], n as nat),
            decreases n - i,
        {
            if !leads_within(&states[i], n) {
                return Err(AssemblyError::UnknownState);
            }
            i += 1;
        }
        let mut i: usize = 0;
        while i < n
            invariant
                i <= n == states.len(),
                forall|h: int| 0 <= h < states.len() ==> (#[trigger] states@[h]).wf(),
                names_distinct(states@),
                targets_in_range(states@),
                forall|h: int| 0 <= h < i ==> node_over(#[trigger] states@[h], alphabet@),
            decreases n - i,
        {
            if !reads_only(&states[i], &alphabet) {
                return Err(AssemblyError::UnknownSymbol);
            }
            i += 1;
        }
        let designated = match start_state {
            None => n == 0,
            Some(s) => s < n,
        };
        if !designated {
            return Err(AssemblyError::InvalidStart);
        }
        Ok(NFA { states, alphabet, start_state })
    }

    /// The number of states.
    pub fn state_count(&self) -> (n: usize)
        ensures
            n == self.states().len(),
    {
        self.states.len()
    }

    /// The state at position `i`.
    pub fn node(&self, i: usize) -> (node: &Node)
        requires
            i < self.states().len(),
        ensures
            *node == self.states()[i as int],
    {
        &self.states[i]
    }

    /// The alphabet.
    pub fn symbols(&self) -> (alphabet: &Alphabet)
        ensures
            alphabet@ == self.alphabet(),
    {
        &self.alphabet
    }

    /// The position of the start state; `None` for the placeholder.
    pub fn start_index(&self) -> (start: Option<usize>)
        ensures
            start == self.start(),
    {
        self.start_state
    }
}

impl NFA {
    /// Whether `to` is a destination of the state at `from` on `c`.
    pub open spec fn edge(&self, from: usize, c: char, to: usize) -> bool {
        from < self.states().len() && self.states()[from as int].targets(c).contains(to)
    }

    /// Whether step `i` of `p` follows a transition on symbol `i` of `w`.
    pub open spec fn follows(&self, p: Seq<usize>, w: Seq<char>, i: int) -> bool {
        self.edge(p[i], w[i], p[i + 1])
    }

    /// Whether `p` is a path for `w`: it begins at the start state and each
    /// step follows a transition on the next symbol.
    pub open spec fn is_run(&self, p: Seq<usize>, w: Seq<char>) -> bool {
        &&& p.len() == w.len() + 1
        &&& self.start() == Some(p[0])
        &&& forall|i: int| 0 <= i < w.len() ==> #[trigger] self.follows(p, w, i)
    }

    /// Whether `p` ends in an accept state.
    pub open spec fn ends_accepting(&self, p: Seq<usize>) -> bool {
        &&& p.len() > 0
        &&& p.last() < self.states().len()
        &&& self.states()[p.last() as int].accepting()
    }

    /// Whether the automaton accepts `w`: some path for `w` ends in an accept
    /// state.
    pub open spec fn accepts(&self, w: Seq<char>) -> bool {
        exists|p: Seq<usize>| self.is_run(p, w) && self.ends_accepting(p)
    }

    /// The paths that continue `p` by one step on `c`, one for each
    /// destination, in the order of the destinations.
    pub open spec fn step_path(&self, p: Seq<usize>, c: char) -> Seq<Seq<usize>> {
        if p.len() > 0 && p.last() < self.states().len() {
            let targets = self.states()[p.last() as int].targets(c);
            Seq::new(targets.len(), |k: int| p.push(targets[k]))
        } else {
            Seq::empty()
        }
    }

    /// The paths that continue those of `ps` by one step on `c`. A path
    /// without a destination contributes nothing; the others keep their order.
    pub open spec fn step_all(&self, ps: Seq<Seq<usize>>, c: char) -> Seq<Seq<usize>>
        decreases ps.len(),
    {
        if ps.len() == 0 {
            Seq::empty()
        } else {
            self.step_all(ps.drop_last(), c) + self.step_path(ps.last(), c)
        }
    }

    /// The number of paths of `ps` that have no destination on `c`.
    pub open spec fn dead_ends(&self, ps: Seq<Seq<usize>>, c: char) -> nat
        decreases ps.len(),
    {
        if ps.len() == 0 {
            0
        } else if self.step_path(ps.last(), c).len() == 0 {
            self.dead_ends(ps.drop_last(), c) + 1
        } else {
            self.dead_ends(ps.drop_last(), c)
        }
    }

    /// The live paths after `w` has been read, in the order in which the
    /// simulation holds them. Paths that reach the same state by different
    /// routes are held apart.
    pub open spec fn paths(&self, w: Seq<char>) -> Seq<Seq<usize>>
        decreases w.len(),
    {
        if w.len() == 0 {
            match self.start() {
                Some(s) => seq![seq![s]],
                None => Seq::empty(),
            }
        } else {
            self.step_all(self.paths(w.drop_last()), w.last())
        }
    }

    /// Those of `ps` that end in an accept state, in their order.
    pub open spec fn select_accepting(&self, ps: Seq<Seq<usize>>) -> Seq<Seq<usize>>
        decreases ps.len(),
    {
        if ps.len() == 0 {
            Seq::empty()
        } else if self.ends_accepting(ps.last()) {
            self.select_accepting(ps.drop_last()).push(ps.last())
        } else {
            self.select_accepting(ps.drop_last())
        }
    }

    /// The position of the first symbol of `w` after which no path is left.
    pub open spec fn halt(&self, w: Seq<char>) -> Option<int>
        decreases w.len(),
    {
        if w.len() == 0 {
            None
        } else {
            match self.halt(w.drop_last()) {
                Some(k) => Some(k),
                None => if self.paths(w).len() == 0 {
                    Some(w.len() - 1)
                } else {
                    None
                },
            }
        }
    }

    /// The number of paths that are dropped at symbol `i` of `w`: the live
    /// paths that have no destination on it. The placeholder that starts an
    /// automaton without states is one path, without a destination on any
    /// symbol.
    pub open spec fn dropped_at(&self, w: Seq<char>, i: int) -> nat {
        if self.start() is None {
            1
        } else {
            self.dead_ends(self.paths(w.take(i)), w[i])
        }
    }

    /// The number of symbols of `w` that the simulation reads: all of them,
    /// or those up to and with the one at which it stops.
    pub open spec fn consumed(&self, w: Seq<char>) -> int {
        match self.halt(w) {
            Some(k) => k + 1,
            None => w.len() as int,
        }
    }

    /// Every path of `ps` is non-empty and ends at one of the states.
    pub open spec fn all_live(&self, ps: Seq<Seq<usize>>) -> bool {
        forall|j: int|
            0 <= j < ps.len() ==> (#[trigger] ps[j]).len() > 0 && ps[j].last() < self.states().len()
    }

    /// Continues every path by one step on `c`, and counts the paths that
    /// cannot be continued.
    fn advance(&self, paths: &Vec<Vec<usize>>, c: char) -> (stepped: (Vec<Vec<usize>>, usize))
        requires
            self.wf(),
            self.all_live(views(paths@)),
        ensures
            views(stepped.0@) == self.step_all(views(paths@), c),
            self.all_live(views(stepped.0@)),
            stepped.1 == self.dead_ends(views(paths@), c),
    {
        let ghost ps = views(paths@);
        let mut next: Vec<Vec<usize>> = Vec::new();
        let mut dead: usize = 0;
        let mut j: usize = 0;
        while j < paths.len()
            invariant
                j <= paths.len(),
                self.wf(),
                ps == views(paths@),
                self.all_live(ps),
                views(next@) == self.step_all(ps.take(j as int), c),
                self.all_live(views(next@)),
                dead == self.dead_ends(ps.take(j as int), c),
                dead <= j,
            decreases paths.len() - j,
        {
            let path = &paths[j];
            assert(ps[j as int] == path@);
            let last = path[path.len() - 1];
            let node = &self.states[last];
            let targets = node.next_states(c);
            if targets.len() == 0 {
                dead += 1;
            }
            let ghost done = views(next@);
            let ghost more = self.step_path(path@, c);
            let mut k: usize = 0;
            while k < targets.len()
                invariant
                    k <= targets.len(),
                    self.wf(),
                    path@.len() > 0,
                    last == path@.last(),
                    last < self.states().len(),
                    targets@ == self.states()[last as int].targets(c),
                    more == self.step_path(path@, c),
                    views(next@) == done + more.take(k as int),
                    self.all_live(views(next@)),
                decreases targets.len() - k,
            {
                let mut longer = path.clone();
                longer.push(targets[k]);
                next.push(longer);
                proof {
                    assert(more.take(k as int).push(more[k as int]) =~= more.take(k as int + 1));
                    assert(done + more.take(k as int + 1) =~= (done + more.take(k as int)).push(
                        more[k as int],
                    ));
                    assert(self.states()[last as int].targets(c)[k as int] < self.states().len());
                }
                k += 1;
            }
            assert(ps.take(j as int + 1).drop_last() =~= ps.take(j as int));
            j += 1;
        }
        assert(ps.take(j as int) =~= ps);
        (next, dead)
    }

    /// Keeps the paths that end in an accept state.
    fn keep_accepting(&self, paths: Vec<Vec<usize>>) -> (kept: Vec<Vec<usize>>)
        requires
            self.wf(),
            self.all_live(views(paths@)),
        ensures
            views(kept@) == self.select_accepting(views(paths@)),
    {
        let ghost ps = views(paths@);
        let mut kept: Vec<Vec<usize>> = Vec::new();
        let mut j: usize = 0;
        while j < paths.len()
            invariant
                j <= paths.len(),
                self.wf(),
                ps == views(paths@),
                self.all_live(ps),
                views(kept@) == self.select_accepting(ps.take(j as int)),
            decreases paths.len() - j,
        {
            let path = &paths[j];
            assert(ps[j as int] == path@);
            let last = path[path.len() - 1];
            assert(ps.take(j as int + 1).drop_last() =~= ps.take(j as int));
            if self.states[last].is_accept() {
                kept.push(path.clone());
            }
            j += 1;
        }
        assert(ps.take(j as int) =~= ps);
        kept
    }

    /// Simulates the automaton on `input`, holding every live path. A path
    /// without a destination for the next symbol is dropped; when none is
    /// left the simulation stops at that symbol. Otherwise the paths that end
    /// in an accept state are reported in the order in which they arose. An
    /// automaton without states has only its placeholder to start from,
    /// which is dropped at the first symbol.
    pub fn trace(&self, input: &str) -> (found: Trace)
        requires
            self.wf(),
        ensures
            match self.halt(input@) {
                Some(k) => found.halted_at == Some(k as usize) && found.accepted@.len() == 0,
                None => found.halted_at is None && views(found.accepted@) == self.select_accepting(
                    self.paths(input@),
                ),
            },
            found.dropped@.len() == self.consumed(input@),
            forall|i: int|
                0 <= i < found.dropped@.len() ==> #[trigger] found.dropped@[i] == self.dropped_at(
                    input@,
                    i,
                ),
    {
        let word = chars_of(input);
        let mut paths: Vec<Vec<usize>> = Vec::new();
        if let Some(s) = self.start_state {
            let mut first: Vec<usize> = Vec::new();
            first.push(s);
            paths.push(first);
        }
        let mut dropped: Vec<usize> = Vec::new();
        if self.start_state.is_none() && word.len() > 0 {
            proof {
                let first = word@.take(1);
                assert(first.drop_last() =~= Seq::<char>::empty());
                assert(self.paths(first.drop_last()).len() == 0);
                assert(self.halt(first.drop_last()) is None);
                assert(self.paths(first).len() == 0);
                self.lemma_halt_stays(word@, 1);
            }
            dropped.push(1);
            return Trace { halted_at: Some(0), dropped, accepted: Vec::new() };
        }
        let mut k: usize = 0;
        while k < word.len()
            invariant
                k <= word.len(),
                self.wf(),
                word@ == input@,
                views(paths@) == self.paths(word@.take(k as int)),
                self.all_live(views(paths@)),
                self.halt(word@.take(k as int)) is None,
                dropped@.len() == k,
                self.start() is Some || word.len() == 0,
                forall|i: int| 0 <= i < k ==> #[trigger] dropped@[i] == self.dropped_at(word@, i),
            decreases word.len() - k,
        {
            let (next, dead) = self.advance(&paths, word[k]);
            dropped.push(dead);
            assert(word@.take(k as int + 1).drop_last() =~= word@.take(k as int));
            if next.len() == 0 {
                proof {
                    self.lemma_halt_stays(word@, k as int + 1);
                }
                return Trace { halted_at: Some(k), dropped, accepted: Vec::new() };
            }
            paths = next;
            k += 1;
        }
        assert(word@.take(k as int) =~= word@);
        let accepted = self.keep_accepting(paths);
        Trace { halted_at: None, dropped, accepted }
    }

    /// Once no path is left after a prefix of `w`, the simulation of `w`
    /// stops where that of the prefix stopped.
    pub proof fn lemma_halt_stays(&self, w: Seq<char>, j: int)
        requires
            0 <= j <= w.len(),
            self.halt(w.take(j)) is Some,
        ensures
            self.halt(w) == self.halt(w.take(j)),
        decreases w.len(),
    {
        if j == w.len() {
            assert(w.take(j) =~= w);
        } else {
            assert(w.drop_last().take(j) =~= w.take(j));
            self.lemma_halt_stays(w.drop_last(), j);
        }
    }
}

impl NFA {
    /// A path is among the continuations of `ps` exactly when it continues
    /// one of them.
    proof fn lemma_step_all_contains(&self, ps: Seq<Seq<usize>>, c: char, q: Seq<usize>)
        ensures
            self.step_all(ps, c).contains(q) <==> exists|j: int|
                0 <= j < ps.len() && #[trigger] self.step_path(ps[j], c).contains(q),
        decreases ps.len(),
    {
        if ps.len() > 0 {
            let front = ps.drop_last();
            let here = self.step_path(ps.last(), c);
            self.lemma_step_all_contains(front, c, q);
            if self.step_all(ps, c).contains(q) {
                let i = choose|i: int|
                    0 <= i < self.step_all(ps, c).len() && self.step_all(ps, c)[i] == q;
                if i >= self.step_all(front, c).len() {
                    assert(self.step_path(ps[ps.len() - 1], c).contains(q));
                }
            }
            if exists|j: int| 0 <= j < ps.len() && #[trigger] self.step_path(ps[j], c).contains(q) {
                let j = choose|j: int|
                    0 <= j < ps.len() && #[trigger] self.step_path(ps[j], c).contains(q);
                if j < front.len() {
                    assert(self.step_path(front[j], c).contains(q));
                    let i = choose|i: int|
                        0 <= i < self.step_all(front, c).len() && self.step_all(front, c)[i] == q;
                    assert(self.step_all(ps, c)[i] == q);
                } else {
                    let k = choose|k: int| 0 <= k < here.len() && here[k] == q;
                    assert(self.step_all(ps, c)[self.step_all(front, c).len() + k] == q);
                }
            }
        }
    }

    /// The simulation holds exactly the paths for the word: a sequence of
    /// states is among the live paths after `w` if and only if it begins at
    /// the start state and follows a transition on each symbol of `w` in turn.
    pub proof fn lemma_paths_are_runs(&self, w: Seq<char>, p: Seq<usize>)
        requires
            self.wf(),
        ensures
            self.paths(w).contains(p) <==> self.is_run(p, w),
        decreases w.len(),
    {
        if w.len() == 0 {
            if self.is_run(p, w) {
                assert(self.paths(w)[0] == p);
            }
        } else {
            let shorter = w.drop_last();
            let c = w.last();
            let ps = self.paths(shorter);
            self.lemma_step_all_contains(ps, c, p);
            if self.paths(w).contains(p) {
                let j = choose|j: int|
                    0 <= j < ps.len() && #[trigger] self.step_path(ps[j], c).contains(p);
                let stem = ps[j];
                self.lemma_paths_are_runs(shorter, stem);
                assert forall|i: int| 0 <= i < w.len() implies #[trigger] self.follows(p, w, i) by {
                    if i < shorter.len() {
                        assert(self.follows(stem, shorter, i));
                    }
                }
            }
            if self.is_run(p, w) {
                let stem = p.drop_last();
                assert forall|i: int| 0 <= i < shorter.len() implies #[trigger] self.follows(
                    stem,
                    shorter,
                    i,
                ) by {
                    assert(self.follows(p, w, i));
                }
                self.lemma_paths_are_runs(shorter, stem);
                let j = choose|j: int| 0 <= j < ps.len() && ps[j] == stem;
                assert(self.follows(p, w, w.len() - 1));
                let targets = self.states()[stem.last() as int].targets(c);
                let k = choose|k: int| 0 <= k < targets.len() && targets[k] == p.last();
                let grown = self.step_path(stem, c);
                assert(grown[k] =~= p);
                assert(self.step_path(ps[j], c).contains(p));
            }
        }
    }

    /// A path is selected exactly when it is among `ps` and ends in an accept
    /// state.
    proof fn lemma_select_contains(&self, ps: Seq<Seq<usize>>, q: Seq<usize>)
        ensures
            self.select_accepting(ps).contains(q) <==> ps.contains(q) && self.ends_accepting(q),
        decreases ps.len(),
    {
        if ps.len() > 0 {
            let front = ps.drop_last();
            self.lemma_select_contains(front, q);
            let kept = self.select_accepting(ps);
            if ps.contains(q) && self.ends_accepting(q) {
                let j = choose|j: int| 0 <= j < ps.len() && ps[j] == q;
                if j < front.len() {
                    assert(front[j] == q);
                    let i = choose|i: int|
                        0 <= i < self.select_accepting(front).len() && self.select_accepting(
                            front,
                        )[i] == q;
                    assert(kept[i] == q);
                } else {
                    assert(kept[kept.len() - 1] == q);
                }
            }
        }
    }

    /// Where the simulation stops early, no path is left for the whole word.
    pub proof fn lemma_halt_leaves_no_path(&self, w: Seq<char>)
        requires
            self.halt(w) is Some,
        ensures
            self.paths(w).len() == 0,
            0 <= self.halt(w)->0 < w.len(),
            self.paths(w.take(self.halt(w)->0 + 1)).len() == 0,
        decreases w.len(),
    {
        if w.len() > 0 {
            if self.halt(w.drop_last()) is Some {
                self.lemma_halt_leaves_no_path(w.drop_last());
                let k = self.halt(w)->0;
                assert(w.drop_last().take(k + 1) =~= w.take(k + 1));
            } else {
                assert(w.take(w.len() as int) =~= w);
            }
        }
    }

    /// Acceptance is existential: the word is accepted, that is, some path
    /// that starts at the start state and follows exactly its symbols ends in
    /// an accept state, if and only if the simulation runs to the end of the
    /// word and reports at least one accepting path. So a rejected word has no
    /// such path.
    pub proof fn lemma_accepts_iff_accepting_path(&self, w: Seq<char>)
        requires
            self.wf(),
        ensures
            self.accepts(w) <==> self.halt(w) is None && self.select_accepting(
                self.paths(w),
            ).len() > 0,
    {
        let kept = self.select_accepting(self.paths(w));
        if self.accepts(w) {
            let p = choose|p: Seq<usize>| self.is_run(p, w) && self.ends_accepting(p);
            self.lemma_paths_are_runs(w, p);
            self.lemma_select_contains(self.paths(w), p);
            if self.halt(w) is Some {
                self.lemma_halt_leaves_no_path(w);
            }
        }
        if self.halt(w) is None && kept.len() > 0 {
            let p = kept[0];
            self.lemma_select_contains(self.paths(w), p);
            self.lemma_paths_are_runs(w, p);
        }
    }

    /// Every path that the simulation reports is a path for the word that
    /// ends in an accept state, and every such path is reported.
    pub proof fn lemma_reported_paths(&self, w: Seq<char>, p: Seq<usize>)
        requires
            self.wf(),
        ensures
            self.select_accepting(self.paths(w)).contains(p) <==> self.is_run(p, w)
                && self.ends_accepting(p),
    {
        self.lemma_select_contains(self.paths(w), p);
        self.lemma_paths_are_runs(w, p);
    }

    /// Whether the automaton accepts `input`. The automaton is not changed,
    /// and the verdict depends on the automaton and the word alone.
    pub fn run(&self, input: &str) -> (accepted: bool)
        requires
            self.wf(),
        ensures
            accepted == self.accepts(input@),
    {
        let found = self.trace(input);
        proof {
            self.lemma_accepts_iff_accepting_path(input@);
        }
        found.accepted.len() > 0
    }
}

} // verus!
