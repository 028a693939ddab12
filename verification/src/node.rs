//! A state of a nondeterministic automaton: its name, its accept flag and its
//! outgoing transitions, which refer to other states by their position in the
//! automaton's state list.

use vstd::prelude::*;
use crate::alphabet::distinct;

verus! {

/// The destinations bound to one symbol, in the order in which they were added.
pub struct Transition {
    symbol: char,
    targets: Vec<usize>,
}

/// A named state with its accept flag and outgoing transitions.
pub struct Node {
    state: String,
    is_accept: bool,
    transitions: Vec<Transition>,
}

/// The symbols of a transition table, entry by entry.
spec fn entry_symbols(entries: Seq<Transition>) -> Seq<char> {
    Seq::new(entries.len(), |i: int| entries[i].symbol)
}

/// Whether some entry of the table is for `c`.
spec fn has_entry(entries: Seq<Transition>, c: char) -> bool {
    exists|i: int| 0 <= i < entries.len() && (#[trigger] entries[i]).symbol == c
}

/// The destinations that the table binds to `c`; none where it has no entry.
spec fn lookup(entries: Seq<Transition>, c: char) -> Seq<usize> {
    if has_entry(entries, c) {
        let i = choose|i: int| 0 <= i < entries.len() && (#[trigger] entries[i]).symbol == c;
        entries[i].targets@
    } else {
        Seq::empty()
    }
}

/// In a table without repeated symbols, the entry at `i` is the one found
/// for its symbol.
proof fn lemma_lookup_at(entries: Seq<Transition>, i: int)
    requires
        distinct(entry_symbols(entries)),
        0 <= i < entries.len(),
    ensures
        has_entry(entries, entries[i].symbol),
        lookup(entries, entries[i].symbol) == entries[i].targets@,
{
    let c = entries[i].symbol;
    let j = choose|j: int| 0 <= j < entries.len() && (#[trigger] entries[j]).symbol == c;
    if i < j {
        assert(entry_symbols(entries)[i] != entry_symbols(entries)[j]);
    } else if j < i {
        assert(entry_symbols(entries)[j] != entry_symbols(entries)[i]);
    }
}

/// Two tables that agree on which position holds which symbol, and on the
/// destinations at every position but those for `symbol`, bind the same
/// destinations to every other symbol. The second may have one entry more,
/// for `symbol`.
proof fn lemma_lookup_elsewhere(before: Seq<Transition>, after: Seq<Transition>, symbol: char)
    requires
        distinct(entry_symbols(before)),
        distinct(entry_symbols(after)),
        before.len() <= after.len() <= before.len() + 1,
        forall|j: int| 0 <= j < before.len() ==> (#[trigger] after[j]).symbol == before[j].symbol,
        forall|j: int|
            0 <= j < before.len() && before[j].symbol != symbol ==> (#[trigger] after[j]).targets@
                == before[j].targets@,
        after.len() > before.len() ==> after[before.len() as int].symbol == symbol,
    ensures
        forall|c: char| c != symbol ==> lookup(after, c) == lookup(before, c),
{
    assert forall|c: char| c != symbol implies lookup(after, c) == lookup(before, c) by {
        if has_entry(before, c) {
            let j = choose|j: int| 0 <= j < before.len() && (#[trigger] before[j]).symbol == c;
            lemma_lookup_at(after, j);
        }
    }
}

impl Node {
    /// The name of the state.
    pub closed spec fn name(&self) -> Seq<char> {
        self.state@
    }

    /// Whether a run that ends in this state accepts.
    pub closed spec fn accepting(&self) -> bool {
        self.is_accept
    }

    /// The symbols on which the state has a destination, in the order in
    /// which each first got one.
    pub closed spec fn symbols(&self) -> Seq<char> {
        entry_symbols(self.transitions@)
    }

    /// The destinations on `c`, in the order in which they were added.
    pub closed spec fn targets(&self, c: char) -> Seq<usize> {
        lookup(self.transitions@, c)
    }

    /// No symbol has two entries, and no entry is empty.
    pub closed spec fn wf(&self) -> bool {
        &&& distinct(entry_symbols(self.transitions@))
        &&& forall|i: int|
            0 <= i < self.transitions.len() ==> (#[trigger] self.transitions[i]).targets.len() > 0
    }

    /// A state without transitions.
    pub fn new(state: &str, is_accept: bool) -> (node: Node)
        ensures
            node.wf(),
            node.name() == state@,
            node.accepting() == is_accept,
            node.symbols() == Seq::<char>::empty(),
            forall|c: char| node.targets(c) == Seq::<usize>::empty(),
    {
        let node = Node { state: state.to_owned(), is_accept, transitions: Vec::new() };
        node
    }

    /// Adds `to` as one more destination on `symbol`. Destinations already
    /// bound to the symbol stay: the new one comes after them.
    pub fn add_transition(&mut self, symbol: char, to: usize)
        requires
            old(self).wf(),
        ensures
            final(self).wf(),
            final(self).name() == old(self).name(),
            final(self).accepting() == old(self).accepting(),
            final(self).targets(symbol) == old(self).targets(symbol).push(to),
            forall|c: char| c != symbol ==> final(self).targets(c) == old(self).targets(c),
            final(self).symbols() == if old(self).symbols().contains(symbol) {
                old(self).symbols()
            } else {
                old(self).symbols().push(symbol)
            },
    {
        let ghost before = self.transitions@;
        let mut i: usize = 0;
        while i < self.transitions.len()
            invariant
                i <= self.transitions.len(),
                self.transitions@ == before,
                self.state == old(self).state,
                self.is_accept == old(self).is_accept,
                old(self).wf(),
                before == old(self).transitions@,
                forall|k: int| 0 <= k < i ==> (#[trigger] before[k]).symbol != symbol,
            decreases self.transitions.len() - i,
        {
            if self.transitions[i].symbol == symbol {
                self.transitions[i].targets.push(to);
                proof {
                    let after = self.transitions@;
                    assert(entry_symbols(after) =~= entry_symbols(before));
                    assert(entry_symbols(before)[i as int] == symbol);
                    lemma_lookup_at(before, i as int);
                    lemma_lookup_at(after, i as int);
                    lemma_lookup_elsewhere(before, after, symbol);
                }
                return ;
            }
            i += 1;
        }
        let mut targets: Vec<usize> = Vec::new();
        targets.push(to);
        self.transitions.push(Transition { symbol, targets });
        proof {
            let after = self.transitions@;
            let last = before.len() as int;
            assert(entry_symbols(after) =~= entry_symbols(before).push(symbol));
            lemma_lookup_at(after, last);
            lemma_lookup_elsewhere(before, after, symbol);
        }
    }

    /// Binds `symbol` to the single destination `to`. Whatever the symbol
    /// was bound to before is given up: the last binding stands.
    pub fn set_transition(&mut self, symbol: char, to: usize)
        requires
            old(self).wf(),
        ensures
            final(self).wf(),
            final(self).name() == old(self).name(),
            final(self).accepting() == old(self).accepting(),
            final(self).targets(symbol) == seq![to],
            forall|c: char| c != symbol ==> final(self).targets(c) == old(self).targets(c),
            final(self).symbols() == if old(self).symbols().contains(symbol) {
                old(self).symbols()
            } else {
                old(self).symbols().push(symbol)
            },
    {
        let ghost before = self.transitions@;
        let mut targets: Vec<usize> = Vec::new();
        targets.push(to);
        let mut i: usize = 0;
        while i < self.transitions.len()
            invariant
                i <= self.transitions.len(),
                self.transitions@ == before,
                self.state == old(self).state,
                self.is_accept == old(self).is_accept,
                old(self).wf(),
                before == old(self).transitions@,
                targets@ == seq![to],
                forall|k: int| 0 <= k < i ==> (#[trigger] before[k]).symbol != symbol,
            decreases self.transitions.len() - i,
        {
            if self.transitions[i].symbol == symbol {
                self.transitions[i].targets = targets;
                proof {
                    let after = self.transitions@;
                    assert(entry_symbols(after) =~= entry_symbols(before));
                    assert(entry_symbols(before)[i as int] == symbol);
                    lemma_lookup_at(after, i as int);
                    lemma_lookup_elsewhere(before, after, symbol);
                }
                return ;
            }
            i += 1;
        }
        self.transitions.push(Transition { symbol, targets });
        proof {
            let after = self.transitions@;
            assert(entry_symbols(after) =~= entry_symbols(before).push(symbol));
            lemma_lookup_elsewhere(before, after, symbol);
        }
    }

    /// The first destination on `symbol`, if there is one.
    pub fn next_state(&self, symbol: char) -> (next: Option<usize>)
        requires
            self.wf(),
        ensures
            next == if self.targets(symbol).len() > 0 {
                Some(self.targets(symbol)[0])
            } else {
                None
            },
    {
        let mut i: usize = 0;
        while i < self.transitions.len()
            invariant
                i <= self.transitions.len(),
                self.wf(),
                forall|k: int| 0 <= k < i ==> (#[trigger] self.transitions[k]).symbol != symbol,
            decreases self.transitions.len() - i,
        {
            if self.transitions[i].symbol == symbol {
                proof {
                    lemma_lookup_at(self.transitions@, i as int);
                }
                return Some(self.transitions[i].targets[0]);
            }
            i += 1;
        }
        None
    }

    /// The destinations on `symbol`, in the order in which they were added;
    /// none where the state has no transition on it.
    pub fn next_states(&self, symbol: char) -> (next: Vec<usize>)
        requires
            self.wf(),
        ensures
            next@ == self.targets(symbol),
    {
        let mut i: usize = 0;
        while i < self.transitions.len()
            invariant
                i <= self.transitions.len(),
                self.wf(),
                forall|k: int| 0 <= k < i ==> (#[trigger] self.transitions[k]).symbol != symbol,
            decreases self.transitions.len() - i,
        {
            if self.transitions[i].symbol == symbol {
                proof {
                    lemma_lookup_at(self.transitions@, i as int);
                }
                return self.transitions[i].targets.clone();
            }
            i += 1;
        }
        Vec::new()
    }

    /// The symbols on which the state has a destination, in the order in
    /// which each first got one.
    pub fn symbol_list(&self) -> (list: Vec<char>)
        ensures
            list@ == self.symbols(),
    {
        let mut list: Vec<char> = Vec::new();
        let mut i: usize = 0;
        while i < self.transitions.len()
            invariant
                i <= self.transitions.len(),
                list@ == entry_symbols(self.transitions@).take(i as int),
            decreases self.transitions.len() - i,
        {
            list.push(self.transitions[i].symbol);
            i += 1;
        }
        list
    }

    /// The name of the state.
    pub fn state(&self) -> (name: &String)
        ensures
            name@ == self.name(),
    {
        &self.state
    }

    /// Whether the state is an accept state.
    pub fn is_accept(&self) -> (flag: bool)
        ensures
            flag == self.accepting(),
    {
        self.is_accept
    }
}

/// A state has destinations on exactly the symbols it lists.
pub proof fn lemma_symbols_have_targets(node: Node, c: char)
    requires
        node.wf(),
    ensures
        node.symbols().contains(c) <==> node.targets(c).len() > 0,
        distinct(node.symbols()),
{
    let entries = node.transitions@;
    if has_entry(entries, c) {
        let i = choose|i: int| 0 <= i < entries.len() && (#[trigger] entries[i]).symbol == c;
        assert(entry_symbols(entries)[i] == c);
    }
}

} // verus!
