//! The automaton as text: the state set and the accept states in set
//! notation, the alphabet, the start state, the transition relation line by
//! line, and the formal five-tuple.

use vstd::prelude::*;
use vstd::string::*;
use crate::nfa::NFA;
use crate::node::Node;
use crate::statement::contents;
use crate::text::push_char;

verus! {

/// The separator between the members of a rendered set.
pub open spec fn comma() -> Seq<char> {
    seq![',', ' ']
}

/// The parts in order, with `sep` between each two.
pub open spec fn join(parts: Seq<Seq<char>>, sep: Seq<char>) -> Seq<char>
    decreases parts.len(),
{
    if parts.len() == 0 {
        Seq::empty()
    } else if parts.len() == 1 {
        parts[0]
    } else {
        join(parts.drop_last(), sep) + sep + parts.last()
    }
}

/// The parts as a set in curly brackets: `{q0, q1}`.
pub open spec fn braced(parts: Seq<Seq<char>>) -> Seq<char> {
    seq!['{'] + join(parts, comma()) + seq!['}']
}

/// The parts as a list in square brackets: `[q0, q1]`.
pub open spec fn bracketed(parts: Seq<Seq<char>>) -> Seq<char> {
    seq!['['] + join(parts, comma()) + seq![']']
}

/// The name that stands for the start state of an automaton without states.
pub open spec fn placeholder_name() -> Seq<char> {
    seq!['E', 'm', 'p', 't', 'y']
}

/// A character in quotes, as the `Debug` form of `char` writes it.
pub uninterp spec fn quoted(c: char) -> Seq<char>;

/// The character `c` in quotes.
///
/// Trusted: wraps the formatting of a `char` with `{:?}`, which writes the
/// character between single quotes and escapes what cannot be shown as it
/// is. The result depends on the character alone; it is named, not described.
#[verifier::external_body]
fn quote(c: char) -> (text: String)
    ensures
        text@ == quoted(c),
{
    format!("{:?}", c)
}

/// Appends the parts to `out`, with a comma and a space between each two.
fn append_joined(out: &mut String, parts: &Vec<String>)
    ensures
        final(out)@ == old(out)@ + join(contents(parts@), comma()),
{
    let ghost all = contents(parts@);
    let mut i: usize = 0;
    while i < parts.len()
        invariant
            i <= parts.len(),
            all == contents(parts@),
            out@ == old(out)@ + join(all.take(i as int), comma()),
        decreases parts.len() - i,
    {
        if i > 0 {
            out.append(", ");
        }
        out.append(parts[i].as_str());
        proof {
            reveal_strlit(", ");
            assert(all.take(i as int + 1).drop_last() =~= all.take(i as int));
        }
        i += 1;
    }
    assert(all.take(i as int) =~= all);
}

/// The parts as a set in curly brackets.
pub fn render_set(parts: &Vec<String>) -> (text: String)
    ensures
        text@ == braced(contents(parts@)),
{
    let mut text = String::new();
    push_char(&mut text, '{');
    append_joined(&mut text, parts);
    push_char(&mut text, '}');
    text
}

/// The parts as a list in square brackets.
pub fn render_list(parts: &Vec<String>) -> (text: String)
    ensures
        text@ == bracketed(contents(parts@)),
{
    let mut text = String::new();
    push_char(&mut text, '[');
    append_joined(&mut text, parts);
    push_char(&mut text, ']');
    text
}

/// The names of the states, in order.
pub open spec fn names(states: Seq<Node>) -> Seq<Seq<char>> {
    Seq::new(states.len(), |i: int| states[i].name())
}

/// The names of the accept states, in order.
pub open spec fn accepting_names(states: Seq<Node>) -> Seq<Seq<char>>
    decreases states.len(),
{
    if states.len() == 0 {
        Seq::empty()
    } else if states.last().accepting() {
        accepting_names(states.drop_last()).push(states.last().name())
    } else {
        accepting_names(states.drop_last())
    }
}

/// The names of the states at the positions `at`; an empty name for a
/// position that no state has.
pub open spec fn names_at(states: Seq<Node>, at: Seq<usize>) -> Seq<Seq<char>> {
    Seq::new(
        at.len(),
        |k: int|
            if at[k] < states.len() {
                states[at[k] as int].name()
            } else {
                Seq::empty()
            },
    )
}

/// Each symbol in quotes.
pub open spec fn quoted_all(symbols: Seq<char>) -> Seq<Seq<char>> {
    Seq::new(symbols.len(), |i: int| quoted(symbols[i]))
}

/// The line that shows the destinations of `node` on `c`:
/// `δ(q0, a) = [q0, q1]`, with a line feed after it.
pub open spec fn transition_line(states: Seq<Node>, node: Node, c: char) -> Seq<char> {
    seq!['δ', '('] + node.name() + comma() + seq![c] + seq![')', ' ', '=', ' '] + bracketed(
        names_at(states, node.targets(c)),
    ) + seq!['\n']
}

/// The lines of `node` for the symbols `symbols`, in order.
pub open spec fn node_lines(states: Seq<Node>, node: Node, symbols: Seq<char>) -> Seq<char>
    decreases symbols.len(),
{
    if symbols.len() == 0 {
        Seq::empty()
    } else {
        node_lines(states, node, symbols.drop_last()) + transition_line(
            states,
            node,
            symbols.last(),
        )
    }
}

/// The lines of the first `n` states: each state's symbols in the order in
/// which they first got a destination.
pub open spec fn lines_of(states: Seq<Node>, n: int) -> Seq<char>
    decreases n,
{
    if n <= 0 {
        Seq::empty()
    } else {
        lines_of(states, n - 1) + node_lines(states, states[n - 1], states[n - 1].symbols())
    }
}

impl NFA {
    /// The name of the start state; `Empty` where a placeholder stands in.
    pub open spec fn start_name(&self) -> Seq<char> {
        match self.start() {
            Some(s) => self.states()[s as int].name(),
            None => placeholder_name(),
        }
    }

    /// The five-tuple: `A = <Q = {..}, Σ = {..}, q0, δ, F = {..}>`, with the
    /// states, the alphabet in quotes, the name of the start state and the
    /// accept states.
    pub open spec fn tuple_text(&self) -> Seq<char> {
        seq!['A', ' ', '=', ' ', '<', 'Q', ' ', '=', ' '] + braced(names(self.states())) + seq![
            ',',
            ' ',
            'Σ',
            ' ',
            '=',
            ' ',
        ] + braced(quoted_all(self.alphabet())) + comma() + self.start_name() + seq![
            ',',
            ' ',
            'δ',
            ',',
            ' ',
            'F',
            ' ',
            '=',
            ' ',
        ] + braced(accepting_names(self.states())) + seq!['>']
    }

    /// The names of the states at the positions of `path`, or nothing where
    /// the path holds a position that no state has.
    pub fn path_names(&self, path: &Vec<usize>) -> (named: Option<Vec<String>>)
        ensures
            match named {
                Some(list) => {
                    &&& forall|k: int| 0 <= k < path@.len() ==> path@[k] < self.states().len()
                    &&& contents(list@) == names_at(self.states(), path@)
                },
                None => exists|k: int| 0 <= k < path@.len() && path@[k] >= self.states().len(),
            },
    {
        let mut list: Vec<String> = Vec::new();
        let mut k: usize = 0;
        while k < path.len()
            invariant
                k <= path.len(),
                list@.len() == k,
                forall|h: int| 0 <= h < k ==> path@[h] < self.states().len(),
                forall|h: int|
                    0 <= h < k ==> (#[trigger] list@[h])@ == self.states()[path@[h] as int].name(),
            decreases path.len() - k,
        {
            if path[k] >= self.state_count() {
                return None;
            }
            list.push(self.node(path[k]).state().clone());
            k += 1;
        }
        Some(list)
    }

    /// The names of all states, in order.
    pub fn state_names(&self) -> (list: Vec<String>)
        ensures
            contents(list@) == names(self.states()),
    {
        let mut list: Vec<String> = Vec::new();
        let mut i: usize = 0;
        while i < self.state_count()
            invariant
                i <= self.states().len(),
                list@.len() == i,
                forall|h: int| 0 <= h < i ==> (#[trigger] list@[h])@ == self.states()[h].name(),
            decreases self.states().len() - i,
        {
            list.push(self.node(i).state().clone());
            i += 1;
        }
        list
    }

    /// The names of the accept states, in order.
    pub fn accept_state_names(&self) -> (list: Vec<String>)
        ensures
            contents(list@) == accepting_names(self.states()),
    {
        let ghost all = self.states();
        let mut list: Vec<String> = Vec::new();
        let mut i: usize = 0;
        while i < self.state_count()
            invariant
                i <= self.states().len(),
                all == self.states(),
                contents(list@) == accepting_names(all.take(i as int)),
            decreases self.states().len() - i,
        {
            assert(all.take(i as int + 1).drop_last() =~= all.take(i as int));
            if self.node(i).is_accept() {
                list.push(self.node(i).state().clone());
            }
            i += 1;
        }
        assert(all.take(i as int) =~= all);
        list
    }

    /// The state set in set notation: `{q0, q1}`.
    pub fn render_states(&self) -> (text: String)
        ensures
            text@ == braced(names(self.states())),
    {
        render_set(&self.state_names())
    }

    /// The accept states in set notation.
    pub fn render_accept_states(&self) -> (text: String)
        ensures
            text@ == braced(accepting_names(self.states())),
    {
        render_set(&self.accept_state_names())
    }

    /// The alphabet in set notation, each symbol in quotes, in declaration
    /// order: `{'a', 'b'}`.
    pub fn render_alphabet(&self) -> (text: String)
        ensures
            text@ == braced(quoted_all(self.alphabet())),
    {
        let alphabet = self.symbols();
        let mut list: Vec<String> = Vec::new();
        let mut i: usize = 0;
        while i < alphabet.len()
            invariant
                i <= alphabet@.len(),
                alphabet@ == self.alphabet(),
                list@.len() == i,
                forall|h: int| 0 <= h < i ==> (#[trigger] list@[h])@ == quoted(alphabet@[h]),
            decreases alphabet@.len() - i,
        {
            list.push(quote(alphabet.get(i)));
            i += 1;
        }
        assert(contents(list@) =~= quoted_all(self.alphabet()));
        render_set(&list)
    }

    /// The name of the start state.
    pub fn render_start_state(&self) -> (text: String)
        requires
            self.wf(),
        ensures
            text@ == self.start_name(),
    {
        match self.start_index() {
            Some(s) => self.node(s).state().clone(),
            None => {
                proof {
                    reveal_strlit("Empty");
                }
                "Empty".to_owned()
            },
        }
    }

    /// The transition relation, one line for each state and symbol with
    /// destinations: `δ(q0, a) = [q0, q1]`.
    pub fn render_transitions(&self) -> (text: String)
        requires
            self.wf(),
        ensures
            text@ == lines_of(self.states(), self.states().len() as int),
    {
        let ghost all = self.states();
        let mut text = String::new();
        let mut i: usize = 0;
        while i < self.state_count()
            invariant
                i <= self.states().len(),
                self.wf(),
                all == self.states(),
                text@ == lines_of(all, i as int),
            decreases self.states().len() - i,
        {
            let node = self.node(i);
            let symbols = node.symbol_list();
            let ghost done = text@;
            let mut a: usize = 0;
            while a < symbols.len()
                invariant
                    a <= symbols.len(),
                    self.wf(),
                    all == self.states(),
                    i < all.len(),
                    *node == all[i as int],
                    symbols@ == node.symbols(),
                    text@ == done + node_lines(all, *node, symbols@.take(a as int)),
                decreases symbols.len() - a,
            {
                let c = symbols[a];
                let targets = node.next_states(c);
                let list = self.path_names(&targets).unwrap();
                text.append("δ(");
                text.append(node.state().as_str());
                text.append(", ");
                push_char(&mut text, c);
                text.append(") = ");
                let shown = render_list(&list);
                text.append(shown.as_str());
                push_char(&mut text, '\n');
                proof {
                    reveal_strlit("δ(");
                    reveal_strlit(", ");
                    reveal_strlit(") = ");
                    assert(symbols@.take(a as int + 1).drop_last() =~= symbols@.take(a as int));
                }
                a += 1;
            }
            assert(symbols@.take(a as int) =~= symbols@);
            i += 1;
        }
        text
    }

    /// The formal five-tuple of the automaton:
    /// `A = <Q = {..}, Σ = {..}, q0, δ, F = {..}>`.
    pub fn tupla(&self) -> (text: String)
        requires
            self.wf(),
        ensures
            text@ == self.tuple_text(),
    {
        let mut text = String::new();
        text.append("A = <Q = ");
        text.append(self.render_states().as_str());
        text.append(", Σ = ");
        text.append(self.render_alphabet().as_str());
        text.append(", ");
        text.append(self.render_start_state().as_str());
        text.append(", δ, F = ");
        text.append(self.render_accept_states().as_str());
        text.append(">");
        proof {
            reveal_strlit("A = <Q = ");
            reveal_strlit(", Σ = ");
            reveal_strlit(", ");
            reveal_strlit(", δ, F = ");
            reveal_strlit(">");
        }
        text
    }
}

} // verus!
