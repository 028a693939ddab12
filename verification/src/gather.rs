//! The entry of an alphabet and of a state set as a whole: a cardinality is
//! announced, then entries are read line by line until that many have been
//! accepted. An entry that is turned down changes nothing and does not
//! count; the next line is read in its place.

use vstd::prelude::*;
use vstd::seq_lib::*;
use vstd::set_lib::*;
use crate::alphabet::{distinct, Alphabet};
use crate::assembly::{
    all_wf, cardinality, declare_state, enter_state_name, enter_symbol, entry_wanted,
    lemma_resolves_when_named, parse_accept_flag, parse_cardinality, resolve,
};
use crate::node::Node;
use crate::statement::contents;
use crate::text::trimmed;

verus! {

/// The symbol that a line enters: its first character after leading
/// whitespace, if it has one.
pub open spec fn entered_symbol(line: Seq<char>) -> Option<char> {
    if trimmed(line).len() > 0 {
        Some(trimmed(line)[0])
    } else {
        None
    }
}

/// Whether the line is accepted as a new symbol of `alphabet`.
pub open spec fn symbol_accepted(alphabet: Seq<char>, line: Seq<char>) -> bool {
    entered_symbol(line) matches Some(c) && !alphabet.contains(c)
}

/// The alphabet after the line was entered: with its symbol where the line
/// is accepted, as before where it is turned down.
pub open spec fn with_symbol(alphabet: Seq<char>, line: Seq<char>) -> Seq<char> {
    if symbol_accepted(alphabet, line) {
        alphabet.push(entered_symbol(line)->0)
    } else {
        alphabet
    }
}

/// The alphabet after the lines were entered in turn, for as long as fewer
/// than `size` symbols have been accepted. Lines that come after that are
/// not read.
pub open spec fn symbols_gathered(alphabet: Seq<char>, lines: Seq<Seq<char>>, size: nat) -> Seq<
    char,
>
    decreases lines.len(),
{
    if lines.len() == 0 || alphabet.len() >= size {
        alphabet
    } else {
        symbols_gathered(with_symbol(alphabet, lines[0]), lines.drop_first(), size)
    }
}

/// The lines without those that are turned down when their turn comes.
pub open spec fn symbol_lines_kept(alphabet: Seq<char>, lines: Seq<Seq<char>>, size: nat) -> Seq<
    Seq<char>,
>
    decreases lines.len(),
{
    if lines.len() == 0 || alphabet.len() >= size {
        lines
    } else if symbol_accepted(alphabet, lines[0]) {
        seq![lines[0]] + symbol_lines_kept(
            with_symbol(alphabet, lines[0]),
            lines.drop_first(),
            size,
        )
    } else {
        symbol_lines_kept(alphabet, lines.drop_first(), size)
    }
}

/// The cardinality that a line announces, if it states one that fits the
/// machine.
pub open spec fn announced(line: Seq<char>) -> Option<nat> {
    match cardinality(line) {
        Some(n) => if n <= usize::MAX {
            Some(n)
        } else {
            None
        },
        None => None,
    }
}

/// The alphabet that the lines enter: the first line that announces a
/// cardinality gives the number of symbols, and the lines after it enter
/// them. Lines before it are turned down.
pub open spec fn alphabet_entered(lines: Seq<Seq<char>>) -> Seq<char>
    decreases lines.len(),
{
    if lines.len() == 0 {
        Seq::empty()
    } else {
        match announced(lines[0]) {
            Some(size) => symbols_gathered(Seq::empty(), lines.drop_first(), size),
            None => alphabet_entered(lines.drop_first()),
        }
    }
}

/// Enters the lines in turn as symbols until the alphabet has `size` of them.
pub fn gather_symbols(alphabet: &mut Alphabet, lines: &Vec<String>, from: usize, size: usize)
    requires
        old(alphabet).wf(),
        from <= lines.len(),
    ensures
        final(alphabet).wf(),
        final(alphabet)@ == symbols_gathered(
            old(alphabet)@,
            contents(lines@).skip(from as int),
            size as nat,
        ),
{
    let ghost all = contents(lines@);
    let mut i: usize = from;
    while i < lines.len() && entry_wanted(alphabet.len(), size)
        invariant
            from <= i <= lines.len(),
            alphabet.wf(),
            all == contents(lines@),
            symbols_gathered(alphabet@, all.skip(i as int), size as nat) == symbols_gathered(
                old(alphabet)@,
                all.skip(from as int),
                size as nat,
            ),
        decreases lines.len() - i,
    {
        let _ = enter_symbol(alphabet, lines[i].as_str());
        assert(all.skip(i as int).drop_first() =~= all.skip(i as int + 1));
        i += 1;
    }
}

/// Enters an alphabet from lines: the first line that states a cardinality
/// announces the number of symbols, and the lines after it are entered as
/// symbols until that many have been accepted.
pub fn create_alphabet(lines: &Vec<String>) -> (alphabet: Alphabet)
    ensures
        alphabet.wf(),
        alphabet@ == alphabet_entered(contents(lines@)),
{
    let ghost all = contents(lines@);
    let mut alphabet = Alphabet::new();
    let mut i: usize = 0;
    assert(all.skip(0) =~= all);
    while i < lines.len()
        invariant
            i <= lines.len(),
            alphabet.wf(),
            alphabet@ == Seq::<char>::empty(),
            all == contents(lines@),
            alphabet_entered(all.skip(i as int)) == alphabet_entered(all),
        decreases lines.len() - i,
    {
        assert(all.skip(i as int).drop_first() =~= all.skip(i as int + 1));
        if let Ok(size) = parse_cardinality(lines[i].as_str()) {
            gather_symbols(&mut alphabet, lines, i + 1, size);
            return alphabet;
        }
        i += 1;
    }
    alphabet
}

/// Entering lines only ever adds symbols at the end: what was accepted
/// before stays, in its place. The alphabet never grows beyond the size that
/// was announced, and no symbol comes to stand in it twice.
pub proof fn lemma_symbols_grow(alphabet: Seq<char>, lines: Seq<Seq<char>>, size: nat)
    ensures
        alphabet.len() <= symbols_gathered(alphabet, lines, size).len(),
        symbols_gathered(alphabet, lines, size).take(alphabet.len() as int) == alphabet,
        alphabet.len() <= size ==> symbols_gathered(alphabet, lines, size).len() <= size,
        distinct(alphabet) ==> distinct(symbols_gathered(alphabet, lines, size)),
    decreases lines.len(),
{
    if lines.len() > 0 && alphabet.len() < size {
        lemma_symbols_grow(with_symbol(alphabet, lines[0]), lines.drop_first(), size);
    }
}

/// A line that is turned down neither adds a symbol nor counts: the lines
/// give the alphabet that they give once every line that is turned down is
/// deleted from them.
pub proof fn lemma_rejected_symbols_do_not_count(
    alphabet: Seq<char>,
    lines: Seq<Seq<char>>,
    size: nat,
)
    ensures
        symbols_gathered(alphabet, symbol_lines_kept(alphabet, lines, size), size)
            == symbols_gathered(alphabet, lines, size),
    decreases lines.len(),
{
    if lines.len() > 0 && alphabet.len() < size {
        let next = with_symbol(alphabet, lines[0]);
        lemma_rejected_symbols_do_not_count(next, lines.drop_first(), size);
        if symbol_accepted(alphabet, lines[0]) {
            let kept = symbol_lines_kept(next, lines.drop_first(), size);
            assert((seq![lines[0]] + kept).drop_first() =~= kept);
        }
    }
}

/// Where fewer symbols than announced were accepted, every line was read,
/// and the symbol of each is in the alphabet.
proof fn lemma_short_of_size(alphabet: Seq<char>, lines: Seq<Seq<char>>, size: nat, k: int)
    requires
        symbols_gathered(alphabet, lines, size).len() < size,
        0 <= k < lines.len(),
        entered_symbol(lines[k]) is Some,
    ensures
        symbols_gathered(alphabet, lines, size).contains(entered_symbol(lines[k])->0),
    decreases lines.len(),
{
    let next = with_symbol(alphabet, lines[0]);
    let rest = lines.drop_first();
    if k == 0 {
        lemma_symbols_grow(next, rest, size);
        if symbol_accepted(alphabet, lines[0]) {
            assert(next[alphabet.len() as int] == entered_symbol(lines[0])->0);
        }
    } else {
        lemma_short_of_size(next, rest, size, k - 1);
    }
}

/// Lines that hold at least as many different symbols as were announced give
/// an alphabet of exactly the announced size.
pub proof fn lemma_enough_symbols(lines: Seq<Seq<char>>, size: nat, chosen: Seq<char>)
    requires
        distinct(chosen),
        chosen.len() >= size,
        forall|j: int|
            0 <= j < chosen.len() ==> exists|k: int|
                0 <= k < lines.len() && entered_symbol(lines[k]) == Some(#[trigger] chosen[j]),
    ensures
        symbols_gathered(Seq::empty(), lines, size).len() == size,
{
    let all = symbols_gathered(Seq::empty(), lines, size);
    lemma_symbols_grow(Seq::empty(), lines, size);
    if all.len() < size {
        assert forall|c: char| chosen.to_set().contains(c) implies all.to_set().contains(c) by {
            let j = choose|j: int| 0 <= j < chosen.len() && chosen[j] == c;
            let k = choose|k: int|
                0 <= k < lines.len() && entered_symbol(lines[k]) == Some(chosen[j]);
            lemma_short_of_size(Seq::empty(), lines, size, k);
        }
        chosen.unique_seq_to_set();
        all.unique_seq_to_set();
        lemma_len_subset(chosen.to_set(), all.to_set());
    }
}

/// The answer that a line gives to whether a state accepts: `s` for yes and
/// `n` for no, with whitespace around it ignored.
pub open spec fn entered_flag(line: Seq<char>) -> Option<bool> {
    if trimmed(line) == seq!['s'] {
        Some(true)
    } else if trimmed(line) == seq!['n'] {
        Some(false)
    } else {
        None
    }
}

/// The names of the declarations, in order.
pub open spec fn declared_names(done: Seq<(Seq<char>, bool)>) -> Seq<Seq<char>> {
    Seq::new(done.len(), |i: int| done[i].0)
}

/// The states as declarations: the name and the accept flag of each.
pub open spec fn declarations(states: Seq<Node>) -> Seq<(Seq<char>, bool)> {
    Seq::new(states.len(), |i: int| (states[i].name(), states[i].accepting()))
}

/// The declarations after the lines were entered in turn. A line is read as
/// a name as long as fewer than `size` states are declared; a name that is
/// taken is turned down, and a new one is held as `pending`. While a name is
/// pending the next line is read as its classification; a line that gives
/// none is turned down, and one that does declares the state.
pub open spec fn states_gathered(
    done: Seq<(Seq<char>, bool)>,
    pending: Option<Seq<char>>,
    lines: Seq<Seq<char>>,
    size: nat,
) -> Seq<(Seq<char>, bool)>
    decreases lines.len(),
{
    if lines.len() == 0 {
        done
    } else {
        match pending {
            Some(name) => match entered_flag(lines[0]) {
                Some(flag) => states_gathered(
                    done.push((name, flag)),
                    None,
                    lines.drop_first(),
                    size,
                ),
                None => states_gathered(done, pending, lines.drop_first(), size),
            },
            None => if done.len() >= size {
                done
            } else if declared_names(done).contains(trimmed(lines[0])) {
                states_gathered(done, None, lines.drop_first(), size)
            } else {
                states_gathered(done, Some(trimmed(lines[0])), lines.drop_first(), size)
            },
        }
    }
}

/// Whether the line is turned down when it is read in this situation: as a
/// classification it gives none, or as a name it is taken.
pub open spec fn state_line_rejected(
    done: Seq<(Seq<char>, bool)>,
    pending: Option<Seq<char>>,
    line: Seq<char>,
) -> bool {
    match pending {
        Some(_) => entered_flag(line) is None,
        None => declared_names(done).contains(trimmed(line)),
    }
}

/// The lines without those that are turned down when their turn comes.
pub open spec fn state_lines_kept(
    done: Seq<(Seq<char>, bool)>,
    pending: Option<Seq<char>>,
    lines: Seq<Seq<char>>,
    size: nat,
) -> Seq<Seq<char>>
    decreases lines.len(),
{
    if lines.len() == 0 || (pending is None && done.len() >= size) {
        lines
    } else if state_line_rejected(done, pending, lines[0]) {
        state_lines_kept(done, pending, lines.drop_first(), size)
    } else {
        match pending {
            Some(name) => seq![lines[0]] + state_lines_kept(
                done.push((name, entered_flag(lines[0])->0)),
                None,
                lines.drop_first(),
                size,
            ),
            None => seq![lines[0]] + state_lines_kept(
                done,
                Some(trimmed(lines[0])),
                lines.drop_first(),
                size,
            ),
        }
    }
}

/// The states that the lines declare: the first line that states a
/// cardinality announces their number, and the lines after it enter them.
pub open spec fn states_entered(lines: Seq<Seq<char>>) -> Seq<(Seq<char>, bool)>
    decreases lines.len(),
{
    if lines.len() == 0 {
        Seq::empty()
    } else {
        match announced(lines[0]) {
            Some(size) => states_gathered(Seq::empty(), None, lines.drop_first(), size),
            None => states_entered(lines.drop_first()),
        }
    }
}

/// Whether the state has no transition.
pub open spec fn bare(node: Node) -> bool {
    &&& node.symbols() == Seq::<char>::empty()
    &&& forall|c: char| #[trigger] node.targets(c) == Seq::<usize>::empty()
}

/// The name that is pending, as text.
pub open spec fn pending_name(pending: Option<String>) -> Option<Seq<char>> {
    match pending {
        Some(name) => Some(name@),
        None => None,
    }
}

/// Enters the lines in turn as names and classifications until `size`
/// states are declared. The states declared before stay as they are, and
/// each new one comes after them, without transitions.
pub fn gather_states(states: &mut Vec<Node>, lines: &Vec<String>, from: usize, size: usize)
    requires
        all_wf(old(states)@),
        from <= lines.len(),
    ensures
        all_wf(final(states)@),
        declarations(final(states)@) == states_gathered(
            declarations(old(states)@),
            None,
            contents(lines@).skip(from as int),
            size as nat,
        ),
        old(states)@.len() <= final(states)@.len(),
        final(states)@.take(old(states)@.len() as int) == old(states)@,
        forall|i: int|
            old(states)@.len() <= i < final(states)@.len() ==> bare(#[trigger] final(states)@[i]),
{
    let ghost all = contents(lines@);
    let ghost start = states@;
    let mut pending: Option<String> = None;
    let mut i: usize = from;
    while i < lines.len() && (pending.is_some() || entry_wanted(states.len(), size))
        invariant
            from <= i <= lines.len(),
            all_wf(states@),
            all == contents(lines@),
            start == old(states)@,
            start.len() <= states@.len(),
            states@.take(start.len() as int) == start,
            forall|h: int| start.len() <= h < states@.len() ==> bare(#[trigger] states@[h]),
            states_gathered(
                declarations(states@),
                pending_name(pending),
                all.skip(i as int),
                size as nat,
            ) == states_gathered(declarations(start), None, all.skip(from as int), size as nat),
        decreases lines.len() - i,
    {
        let ghost before = states@;
        assert(all.skip(i as int).drop_first() =~= all.skip(i as int + 1));
        let line = lines[i].as_str();
        let held = pending;
        pending = None;
        match held {
            Some(name) => match parse_accept_flag(line) {
                Ok(flag) => {
                    declare_state(states, name.as_str(), flag);
                    proof {
                        assert(declarations(states@) =~= declarations(before).push((name@, flag)));
                        assert forall|h: int| start.len() <= h < states@.len() implies bare(
                            #[trigger] states@[h],
                        ) by {
                            if h < before.len() {
                                assert(states@.drop_last()[h] == states@[h]);
                            }
                        }
                    }
                },
                Err(_) => {
                    pending = Some(name);
                },
            },
            None => {
                proof {
                    lemma_resolves_when_named(states@, trimmed(line@));
                    lemma_names_declared(states@, trimmed(line@));
                }
                if let Ok(name) = enter_state_name(states, line) {
                    pending = Some(name);
                }
            },
        }
        i += 1;
    }
}

/// A name is among the declared names exactly when some state has it.
proof fn lemma_names_declared(states: Seq<Node>, name: Seq<char>)
    ensures
        declared_names(declarations(states)).contains(name) <==> exists|i: int|
            0 <= i < states.len() && (#[trigger] states[i]).name() == name,
{
    let names = declared_names(declarations(states));
    if exists|i: int| 0 <= i < states.len() && (#[trigger] states[i]).name() == name {
        let i = choose|i: int| 0 <= i < states.len() && (#[trigger] states[i]).name() == name;
        assert(names[i] == name);
    }
}

/// Enters a state set from lines: the first line that states a cardinality
/// announces the number of states, and the lines after it are entered as
/// names and classifications until that many states are declared.
pub fn create_states(lines: &Vec<String>) -> (states: Vec<Node>)
    ensures
        all_wf(states@),
        declarations(states@) == states_entered(contents(lines@)),
        forall|i: int| 0 <= i < states@.len() ==> bare(#[trigger] states@[i]),
{
    let ghost all = contents(lines@);
    let mut states: Vec<Node> = Vec::new();
    let mut i: usize = 0;
    assert(all.skip(0) =~= all);
    while i < lines.len()
        invariant
            i <= lines.len(),
            states@.len() == 0,
            all == contents(lines@),
            states_entered(all.skip(i as int)) == states_entered(all),
        decreases lines.len() - i,
    {
        proof {
            assert(all.skip(i as int).drop_first() =~= all.skip(i as int + 1));
            assert(declarations(states@) =~= Seq::<(Seq<char>, bool)>::empty());
        }
        if let Ok(size) = parse_cardinality(lines[i].as_str()) {
            gather_states(&mut states, lines, i + 1, size);
            return states;
        }
        i += 1;
    }
    states
}

/// Whether a name may be held pending: fewer than `size` states are
/// declared, and none has the name.
pub open spec fn may_pend(
    done: Seq<(Seq<char>, bool)>,
    pending: Option<Seq<char>>,
    size: nat,
) -> bool {
    pending matches Some(name) ==> done.len() < size && !declared_names(done).contains(name)
}

/// Entering lines only ever adds states at the end: what was declared
/// before stays, in its place. The state set never grows beyond the size
/// that was announced, and no two states come to have the same name.
pub proof fn lemma_states_grow(
    done: Seq<(Seq<char>, bool)>,
    pending: Option<Seq<char>>,
    lines: Seq<Seq<char>>,
    size: nat,
)
    requires
        may_pend(done, pending, size),
    ensures
        done.len() <= states_gathered(done, pending, lines, size).len(),
        states_gathered(done, pending, lines, size).take(done.len() as int) == done,
        done.len() <= size ==> states_gathered(done, pending, lines, size).len() <= size,
        distinct(declared_names(done)) ==> distinct(
            declared_names(states_gathered(done, pending, lines, size)),
        ),
    decreases lines.len(),
{
    if lines.len() > 0 {
        let rest = lines.drop_first();
        match pending {
            Some(name) => match entered_flag(lines[0]) {
                Some(flag) => {
                    let more = done.push((name, flag));
                    lemma_states_grow(more, None, rest, size);
                    if distinct(declared_names(done)) {
                        assert(declared_names(more) =~= declared_names(done).push(name));
                    }
                },
                None => {
                    lemma_states_grow(done, pending, rest, size);
                },
            },
            None => if done.len() < size {
                if declared_names(done).contains(trimmed(lines[0])) {
                    lemma_states_grow(done, None, rest, size);
                } else {
                    lemma_states_grow(done, Some(trimmed(lines[0])), rest, size);
                }
            },
        }
    }
}

/// A line that is turned down neither declares a state nor counts: the
/// lines declare what they declare once every line that is turned down is
/// deleted from them.
pub proof fn lemma_rejected_states_do_not_count(
    done: Seq<(Seq<char>, bool)>,
    pending: Option<Seq<char>>,
    lines: Seq<Seq<char>>,
    size: nat,
)
    ensures
        states_gathered(done, pending, state_lines_kept(done, pending, lines, size), size)
            == states_gathered(done, pending, lines, size),
    decreases lines.len(),
{
    if lines.len() > 0 && (pending is Some || done.len() < size) {
        let rest = lines.drop_first();
        if state_line_rejected(done, pending, lines[0]) {
            lemma_rejected_states_do_not_count(done, pending, rest, size);
        } else {
            match pending {
                Some(name) => {
                    let more = done.push((name, entered_flag(lines[0])->0));
                    lemma_rejected_states_do_not_count(more, None, rest, size);
                    let kept = state_lines_kept(more, None, rest, size);
                    assert((seq![lines[0]] + kept).drop_first() =~= kept);
                },
                None => {
                    let held = Some(trimmed(lines[0]));
                    lemma_rejected_states_do_not_count(done, held, rest, size);
                    let kept = state_lines_kept(done, held, rest, size);
                    assert((seq![lines[0]] + kept).drop_first() =~= kept);
                },
            }
        }
    }
}

/// The number of the lines that are read: all of them, or those up to where
/// `size` states are declared.
pub open spec fn state_lines_read(
    done: Seq<(Seq<char>, bool)>,
    pending: Option<Seq<char>>,
    lines: Seq<Seq<char>>,
    size: nat,
) -> nat
    decreases lines.len(),
{
    if lines.len() == 0 || (pending is None && done.len() >= size) {
        0
    } else {
        let rest = lines.drop_first();
        1 + match pending {
            Some(name) => match entered_flag(lines[0]) {
                Some(flag) => state_lines_read(done.push((name, flag)), None, rest, size),
                None => state_lines_read(done, pending, rest, size),
            },
            None => if declared_names(done).contains(trimmed(lines[0])) {
                state_lines_read(done, None, rest, size)
            } else {
                state_lines_read(done, Some(trimmed(lines[0])), rest, size)
            },
        }
    }
}

/// The entry stops short of the announced size only for want of lines:
/// where fewer states are declared than were announced, every line was read.
pub proof fn lemma_states_short_of_size(
    done: Seq<(Seq<char>, bool)>,
    pending: Option<Seq<char>>,
    lines: Seq<Seq<char>>,
    size: nat,
)
    requires
        may_pend(done, pending, size),
        states_gathered(done, pending, lines, size).len() < size,
    ensures
        state_lines_read(done, pending, lines, size) == lines.len(),
    decreases lines.len(),
{
    if lines.len() > 0 {
        let rest = lines.drop_first();
        match pending {
            Some(name) => match entered_flag(lines[0]) {
                Some(flag) => lemma_states_short_of_size(done.push((name, flag)), None, rest, size),
                None => lemma_states_short_of_size(done, pending, rest, size),
            },
            None => if declared_names(done).contains(trimmed(lines[0])) {
                lemma_states_short_of_size(done, None, rest, size)
            } else {
                lemma_states_short_of_size(done, Some(trimmed(lines[0])), rest, size)
            },
        }
    }
}

} // verus!
