//! The steps by which an automaton is assembled from lines of text: symbols
//! and states are declared one by one, duplicates are turned down, transition
//! statements are resolved against the declared states, and a start state is
//! designated. Each step says what it accepted and leaves everything as it
//! was where it accepted nothing.

use vstd::prelude::*;
use crate::alphabet::Alphabet;
use crate::error::AssemblyError;
use crate::nfa::{
    defect, names_distinct, node_in_range, node_over, start_designated, symbols_declared,
    targets_in_range,
};
use crate::node::Node;
use crate::statement::{
    parse, parse_statement, statement_symbol, symbol_of, Statement, StatementView,
};
use crate::text::{chars_of, push_char, trim, trimmed, trimmed_chars};

verus! {

/// Whether `i` is the first position of a state named `name`.
pub open spec fn named_at(states: Seq<Node>, name: Seq<char>, i: int) -> bool {
    &&& 0 <= i < states.len()
    &&& states[i].name() == name
    &&& forall|j: int| 0 <= j < i ==> (#[trigger] states[j]).name() != name
}

/// The position of the first state named `name`, if there is one.
pub open spec fn resolve(states: Seq<Node>, name: Seq<char>) -> Option<usize> {
    if exists|i: int| named_at(states, name, i) {
        Some((choose|i: int| named_at(states, name, i)) as usize)
    } else {
        None
    }
}

/// The names that a statement refers to: its source, then its destinations
/// in the order written.
pub open spec fn names_in(st: StatementView) -> Seq<Seq<char>> {
    seq![st.state] + st.targets
}

/// Whether every one of the names is that of a state.
pub open spec fn all_resolve(states: Seq<Node>, names: Seq<Seq<char>>) -> bool {
    forall|j: int| 0 <= j < names.len() ==> resolve(states, #[trigger] names[j]) is Some
}

/// Whether `j` is the place of the first of the names that no state has.
pub open spec fn first_unknown_at(states: Seq<Node>, names: Seq<Seq<char>>, j: int) -> bool {
    &&& 0 <= j < names.len()
    &&& resolve(states, names[j]) is None
    &&& forall|h: int| 0 <= h < j ==> resolve(states, #[trigger] names[h]) is Some
}

/// The positions of the states that the names name, where each names one.
pub open spec fn positions(states: Seq<Node>, names: Seq<Seq<char>>) -> Seq<usize> {
    Seq::new(names.len(), |j: int| resolve(states, names[j]).unwrap())
}

/// A state is found at `i` and nowhere before: it is the one `resolve` gives.
proof fn lemma_resolve_at(states: Seq<Node>, name: Seq<char>, i: int)
    requires
        named_at(states, name, i),
        states.len() <= usize::MAX,
    ensures
        resolve(states, name) == Some(i as usize),
{
}

/// The position of the first state named `name`, if there is one.
pub fn find_state(states: &Vec<Node>, name: &String) -> (found: Option<usize>)
    ensures
        found == resolve(states@, name@),
        found matches Some(i) ==> i < states.len() && states@[i as int].name() == name@,
{
    let mut i: usize = 0;
    while i < states.len()
        invariant
            i <= states.len(),
            forall|j: int| 0 <= j < i ==> (#[trigger] states@[j]).name() != name@,
        decreases states.len() - i,
    {
        if *states[i].state() == *name {
            proof {
                lemma_resolve_at(states@, name@, i as int);
            }
            return Some(i);
        }
        i += 1;
    }
    None
}

/// What a statement whose names all resolve adds to the states `before`:
/// each destination becomes a destination of the source state on the
/// statement's symbol, after those it had, in the order written. Every other
/// state, and every other symbol of the source, is as before.
pub open spec fn applied(
    before: Seq<Node>,
    after: Seq<Node>,
    st: StatementView,
    found: Seq<usize>,
) -> bool {
    &&& all_resolve(before, names_in(st))
    &&& resolve(before, st.state) matches Some(src)
    &&& src < before.len()
    &&& found == positions(before, st.targets)
    &&& after.len() == before.len()
    &&& forall|i: int| 0 <= i < before.len() && i != src ==> #[trigger] after[i] == before[i]
    &&& after[src as int].name() == before[src as int].name()
    &&& after[src as int].accepting() == before[src as int].accepting()
    &&& after[src as int].targets(st.symbol) == before[src as int].targets(st.symbol) + found
    &&& forall|c: char|
        c != st.symbol ==> #[trigger] after[src as int].targets(c) == before[src as int].targets(c)
    &&& after[src as int].symbols() == if found.len() == 0 || before[src as int].symbols().contains(
        st.symbol,
    ) {
        before[src as int].symbols()
    } else {
        before[src as int].symbols().push(st.symbol)
    }
}

/// Every state of the list is well formed.
pub open spec fn all_wf(states: Seq<Node>) -> bool {
    forall|i: int| 0 <= i < states.len() ==> (#[trigger] states[i]).wf()
}

/// The first of the names of a statement, its source before its
/// destinations, that no state has; nothing where each names a state.
pub fn first_unknown_name(states: &Vec<Node>, st: &Statement) -> (unknown: Option<String>)
    ensures
        match unknown {
            Some(name) => exists|j: int|
                first_unknown_at(states@, names_in(st@), j) && name@ == names_in(st@)[j],
            None => all_resolve(states@, names_in(st@)),
        },
{
    let ghost names = names_in(st@);
    if find_state(states, &st.state).is_none() {
        assert(first_unknown_at(states@, names, 0));
        return Some(st.state.clone());
    }
    let mut j: usize = 0;
    while j < st.targets.len()
        invariant
            j <= st.targets.len(),
            names == names_in(st@),
            forall|h: int| 0 <= h <= j ==> resolve(states@, #[trigger] names[h]) is Some,
        decreases st.targets.len() - j,
    {
        if find_state(states, &st.targets[j]).is_none() {
            assert(first_unknown_at(states@, names, j as int + 1));
            return Some(st.targets[j].clone());
        }
        j += 1;
    }
    None
}

/// Resolves a statement against the declared states and adds its
/// transitions. The statement is applied as a whole or not at all: where its
/// source or any of its destinations is the name of no state, nothing is
/// added.
pub fn apply_statement(states: &mut Vec<Node>, st: &Statement) -> (outcome: Result<
    Vec<usize>,
    AssemblyError,
>)
    requires
        all_wf(old(states)@),
    ensures
        all_wf(final(states)@),
        match outcome {
            Ok(found) => applied(old(states)@, final(states)@, st@, found@),
            Err(e) => {
                &&& e == AssemblyError::UnknownState
                &&& !all_resolve(old(states)@, names_in(st@))
                &&& final(states)@ == old(states)@
            },
        },
{
    let ghost before = states@;
    let ghost names = names_in(st@);
    let src = match find_state(states, &st.state) {
        None => {
            assert(resolve(before, names[0]) is None);
            return Err(AssemblyError::UnknownState);
        },
        Some(src) => src,
    };
    let mut found: Vec<usize> = Vec::new();
    let mut j: usize = 0;
    while j < st.targets.len()
        invariant
            j <= st.targets.len(),
            states@ == before,
            all_wf(before),
            names == names_in(st@),
            found@.len() == j,
            forall|h: int|
                0 <= h < j ==> resolve(before, #[trigger] st.targets@[h]@) == Some(found@[h]),
        decreases st.targets.len() - j,
    {
        match find_state(states, &st.targets[j]) {
            None => {
                assert(names[j as int + 1] == st.targets@[j as int]@);
                return Err(AssemblyError::UnknownState);
            },
            Some(t) => {
                found.push(t);
            },
        }
        j += 1;
    }
    assert(found@ =~= positions(before, st@.targets));
    let mut k: usize = 0;
    while k < found.len()
        invariant
            k <= found.len(),
            src < before.len(),
            states@.len() == before.len(),
            all_wf(before),
            all_wf(states@),
            forall|i: int| 0 <= i < before.len() && i != src ==> #[trigger] states@[i] == before[i],
            states@[src as int].name() == before[src as int].name(),
            states@[src as int].accepting() == before[src as int].accepting(),
            states@[src as int].targets(st.symbol) == before[src as int].targets(st.symbol)
                + found@.take(k as int),
            forall|c: char|
                c != st.symbol ==> #[trigger] states@[src as int].targets(c) == before[src as int].targets(
                    c,
                ),
            states@[src as int].symbols() == if k == 0 || before[src as int].symbols().contains(
                st.symbol,
            ) {
                before[src as int].symbols()
            } else {
                before[src as int].symbols().push(st.symbol)
            },
        decreases found.len() - k,
    {
        states[src].add_transition(st.symbol, found[k]);
        proof {
            let had = before[src as int].symbols();
            if !had.contains(st.symbol) {
                assert(had.push(st.symbol)[had.len() as int] == st.symbol);
            }
        }
        k += 1;
    }
    assert(found@.take(k as int) =~= found@);
    Ok(found)
}

/// The lowercase form of a text, as `str::to_lowercase` gives it.
pub uninterp spec fn lowercase(s: Seq<char>) -> Seq<char>;

/// The lowercase form of `s`.
///
/// Trusted: wraps `str::to_lowercase`, which returns the lowercase equivalent
/// of the text as a new string. The result depends on the text alone; it is
/// named, not described.
#[verifier::external_body]
fn to_lowercase(s: &str) -> (lowered: String)
    ensures
        lowered@ == lowercase(s@),
{
    s.to_lowercase()
}

/// The word that ends the entry of transitions.
pub open spec fn exit_word() -> Seq<char> {
    seq!['e', 'x', 'i', 't']
}

/// What became of a line entered as a transition.
pub enum TransitionEntry {
    /// The line ends the entry of transitions.
    Finished,
    /// The statement was read and applied.
    Applied {
        /// The statement as it was read.
        statement: Statement,
        /// For each destination name in turn, the position of the state it
        /// names.
        found: Vec<usize>,
    },
    /// The statement was turned down, and nothing was added.
    Rejected {
        /// What is wrong with it.
        error: AssemblyError,
        /// What the error is about: the symbol that is not in the alphabet,
        /// or the first name that no state has; empty for the other errors.
        subject: String,
    },
}

/// What a rejection of the line is about: for a symbol outside the alphabet
/// the symbol, for an unknown state the first name of the statement, source
/// before destinations, that no state has, and nothing for a line that is
/// no statement.
pub open spec fn rejection_subject(
    states: Seq<Node>,
    alphabet: Seq<char>,
    line: Seq<char>,
    subject: Seq<char>,
) -> bool {
    match parse(line, alphabet) {
        Err(AssemblyError::UnknownSymbol) => symbol_of(line) matches Some(c) && subject == seq![c],
        Err(_) => subject == Seq::<char>::empty(),
        Ok(st) => exists|j: int|
            first_unknown_at(states, names_in(st), j) && subject == names_in(st)[j],
    }
}

/// How a line entered as a transition changes the states `before` into
/// `after`. The word that ends the entry goes first. A statement is applied
/// as a whole; a line that is no statement, or a statement with a name that
/// no state has, is turned down and changes nothing, so that it can be
/// entered again.
pub open spec fn transition_entered(
    before: Seq<Node>,
    after: Seq<Node>,
    alphabet: Seq<char>,
    line: Seq<char>,
    ends: bool,
    entry: TransitionEntry,
) -> bool {
    if ends {
        entry is Finished && after == before
    } else {
        match parse(line, alphabet) {
            Ok(st) if all_resolve(before, names_in(st)) => {
                &&& entry matches TransitionEntry::Applied { statement, found }
                &&& statement@ == st
                &&& applied(before, after, st, found@)
            },
            outcome => {
                &&& entry matches TransitionEntry::Rejected { error, subject }
                &&& error == match outcome {
                    Err(e) => e,
                    Ok(_) => AssemblyError::UnknownState,
                }
                &&& rejection_subject(before, alphabet, line, subject@)
                &&& after == before
            },
        }
    }
}

/// Decides on a line entered as a transition, given the lowercase form of
/// the line without the whitespace around it: the word `exit` in that form
/// ends the entry, and any other line is read as a statement and applied.
pub fn decide_transition(
    states: &mut Vec<Node>,
    alphabet: &Alphabet,
    line: &str,
    lowered: &str,
) -> (entry: TransitionEntry)
    requires
        all_wf(old(states)@),
    ensures
        all_wf(final(states)@),
        transition_entered(
            old(states)@,
            final(states)@,
            alphabet@,
            line@,
            lowered@ == exit_word(),
            entry,
        ),
{
    let word = chars_of(lowered);
    if word.len() == 4 && word[0] == 'e' && word[1] == 'x' && word[2] == 'i' && word[3] == 't' {
        assert(word@ =~= exit_word());
        return TransitionEntry::Finished;
    }
    match parse_statement(line, alphabet) {
        Err(error) => {
            let mut subject = String::new();
            if let AssemblyError::UnknownSymbol = error {
                if let Some(c) = statement_symbol(line) {
                    push_char(&mut subject, c);
                }
            }
            TransitionEntry::Rejected { error, subject }
        },
        Ok(st) => match apply_statement(states, &st) {
            Ok(found) => TransitionEntry::Applied { statement: st, found },
            Err(error) => {
                let subject = match first_unknown_name(states, &st) {
                    Some(name) => name,
                    None => String::new(),
                };
                TransitionEntry::Rejected { error, subject }
            },
        },
    }
}

/// Takes one line of the entry of transitions: `exit`, in any letter case
/// and with whitespace around it, ends the entry; any other line is read as
/// a statement and applied to the states.
pub fn enter_transition(states: &mut Vec<Node>, alphabet: &Alphabet, line: &str) -> (entry:
    TransitionEntry)
    requires
        all_wf(old(states)@),
    ensures
        all_wf(final(states)@),
        transition_entered(
            old(states)@,
            final(states)@,
            alphabet@,
            line@,
            lowercase(trimmed(line@)) == exit_word(),
            entry,
        ),
{
    let entered = trim(line);
    let lowered = to_lowercase(entered.as_str());
    decide_transition(states, alphabet, line, lowered.as_str())
}

/// Whether `c` is a decimal digit.
pub open spec fn is_digit(c: char) -> bool {
    0x30 <= c as u32 <= 0x39
}

/// The value of a decimal digit; 0 for any other character.
pub open spec fn digit_value(c: char) -> nat {
    if is_digit(c) {
        (c as u32 - 0x30) as nat
    } else {
        0
    }
}

/// Whether `s` holds decimal digits only.
pub open spec fn all_digits(s: Seq<char>) -> bool {
    forall|i: int| 0 <= i < s.len() ==> is_digit(#[trigger] s[i])
}

/// The number that the digits `s` write.
pub open spec fn decimal(s: Seq<char>) -> nat
    decreases s.len(),
{
    if s.len() == 0 {
        0
    } else {
        decimal(s.drop_last()) * 10 + digit_value(s.last())
    }
}

/// `s` without a leading plus sign.
pub open spec fn unsigned(s: Seq<char>) -> Seq<char> {
    if s.len() > 0 && s[0] == '+' {
        s.drop_first()
    } else {
        s
    }
}

/// The number that a line states: after the whitespace around it and an
/// optional plus sign are taken off, one or more decimal digits.
pub open spec fn cardinality(line: Seq<char>) -> Option<nat> {
    let digits = unsigned(trimmed(line));
    if digits.len() > 0 && all_digits(digits) {
        Some(decimal(digits))
    } else {
        None
    }
}

/// The number written by the first digits of `s` is at most that of all.
proof fn lemma_decimal_grows(s: Seq<char>, i: int)
    requires
        0 <= i <= s.len(),
    ensures
        decimal(s.take(i)) <= decimal(s),
    decreases s.len(),
{
    if i == s.len() {
        assert(s.take(i) =~= s);
    } else {
        assert(s.drop_last().take(i) =~= s.take(i));
        lemma_decimal_grows(s.drop_last(), i);
    }
}

/// Whether another entry is wanted: fewer have been accepted than were
/// announced. Entries that were turned down do not count.
pub fn entry_wanted(count: usize, size: usize) -> (more: bool)
    ensures
        more == (count < size),
{
    count < size
}

/// Reads a cardinality: an unsigned decimal number that fits the machine.
pub fn parse_cardinality(line: &str) -> (read: Result<usize, AssemblyError>)
    ensures
        read == match cardinality(line@) {
            Some(n) => if n <= usize::MAX {
                Ok::<usize, AssemblyError>(n as usize)
            } else {
                Err::<usize, AssemblyError>(AssemblyError::InvalidCardinality)
            },
            None => Err::<usize, AssemblyError>(AssemblyError::InvalidCardinality),
        },
{
    let s = trimmed_chars(line);
    let from: usize = if s.len() > 0 && s[0] == '+' {
        1
    } else {
        0
    };
    let ghost digits = unsigned(s@);
    if from == s.len() {
        return Err(AssemblyError::InvalidCardinality);
    }
    let mut value: usize = 0;
    let mut i: usize = from;
    while i < s.len()
        invariant
            from <= i <= s.len(),
            from < s.len(),
            s@ == trimmed(line@),
            digits == unsigned(s@),
            digits == s@.subrange(from as int, s@.len() as int),
            all_digits(digits.take(i - from)),
            value == decimal(digits.take(i - from)),
        decreases s.len() - i,
    {
        let c = s[i];
        let code: u32 = c as u32;
        assert(digits.take(i - from + 1).drop_last() =~= digits.take(i - from));
        if !(0x30 <= code && code <= 0x39) {
            assert(!is_digit(digits[i - from]));
            return Err(AssemblyError::InvalidCardinality);
        }
        let digit: usize = (code - 0x30) as usize;
        let next = match value.checked_mul(10) {
            None => None,
            Some(tens) => tens.checked_add(digit),
        };
        match next {
            None => {
                proof {
                    lemma_decimal_grows(digits, i - from + 1);
                }
                return Err(AssemblyError::InvalidCardinality);
            },
            Some(v) => {
                value = v;
            },
        }
        i += 1;
    }
    assert(digits.take(i - from) =~= digits);
    Ok(value)
}

/// Takes one line as a symbol for the alphabet: the first character of the
/// line after leading whitespace. An empty line and a symbol that is already
/// present are turned down and leave the alphabet, and so its size, as it was.
pub fn enter_symbol(alphabet: &mut Alphabet, line: &str) -> (entered: Result<char, AssemblyError>)
    requires
        old(alphabet).wf(),
    ensures
        final(alphabet).wf(),
        match entered {
            Ok(c) => {
                &&& trimmed(line@).len() > 0
                &&& c == trimmed(line@)[0]
                &&& !old(alphabet)@.contains(c)
                &&& final(alphabet)@ == old(alphabet)@.push(c)
            },
            Err(e) => {
                &&& final(alphabet)@ == old(alphabet)@
                &&& e == if trimmed(line@).len() == 0 {
                    AssemblyError::EmptyEntry
                } else {
                    AssemblyError::DuplicateSymbol
                }
                &&& trimmed(line@).len() > 0 ==> old(alphabet)@.contains(trimmed(line@)[0])
            },
        },
{
    let s = trimmed_chars(line);
    if s.len() == 0 {
        return Err(AssemblyError::EmptyEntry);
    }
    let c = s[0];
    if alphabet.insert(c) {
        Ok(c)
    } else {
        Err(AssemblyError::DuplicateSymbol)
    }
}

/// Takes one line as the name of a new state: the line without the
/// whitespace around it, which may be empty. A name that a declared state
/// already has is turned down.
pub fn enter_state_name(states: &Vec<Node>, line: &str) -> (entered: Result<String, AssemblyError>)
    ensures
        match entered {
            Ok(name) => name@ == trimmed(line@) && resolve(states@, trimmed(line@)) is None,
            Err(e) => {
                &&& e == AssemblyError::DuplicateState
                &&& resolve(states@, trimmed(line@)) is Some
            },
        },
{
    let name = trim(line);
    match find_state(states, &name) {
        Some(_) => Err(AssemblyError::DuplicateState),
        None => Ok(name),
    }
}

/// Reads the answer to whether a state accepts: `s` for yes, `n` for no,
/// with whitespace around it ignored. Nothing else is an answer.
pub fn parse_accept_flag(line: &str) -> (read: Result<bool, AssemblyError>)
    ensures
        read == if trimmed(line@) == seq!['s'] {
            Ok::<bool, AssemblyError>(true)
        } else if trimmed(line@) == seq!['n'] {
            Ok::<bool, AssemblyError>(false)
        } else {
            Err::<bool, AssemblyError>(AssemblyError::InvalidAcceptFlag)
        },
{
    let s = trimmed_chars(line);
    if s.len() == 1 && s[0] == 's' {
        assert(s@ =~= seq!['s']);
        Ok(true)
    } else if s.len() == 1 && s[0] == 'n' {
        assert(s@ =~= seq!['n']);
        Ok(false)
    } else {
        Err(AssemblyError::InvalidAcceptFlag)
    }
}

/// Declares a state: it comes after the states declared so far, without
/// transitions.
pub fn declare_state(states: &mut Vec<Node>, name: &str, is_accept: bool)
    requires
        all_wf(old(states)@),
    ensures
        all_wf(final(states)@),
        final(states)@.len() == old(states)@.len() + 1,
        final(states)@.drop_last() == old(states)@,
        final(states)@.last().name() == name@,
        final(states)@.last().accepting() == is_accept,
        final(states)@.last().symbols() == Seq::<char>::empty(),
        forall|c: char| final(states)@.last().targets(c) == Seq::<usize>::empty(),
{
    states.push(Node::new(name, is_accept));
}

/// Designates the start state by its name, the line without the whitespace
/// around it. Without states there is nothing to name: the placeholder
/// stands in, whatever the line holds.
pub fn define_start_state(states: &Vec<Node>, line: &str) -> (designated: Result<
    Option<usize>,
    AssemblyError,
>)
    ensures
        match designated {
            Ok(start) => {
                &&& start_designated(states@, start)
                &&& states@.len() > 0 ==> start == resolve(states@, trimmed(line@))
            },
            Err(e) => {
                &&& e == AssemblyError::UnknownState
                &&& states@.len() > 0
                &&& resolve(states@, trimmed(line@)) is None
            },
        },
{
    if states.len() == 0 {
        return Ok(None);
    }
    let name = trim(line);
    match find_state(states, &name) {
        Some(i) => Ok(Some(i)),
        None => Err(AssemblyError::UnknownState),
    }
}

/// Binds the single destination of the state at `from` on `symbol` to the
/// state named by the line, whitespace around the name ignored. An earlier
/// binding of the pair is given up: the last one stands. Where the name, or
/// the position `from`, is that of no state, nothing changes.
pub fn bind_transition(states: &mut Vec<Node>, from: usize, symbol: char, line: &str) -> (bound:
    Result<usize, AssemblyError>)
    requires
        all_wf(old(states)@),
    ensures
        all_wf(final(states)@),
        match bound {
            Ok(t) => {
                &&& from < old(states)@.len()
                &&& resolve(old(states)@, trimmed(line@)) == Some(t)
                &&& final(states)@.len() == old(states)@.len()
                &&& forall|i: int|
                    0 <= i < old(states)@.len() && i != from ==> #[trigger] final(states)@[i] == old(
                        states,
                    )@[i]
                &&& final(states)@[from as int].name() == old(states)@[from as int].name()
                &&& final(states)@[from as int].accepting() == old(states)@[from as int].accepting()
                &&& final(states)@[from as int].targets(symbol) == seq![t]
                &&& final(states)@[from as int].symbols() == if old(states)@[from as int].symbols().contains(
                    symbol,
                ) {
                    old(states)@[from as int].symbols()
                } else {
                    old(states)@[from as int].symbols().push(symbol)
                }
                &&& forall|c: char|
                    c != symbol ==> #[trigger] final(states)@[from as int].targets(c) == old(
                        states,
                    )@[from as int].targets(c)
            },
            Err(e) => {
                &&& e == AssemblyError::UnknownState
                &&& final(states)@ == old(states)@
                &&& from >= old(states)@.len() || resolve(old(states)@, trimmed(line@)) is None
            },
        },
{
    if from >= states.len() {
        return Err(AssemblyError::UnknownState);
    }
    let name = trim(line);
    match find_state(states, &name) {
        None => Err(AssemblyError::UnknownState),
        Some(t) => {
            states[from].set_transition(symbol, t);
            Ok(t)
        },
    }
}

/// The states are fit to form an automaton over `alphabet`: they are well
/// formed, no two have the same name, and every transition is on a symbol of
/// the alphabet and leads to one of them.
pub open spec fn sound(states: Seq<Node>, alphabet: Seq<char>) -> bool {
    &&& all_wf(states)
    &&& names_distinct(states)
    &&& targets_in_range(states)
    &&& symbols_declared(states, alphabet)
}

/// The position that a name resolves to is the position of a state.
proof fn lemma_resolve_in_range(states: Seq<Node>, name: Seq<char>)
    requires
        resolve(states, name) is Some,
    ensures
        resolve(states, name)->0 < states.len(),
{
}

/// Declaring a state under a new name keeps the states fit to form an
/// automaton.
pub proof fn lemma_declared_sound(before: Seq<Node>, after: Seq<Node>, alphabet: Seq<char>)
    requires
        sound(before, alphabet),
        after.len() == before.len() + 1,
        after.drop_last() == before,
        after.last().wf(),
        forall|c: char| after.last().targets(c) == Seq::<usize>::empty(),
        resolve(before, after.last().name()) is None,
    ensures
        sound(after, alphabet),
{
    let n = before.len() as int;
    assert forall|i: int, j: int| 0 <= i < j < after.len() implies (#[trigger] after[i]).name() != (
    #[trigger] after[j]).name() by {
        if j == n {
            if before[i].name() == after[n].name() {
                lemma_first_named(before, after[n].name(), i);
            }
        } else {
            assert(before[i].name() != before[j].name());
        }
    }
    assert forall|i: int| 0 <= i < after.len() implies node_in_range(
        #[trigger] after[i],
        after.len(),
    ) by {
        if i < n {
            assert(node_in_range(before[i], before.len()));
        }
    }
    assert forall|i: int| 0 <= i < after.len() implies node_over(#[trigger] after[i], alphabet) by {
        if i < n {
            assert(node_over(before[i], alphabet));
        }
    }
    assert forall|i: int| 0 <= i < after.len() implies (#[trigger] after[i]).wf() by {
        if i < n {
            assert(before[i].wf());
        }
    }
}

/// A name resolves exactly when some state has it.
pub proof fn lemma_resolves_when_named(states: Seq<Node>, name: Seq<char>)
    ensures
        resolve(states, name) is Some <==> exists|i: int|
            0 <= i < states.len() && (#[trigger] states[i]).name() == name,
{
    if exists|i: int| 0 <= i < states.len() && (#[trigger] states[i]).name() == name {
        let i = choose|i: int| 0 <= i < states.len() && (#[trigger] states[i]).name() == name;
        lemma_first_named(states, name, i);
    }
}

/// A name that some state has is resolved.
proof fn lemma_first_named(states: Seq<Node>, name: Seq<char>, i: int)
    requires
        0 <= i < states.len(),
        states[i].name() == name,
    ensures
        resolve(states, name) is Some,
    decreases i,
{
    if exists|j: int| 0 <= j < i && (#[trigger] states[j]).name() == name {
        let j = choose|j: int| 0 <= j < i && (#[trigger] states[j]).name() == name;
        lemma_first_named(states, name, j);
    } else {
        assert(named_at(states, name, i));
    }
}

/// Applying a statement on a symbol of the alphabet keeps the states fit to
/// form an automaton: every transition still leads to a declared state.
pub proof fn lemma_applied_sound(
    before: Seq<Node>,
    after: Seq<Node>,
    st: StatementView,
    found: Seq<usize>,
    alphabet: Seq<char>,
)
    requires
        sound(before, alphabet),
        all_wf(after),
        applied(before, after, st, found),
        alphabet.contains(st.symbol),
    ensures
        sound(after, alphabet),
{
    assert forall|k: int| 0 <= k < found.len() implies #[trigger] found[k] < before.len() by {
        assert(names_in(st)[k + 1] == st.targets[k]);
    }
}

/// A line entered as a transition keeps the states fit to form an automaton,
/// whatever became of it.
pub proof fn lemma_entered_sound(
    before: Seq<Node>,
    after: Seq<Node>,
    alphabet: Seq<char>,
    line: Seq<char>,
    ends: bool,
    entry: TransitionEntry,
)
    requires
        sound(before, alphabet),
        all_wf(after),
        transition_entered(before, after, alphabet, line, ends, entry),
    ensures
        sound(after, alphabet),
{
    if !ends {
        if let Ok(st) = parse(line, alphabet) {
            if all_resolve(before, names_in(st)) {
                lemma_applied_sound(before, after, st, entry->found@, alphabet);
            }
        }
    }
}

/// States that are fit to form an automaton, with a start state designated
/// among them, have no defect: the automaton can be constructed.
pub proof fn lemma_sound_has_no_defect(states: Seq<Node>, alphabet: Seq<char>, start: Option<usize>)
    requires
        sound(states, alphabet),
        start_designated(states, start),
    ensures
        defect(states, alphabet, start) is None,
{
}

} // verus!
