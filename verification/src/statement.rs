//! The grammar of a transition statement, `(state, symbol)->{dest1, dest2}`:
//! a source state and a symbol in round brackets, an arrow, and the names of
//! the destinations in curly brackets. Whitespace around each part is
//! ignored.

use vstd::prelude::*;
use crate::alphabet::Alphabet;
use crate::error::AssemblyError;
use crate::text::{
    split_on, split_windows, string_of, trim_window, trimmed, trimmed_chars, window_contents,
};

verus! {

/// A transition statement as it was read: names, not yet resolved to states.
pub struct Statement {
    /// The name of the source state.
    pub state: String,
    /// The symbol of the transition.
    pub symbol: char,
    /// The names of the destinations, in the order written.
    pub targets: Vec<String>,
}

/// What a statement says.
pub struct StatementView {
    pub state: Seq<char>,
    pub symbol: char,
    pub targets: Seq<Seq<char>>,
}

/// The contents of a list of strings.
pub open spec fn contents(names: Seq<String>) -> Seq<Seq<char>> {
    Seq::new(names.len(), |j: int| names[j]@)
}

impl View for Statement {
    type V = StatementView;

    open spec fn view(&self) -> StatementView {
        StatementView {
            state: self.state@,
            symbol: self.symbol,
            targets: contents(self.targets@),
        }
    }
}

/// Whether an arrow `->` begins at position `i` of `s`.
pub open spec fn arrow_at(s: Seq<char>, i: int) -> bool {
    0 <= i && i + 1 < s.len() && s[i] == '-' && s[i + 1] == '>'
}

/// Whether the arrow at `a` is the only one in `s`.
pub open spec fn only_arrow(s: Seq<char>, a: int) -> bool {
    arrow_at(s, a) && forall|i: int| #[trigger] arrow_at(s, i) ==> i == a
}

/// Whether `s` begins with `open` and ends with `close`, two distinct places.
pub open spec fn enclosed(s: Seq<char>, open: char, close: char) -> bool {
    s.len() >= 2 && s[0] == open && s.last() == close
}

/// What stands between the first and the last character of `s`.
pub open spec fn inside(s: Seq<char>) -> Seq<char> {
    s.subrange(1, s.len() - 1)
}

/// Each piece without the whitespace around it.
pub open spec fn trim_each(pieces: Seq<Seq<char>>) -> Seq<Seq<char>> {
    Seq::new(pieces.len(), |j: int| trimmed(pieces[j]))
}

/// What the left side says: the name of the source state and the symbol, or
/// the first thing wrong with it.
pub open spec fn parse_source(left: Seq<char>) -> Result<(Seq<char>, char), AssemblyError> {
    if !enclosed(left, '(', ')') {
        Err(AssemblyError::MalformedSource)
    } else {
        let pair = split_on(inside(left), ',');
        if pair.len() != 2 {
            Err(AssemblyError::MalformedPair)
        } else if trimmed(pair[1]).len() != 1 {
            Err(AssemblyError::InvalidSymbol)
        } else {
            Ok((trimmed(pair[0]), trimmed(pair[1])[0]))
        }
    }
}

/// What the two sides of the arrow say, or the first thing wrong with them.
/// The symbol is held against the alphabet before the right side is looked at.
pub open spec fn parse_sides(left: Seq<char>, right: Seq<char>, alphabet: Seq<char>) -> Result<
    StatementView,
    AssemblyError,
> {
    match parse_source(left) {
        Err(e) => Err(e),
        Ok((state, symbol)) => if !alphabet.contains(symbol) {
            Err(AssemblyError::UnknownSymbol)
        } else if !enclosed(right, '{', '}') {
            Err(AssemblyError::MalformedTargets)
        } else {
            Ok(StatementView { state, symbol, targets: trim_each(split_on(inside(right), ',')) })
        },
    }
}

/// The left side of the statement that the line holds, where it holds
/// exactly one arrow.
pub open spec fn left_side(line: Seq<char>) -> Option<Seq<char>> {
    let s = trimmed(line);
    if exists|a: int| only_arrow(s, a) {
        Some(trimmed(s.subrange(0, choose|a: int| only_arrow(s, a))))
    } else {
        None
    }
}

/// The symbol that the line names, where its left side is well formed.
pub open spec fn symbol_of(line: Seq<char>) -> Option<char> {
    match left_side(line) {
        Some(left) => match parse_source(left) {
            Ok((_, symbol)) => Some(symbol),
            Err(_) => None,
        },
        None => None,
    }
}

/// What the line says as a transition statement over `alphabet`, or the
/// first thing wrong with it.
pub open spec fn parse(line: Seq<char>, alphabet: Seq<char>) -> Result<
    StatementView,
    AssemblyError,
> {
    let s = trimmed(line);
    if exists|a: int| only_arrow(s, a) {
        let a = choose|a: int| only_arrow(s, a);
        parse_sides(
            trimmed(s.subrange(0, a)),
            trimmed(s.subrange(a + 2, s.len() as int)),
            alphabet,
        )
    } else {
        Err(AssemblyError::MalformedStatement)
    }
}

/// The position of the arrow of `s`, where `s` holds exactly one.
pub fn find_only_arrow(s: &Vec<char>) -> (found: Option<usize>)
    ensures
        match found {
            Some(a) => only_arrow(s@, a as int),
            None => !exists|a: int| only_arrow(s@, a),
        },
{
    let mut found: Option<usize> = None;
    let mut i: usize = 0;
    while s.len() - i > 1
        invariant
            i <= s.len(),
            forall|j: int| 0 <= j < i && #[trigger] arrow_at(s@, j) ==> found == Some(j as usize),
            found matches Some(a) ==> a < i && arrow_at(s@, a as int),
        decreases s.len() - i,
    {
        if s[i] == '-' && s[i + 1] == '>' {
            match found {
                Some(a) => {
                    assert(arrow_at(s@, a as int) && arrow_at(s@, i as int));
                    return None;
                },
                None => {
                    found = Some(i);
                },
            }
        }
        i += 1;
    }
    found
}

/// The trimmed contents of the windows `ws` of `v`, as strings.
fn trimmed_pieces(v: &Vec<char>, ws: &Vec<(usize, usize)>) -> (names: Vec<String>)
    requires
        forall|j: int| 0 <= j < ws@.len() ==> (#[trigger] ws@[j]).0 <= ws@[j].1 <= v.len(),
    ensures
        contents(names@) == trim_each(window_contents(v@, ws@)),
{
    let mut names: Vec<String> = Vec::new();
    let mut j: usize = 0;
    while j < ws.len()
        invariant
            j <= ws.len(),
            forall|h: int| 0 <= h < ws@.len() ==> (#[trigger] ws@[h]).0 <= ws@[h].1 <= v.len(),
            names@.len() == j,
            forall|h: int|
                0 <= h < j ==> (#[trigger] names@[h])@ == trimmed(window_contents(v@, ws@)[h]),
        decreases ws.len() - j,
    {
        let w = trim_window(v, ws[j].0, ws[j].1);
        names.push(string_of(v, w.0, w.1));
        j += 1;
    }
    names
}

/// Reads the left side of a statement, given as a window of `s`: the window
/// of the source name, and the symbol.
fn read_source(s: &Vec<char>, left: (usize, usize)) -> (read: Result<
    ((usize, usize), char),
    AssemblyError,
>)
    requires
        left.0 <= left.1 <= s.len(),
    ensures
        match read {
            Ok((name, symbol)) => {
                &&& name.0 <= name.1 <= s.len()
                &&& parse_source(s@.subrange(left.0 as int, left.1 as int)) == Ok::<
                    (Seq<char>, char),
                    AssemblyError,
                >((s@.subrange(name.0 as int, name.1 as int), symbol))
            },
            Err(e) => parse_source(s@.subrange(left.0 as int, left.1 as int)) == Err::<
                (Seq<char>, char),
                AssemblyError,
            >(e),
        },
{
    let ghost lhs = s@.subrange(left.0 as int, left.1 as int);
    if !(left.1 - left.0 >= 2 && s[left.0] == '(' && s[left.1 - 1] == ')') {
        return Err(AssemblyError::MalformedSource);
    }
    assert(inside(lhs) =~= s@.subrange(left.0 as int + 1, left.1 as int - 1));
    let pair = split_windows(s, left.0 + 1, left.1 - 1, ',');
    if pair.len() != 2 {
        return Err(AssemblyError::MalformedPair);
    }
    let name = trim_window(s, pair[0].0, pair[0].1);
    let sym = trim_window(s, pair[1].0, pair[1].1);
    if sym.1 - sym.0 != 1 {
        return Err(AssemblyError::InvalidSymbol);
    }
    Ok((name, s[sym.0]))
}

/// Reads the two sides of a statement, given as windows of `s`.
fn parse_windows(
    s: &Vec<char>,
    left: (usize, usize),
    right: (usize, usize),
    alphabet: &Alphabet,
) -> (read: Result<Statement, AssemblyError>)
    requires
        left.0 <= left.1 <= s.len(),
        right.0 <= right.1 <= s.len(),
    ensures
        match read {
            Ok(st) => parse_sides(
                s@.subrange(left.0 as int, left.1 as int),
                s@.subrange(right.0 as int, right.1 as int),
                alphabet@,
            ) == Ok::<StatementView, AssemblyError>(st@),
            Err(e) => parse_sides(
                s@.subrange(left.0 as int, left.1 as int),
                s@.subrange(right.0 as int, right.1 as int),
                alphabet@,
            ) == Err::<StatementView, AssemblyError>(e),
        },
{
    let ghost rhs = s@.subrange(right.0 as int, right.1 as int);
    let (name, symbol) = match read_source(s, left) {
        Err(e) => {
            return Err(e);
        },
        Ok(source) => source,
    };
    if !alphabet.contains(symbol) {
        return Err(AssemblyError::UnknownSymbol);
    }
    if !(right.1 - right.0 >= 2 && s[right.0] == '{' && s[right.1 - 1] == '}') {
        return Err(AssemblyError::MalformedTargets);
    }
    assert(inside(rhs) =~= s@.subrange(right.0 as int + 1, right.1 as int - 1));
    let ws = split_windows(s, right.0 + 1, right.1 - 1, ',');
    let targets = trimmed_pieces(s, &ws);
    let state = string_of(s, name.0, name.1);
    Ok(Statement { state, symbol, targets })
}

/// The symbol that the line names as a transition statement, where its left
/// side is well formed; whether the symbol is in any alphabet is not asked.
pub fn statement_symbol(line: &str) -> (symbol: Option<char>)
    ensures
        symbol == symbol_of(line@),
{
    let s = trimmed_chars(line);
    match find_only_arrow(&s) {
        None => None,
        Some(a) => {
            let left = trim_window(&s, 0, a);
            match read_source(&s, left) {
                Ok((_, symbol)) => Some(symbol),
                Err(_) => None,
            }
        },
    }
}

/// Reads a transition statement over `alphabet`: exactly one arrow; on its
/// left a state name and a symbol, one character of the alphabet, separated
/// by one comma and enclosed in round brackets; on its right the destination
/// names, separated by commas and enclosed in curly brackets. There is always
/// at least one destination name: `{}` holds the empty name, as `{q1,}` holds
/// `q1` and the empty name. The empty name is a name like any other.
pub fn parse_statement(line: &str, alphabet: &Alphabet) -> (read: Result<Statement, AssemblyError>)
    ensures
        match read {
            Ok(st) => parse(line@, alphabet@) == Ok::<StatementView, AssemblyError>(st@),
            Err(e) => parse(line@, alphabet@) == Err::<StatementView, AssemblyError>(e),
        },
{
    let s = trimmed_chars(line);
    match find_only_arrow(&s) {
        None => Err(AssemblyError::MalformedStatement),
        Some(a) => {
            let left = trim_window(&s, 0, a);
            let right = trim_window(&s, a + 2, s.len());
            parse_windows(&s, left, right, alphabet)
        },
    }
}

} // verus!
