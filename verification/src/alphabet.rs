//! The alphabet of an automaton: a finite set of symbols that keeps the order
//! in which the symbols were declared.

use vstd::prelude::*;

verus! {

/// A finite set of input symbols, enumerated in declaration order.
pub struct Alphabet {
    symbols: Vec<char>,
}

/// No element of `s` occurs at two positions.
pub open spec fn distinct<T>(s: Seq<T>) -> bool {
    forall|i: int, j: int| 0 <= i < j < s.len() ==> s[i] != s[j]
}

impl View for Alphabet {
    type V = Seq<char>;

    /// The symbols in declaration order.
    closed spec fn view(&self) -> Seq<char> {
        self.symbols@
    }
}

impl Alphabet {
    /// Every symbol occurs once.
    pub open spec fn wf(&self) -> bool {
        distinct(self@)
    }

    /// The empty alphabet.
    pub fn new() -> (a: Alphabet)
        ensures
            a.wf(),
            a@ == Seq::<char>::empty(),
    {
        Alphabet { symbols: Vec::new() }
    }

    /// Whether `c` is a symbol of the alphabet.
    pub fn contains(&self, c: char) -> (found: bool)
        ensures
            found == self@.contains(c),
    {
        let mut i: usize = 0;
        while i < self.symbols.len()
            invariant
                i <= self.symbols.len(),
                forall|k: int| 0 <= k < i ==> self.symbols@[k] != c,
            decreases self.symbols.len() - i,
        {
            if self.symbols[i] == c {
                return true;
            }
            i += 1;
        }
        false
    }

    /// Adds `c` unless it is already a symbol. Says whether it was added; a
    /// symbol that is turned down leaves the alphabet as it was.
    pub fn insert(&mut self, c: char) -> (added: bool)
        requires
            old(self).wf(),
        ensures
            final(self).wf(),
            added == !old(self)@.contains(c),
            added ==> final(self)@ == old(self)@.push(c),
            !added ==> final(self)@ == old(self)@,
    {
        if self.contains(c) {
            false
        } else {
            self.symbols.push(c);
            true
        }
    }

    /// The symbol declared at position `i`.
    pub fn get(&self, i: usize) -> (c: char)
        requires
            i < self@.len(),
        ensures
            c == self@[i as int],
    {
        self.symbols[i]
    }

    /// The number of symbols.
    pub fn len(&self) -> (n: usize)
        ensures
            n == self@.len(),
    {
        self.symbols.len()
    }
}

} // verus!
