//! Character-level helpers shared by the line grammars: whitespace, trimming,
//! and conversion between strings and character vectors.

use vstd::prelude::*;

verus! {

/// The characters with the Unicode property `White_Space`.
pub open spec fn is_space(c: char) -> bool {
    let n = c as u32;
    ||| 0x09 <= n <= 0x0d
    ||| n == 0x20
    ||| n == 0x85
    ||| n == 0xa0
    ||| n == 0x1680
    ||| 0x2000 <= n <= 0x200a
    ||| n == 0x2028
    ||| n == 0x2029
    ||| n == 0x202f
    ||| n == 0x205f
    ||| n == 0x3000
}

/// `s` without its leading whitespace.
pub open spec fn trim_start(s: Seq<char>) -> Seq<char>
    decreases s.len(),
{
    if s.len() > 0 && is_space(s[0]) {
        trim_start(s.drop_first())
    } else {
        s
    }
}

/// `s` without its trailing whitespace.
pub open spec fn trim_end(s: Seq<char>) -> Seq<char>
    decreases s.len(),
{
    if s.len() > 0 && is_space(s.last()) {
        trim_end(s.drop_last())
    } else {
        s
    }
}

/// `s` without leading and trailing whitespace.
pub open spec fn trimmed(s: Seq<char>) -> Seq<char> {
    trim_end(trim_start(s))
}

/// Whether `c` is whitespace.
pub fn is_whitespace(c: char) -> (b: bool)
    ensures
        b == is_space(c),
{
    let n: u32 = c as u32;
    (0x09 <= n && n <= 0x0d) || n == 0x20 || n == 0x85 || n == 0xa0 || n == 0x1680 || (0x2000 <= n
        && n <= 0x200a) || n == 0x2028 || n == 0x2029 || n == 0x202f || n == 0x205f || n == 0x3000
}

/// The characters of `s`, in order.
pub fn chars_of(s: &str) -> (v: Vec<char>)
    ensures
        v@ == s@,
{
    let mut v: Vec<char> = Vec::new();
    for c in it: s.chars()
        invariant
            v@ == s@.take(it.index() as int),
            it.seq() == s@,
    {
        v.push(c);
    }
    v
}

/// Narrows the window `lo..hi` of `v` to its trimmed content.
pub fn trim_window(v: &Vec<char>, lo: usize, hi: usize) -> (w: (usize, usize))
    requires
        lo <= hi <= v.len(),
    ensures
        lo <= w.0 <= w.1 <= hi,
        v@.subrange(w.0 as int, w.1 as int) == trimmed(v@.subrange(lo as int, hi as int)),
{
    let mut a: usize = lo;
    while a < hi && is_whitespace(v[a])
        invariant
            lo <= a <= hi <= v.len(),
            trim_start(v@.subrange(a as int, hi as int)) == trim_start(
                v@.subrange(lo as int, hi as int),
            ),
        decreases hi - a,
    {
        assert(v@.subrange(a as int, hi as int).drop_first() =~= v@.subrange(
            a as int + 1,
            hi as int,
        ));
        a += 1;
    }
    let mut b: usize = hi;
    while a < b && is_whitespace(v[b - 1])
        invariant
            a <= b <= hi <= v.len(),
            trim_end(v@.subrange(a as int, b as int)) == trim_end(v@.subrange(a as int, hi as int)),
        decreases b - a,
    {
        assert(v@.subrange(a as int, b as int).drop_last() =~= v@.subrange(
            a as int,
            b as int - 1,
        ));
        b -= 1;
    }
    (a, b)
}

/// The pieces of `s` between occurrences of `sep`: one more piece than there
/// are separators, the empty pieces included.
pub open spec fn split_on(s: Seq<char>, sep: char) -> Seq<Seq<char>>
    decreases s.len(),
{
    if s.len() == 0 {
        seq![Seq::<char>::empty()]
    } else {
        let front = split_on(s.drop_last(), sep);
        if s.last() == sep {
            front.push(Seq::<char>::empty())
        } else {
            front.update(front.len() - 1, front.last().push(s.last()))
        }
    }
}

/// The contents of the windows `ws` of `s`.
pub open spec fn window_contents(s: Seq<char>, ws: Seq<(usize, usize)>) -> Seq<Seq<char>> {
    Seq::new(ws.len(), |j: int| s.subrange(ws[j].0 as int, ws[j].1 as int))
}

/// Splits the window `lo..hi` of `v` at each `sep` into windows.
pub fn split_windows(v: &Vec<char>, lo: usize, hi: usize, sep: char) -> (ws: Vec<(usize, usize)>)
    requires
        lo <= hi <= v.len(),
    ensures
        ws@.len() >= 1,
        forall|j: int| 0 <= j < ws@.len() ==> lo <= (#[trigger] ws@[j]).0 <= ws@[j].1 <= hi,
        window_contents(v@, ws@) == split_on(v@.subrange(lo as int, hi as int), sep),
{
    let mut ws: Vec<(usize, usize)> = Vec::new();
    let mut start: usize = lo;
    let mut i: usize = lo;
    assert(v@.subrange(lo as int, lo as int) =~= Seq::<char>::empty());
    while i < hi
        invariant
            lo <= start <= i <= hi <= v.len(),
            forall|j: int| 0 <= j < ws@.len() ==> lo <= (#[trigger] ws@[j]).0 <= ws@[j].1 <= hi,
            window_contents(v@, ws@).push(v@.subrange(start as int, i as int)) == split_on(
                v@.subrange(lo as int, i as int),
                sep,
            ),
        decreases hi - i,
    {
        assert(v@.subrange(lo as int, i as int + 1).drop_last() =~= v@.subrange(
            lo as int,
            i as int,
        ));
        if v[i] == sep {
            ws.push((start, i));
            start = i + 1;
            assert(v@.subrange(start as int, i as int + 1) =~= Seq::<char>::empty());
        } else {
            assert(v@.subrange(start as int, i as int + 1) =~= v@.subrange(
                start as int,
                i as int,
            ).push(v@[i as int]));
        }
        i += 1;
    }
    ws.push((start, hi));
    ws
}

/// The characters in the window `lo..hi` of `v`.
pub fn window_of(v: &Vec<char>, lo: usize, hi: usize) -> (w: Vec<char>)
    requires
        lo <= hi <= v.len(),
    ensures
        w@ == v@.subrange(lo as int, hi as int),
{
    let mut w: Vec<char> = Vec::new();
    let mut i: usize = lo;
    while i < hi
        invariant
            lo <= i <= hi <= v.len(),
            w@ == v@.subrange(lo as int, i as int),
        decreases hi - i,
    {
        w.push(v[i]);
        i += 1;
    }
    w
}

/// The characters of the line without leading and trailing whitespace.
pub fn trimmed_chars(line: &str) -> (w: Vec<char>)
    ensures
        w@ == trimmed(line@),
{
    let v = chars_of(line);
    let w = trim_window(&v, 0, v.len());
    assert(v@.subrange(0, v.len() as int) =~= v@);
    window_of(&v, w.0, w.1)
}

/// Appends one character to a string.
///
/// Trusted: wraps `String::push`, which appends the given character to the
/// end of the string and changes nothing else.
#[verifier::external_body]
pub(crate) fn push_char(s: &mut String, c: char)
    ensures
        final(s)@ == old(s)@.push(c),
{
    s.push(c)
}

/// The string made of the characters in the window `lo..hi` of `v`.
pub fn string_of(v: &Vec<char>, lo: usize, hi: usize) -> (s: String)
    requires
        lo <= hi <= v.len(),
    ensures
        s@ == v@.subrange(lo as int, hi as int),
{
    let mut s = String::new();
    let mut i: usize = lo;
    while i < hi
        invariant
            lo <= i <= hi <= v.len(),
            s@ == v@.subrange(lo as int, i as int),
        decreases hi - i,
    {
        push_char(&mut s, v[i]);
        i += 1;
    }
    s
}

/// The line without leading and trailing whitespace.
pub fn trim(line: &str) -> (s: String)
    ensures
        s@ == trimmed(line@),
{
    let v = chars_of(line);
    let w = trim_window(&v, 0, v.len());
    assert(v@.subrange(0, v.len() as int) =~= v@);
    string_of(&v, w.0, w.1)
}

} // verus!
