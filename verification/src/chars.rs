//! Characters and character sequences: whitespace and searching.
//!
//! Text is modelled as `Seq<char>`; every position is a character index.

use vstd::prelude::*;

verus! {

/// The characters with the Unicode property `White_Space`.
pub open spec fn is_whitespace(c: char) -> bool {
    ||| '\u{9}' <= c <= '\u{d}'
    ||| c == ' '
    ||| c == '\u{85}'
    ||| c == '\u{a0}'
    ||| c == '\u{1680}'
    ||| '\u{2000}' <= c <= '\u{200a}'
    ||| c == '\u{2028}'
    ||| c == '\u{2029}'
    ||| c == '\u{202f}'
    ||| c == '\u{205f}'
    ||| c == '\u{3000}'
}

/// Tells whether `c` is a whitespace character.
pub fn whitespace(c: char) -> (r: bool)
    ensures
        r == is_whitespace(c),
{
    if c <= '\u{d}' {
        '\u{9}' <= c
    } else if c <= '\u{1fff}' {
        c == ' ' || c == '\u{85}' || c == '\u{a0}' || c == '\u{1680}'
    } else if c <= '\u{200a}' {
        true
    } else {
        c == '\u{2028}' || c == '\u{2029}' || c == '\u{202f}' || c == '\u{205f}' || c == '\u{3000}'
    }
}

/// Collects the characters of `s`.
pub fn to_chars(s: &str) -> (cs: Vec<char>)
    ensures
        cs@ == s@,
{
    let mut cs: Vec<char> = Vec::new();
    for c in it: s.chars()
        invariant
            it.seq() == s@,
            cs@ == it.seq().take(it.index()),
    {
        cs.push(c);
    }
    cs
}

/// The characters `from..to` of `s`. With `ascii` set, `s` is known to hold
/// ASCII only, and is sliced without being decoded.
pub(crate) fn substring<'a>(s: &'a str, ascii: bool, from: usize, to: usize) -> (r: &'a str)
    requires
        from <= to <= s@.len(),
        ascii ==> s.is_ascii(),
    ensures
        r@ == s@.subrange(from as int, to as int),
{
    if ascii {
        s.substring_ascii(from, to)
    } else {
        s.substring_char(from, to)
    }
}

/// The index of the first occurrence of `c` in `s` at or after `from`.
pub open spec fn find_from(s: Seq<char>, c: char, from: int) -> Option<int>
    recommends
        0 <= from,
    decreases s.len() - from,
{
    if from < 0 || from >= s.len() {
        None
    } else if s[from] == c {
        Some(from)
    } else {
        find_from(s, c, from + 1)
    }
}

/// `find_from` returns the least index at or after `from` that holds `c`,
/// and `None` exactly when there is no such index.
pub proof fn lemma_find_from(s: Seq<char>, c: char, from: int)
    requires
        0 <= from,
    ensures
        match find_from(s, c, from) {
            Some(i) => from <= i < s.len() && s[i] == c && forall|j: int|
                from <= j < i ==> s[j] != c,
            None => forall|j: int| from <= j < s.len() ==> s[j] != c,
        },
    decreases s.len() - from,
{
    if from < s.len() && s[from] != c {
        lemma_find_from(s, c, from + 1);
    }
}

/// An index that holds `c`, with no `c` between `from` and it, is what
/// `find_from` returns.
pub proof fn lemma_find_from_at(s: Seq<char>, c: char, from: int, i: int)
    requires
        0 <= from <= i < s.len(),
        s[i] == c,
        forall|j: int| from <= j < i ==> s[j] != c,
    ensures
        find_from(s, c, from) == Some(i),
{
    lemma_find_from(s, c, from);
}

/// Where `c` does not occur at or after `from`, `find_from` finds nothing.
pub proof fn lemma_find_from_absent(s: Seq<char>, c: char, from: int)
    requires
        0 <= from,
        forall|j: int| from <= j < s.len() ==> s[j] != c,
    ensures
        find_from(s, c, from) is None,
{
    lemma_find_from(s, c, from);
}

/// Searches `cs[lo..hi]` for the first occurrence of `c`.
pub(crate) fn find_in(cs: &[char], c: char, lo: usize, hi: usize) -> (r: Option<usize>)
    requires
        lo <= hi <= cs@.len(),
    ensures
        r matches Some(i) ==> lo <= i < hi,
        find_from(cs@.subrange(lo as int, hi as int), c, 0) == match r {
            Some(i) => Some(i - lo),
            None => None,
        },
{
    let ghost s = cs@.subrange(lo as int, hi as int);
    let mut i: usize = lo;
    while i < hi
        invariant
            lo <= i <= hi <= cs@.len(),
            s == cs@.subrange(lo as int, hi as int),
            find_from(s, c, 0) == find_from(s, c, i - lo),
        decreases hi - i,
    {
        if cs[i] == c {
            return Some(i);
        }
        i += 1;
    }
    None
}

} // verus!
