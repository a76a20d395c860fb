//! Quote flavors and the scan that finds the outer quote pair of a value.

use vstd::prelude::*;
use crate::chars::{find_from, lemma_find_from, lemma_find_from_absent, lemma_find_from_at};

verus! {

/// The two characters that can delimit a quoted value.
pub open spec fn is_quote(c: char) -> bool {
    c == '\'' || c == '"'
}

/// Which quote character delimits a value.
#[derive(Clone, Copy, Debug, PartialEq, Eq)]
pub enum Flavor {
    Single,
    Double,
}

impl Flavor {
    /// The character that opens and closes a value of this flavor.
    pub open spec fn delimiter(self) -> char {
        match self {
            Flavor::Single => '\'',
            Flavor::Double => '"',
        }
    }

    /// The flavor that `c` opens, if `c` is a quote character.
    pub open spec fn of(c: char) -> Option<Flavor> {
        if c == '\'' {
            Some(Flavor::Single)
        } else if c == '"' {
            Some(Flavor::Double)
        } else {
            None
        }
    }

    /// Returns the delimiter of this flavor.
    pub fn quote(self) -> (c: char)
        ensures
            c == self.delimiter(),
    {
        match self {
            Flavor::Single => '\'',
            Flavor::Double => '"',
        }
    }

    /// Returns the flavor that `c` opens, or `None` for any other character.
    pub fn from_char(c: char) -> (r: Option<Flavor>)
        ensures
            r == Flavor::of(c),
    {
        if c == '\'' {
            Some(Flavor::Single)
        } else if c == '"' {
            Some(Flavor::Double)
        } else {
            None
        }
    }
}

/// The index of the first quote character in `s` at or after `from`.
pub open spec fn first_quote_from(s: Seq<char>, from: int) -> Option<int>
    recommends
        0 <= from,
    decreases s.len() - from,
{
    if from < 0 || from >= s.len() {
        None
    } else if is_quote(s[from]) {
        Some(from)
    } else {
        first_quote_from(s, from + 1)
    }
}

/// `first_quote_from` returns the least index at or after `from` that holds
/// a quote character, and `None` exactly when there is no such index.
pub proof fn lemma_first_quote_from(s: Seq<char>, from: int)
    requires
        0 <= from,
    ensures
        match first_quote_from(s, from) {
            Some(i) => from <= i < s.len() && is_quote(s[i]) && forall|j: int|
                from <= j < i ==> !is_quote(s[j]),
            None => forall|j: int| from <= j < s.len() ==> !is_quote(s[j]),
        },
    decreases s.len() - from,
{
    if from < s.len() && !is_quote(s[from]) {
        lemma_first_quote_from(s, from + 1);
    }
}

/// An index that holds a quote character, with none between `from` and it,
/// is what `first_quote_from` returns.
pub proof fn lemma_first_quote_at(s: Seq<char>, from: int, i: int)
    requires
        0 <= from <= i < s.len(),
        is_quote(s[i]),
        forall|j: int| from <= j < i ==> !is_quote(s[j]),
    ensures
        first_quote_from(s, from) == Some(i),
{
    lemma_first_quote_from(s, from);
}

/// Where no quote character occurs at or after `from`, `first_quote_from`
/// finds nothing.
pub proof fn lemma_first_quote_absent(s: Seq<char>, from: int)
    requires
        0 <= from,
        forall|j: int| from <= j < s.len() ==> !is_quote(s[j]),
    ensures
        first_quote_from(s, from) is None,
{
    lemma_first_quote_from(s, from);
}

/// The states of the scan for a value's outer quote pair.
///
/// `start` is the index just after the opening quote, `end` the index just
/// before the closing one.
#[derive(Clone, Copy, Debug, PartialEq, Eq)]
pub enum QuoteScan {
    /// No quote character has been read.
    NoQuoteSeen,
    /// The opening quote has been read, its partner has not.
    InQuote { flavor: Flavor, start: usize },
    /// Both quotes of the pair have been read.
    Closed { start: usize, end: usize },
}

impl QuoteScan {
    /// The state of the scan once it has read all of `s`.
    pub open spec fn after(s: Seq<char>) -> QuoteScan
        recommends
            s.len() <= usize::MAX,
    {
        match first_quote_from(s, 0) {
            None => QuoteScan::NoQuoteSeen,
            Some(open) => match find_from(s, s[open], open + 1) {
                None => QuoteScan::InQuote {
                    flavor: Flavor::of(s[open]).unwrap(),
                    start: (open + 1) as usize,
                },
                Some(close) => QuoteScan::Closed {
                    start: (open + 1) as usize,
                    end: (close - 1) as usize,
                },
            },
        }
    }

    /// The state that follows `self` when the character at index `i` is `c`.
    pub open spec fn next(self, i: int, c: char) -> QuoteScan {
        match self {
            QuoteScan::NoQuoteSeen => match Flavor::of(c) {
                Some(flavor) => QuoteScan::InQuote { flavor, start: (i + 1) as usize },
                None => QuoteScan::NoQuoteSeen,
            },
            QuoteScan::InQuote { flavor, start } => if c == flavor.delimiter() {
                QuoteScan::Closed { start, end: (i - 1) as usize }
            } else {
                self
            },
            QuoteScan::Closed { .. } => self,
        }
    }

    /// Whether the scan can be in this state after reading `n` characters.
    pub open spec fn valid_at(self, n: int) -> bool {
        match self {
            QuoteScan::NoQuoteSeen => true,
            QuoteScan::InQuote { start, .. } => 1 <= start <= n,
            QuoteScan::Closed { start, end } => 1 <= start <= end + 1 < n,
        }
    }

    /// Reads the character `c` found at index `i`.
    pub fn step(self, i: usize, c: char) -> (r: QuoteScan)
        requires
            self.valid_at(i as int),
            i < usize::MAX,
        ensures
            r == self.next(i as int, c),
            r.valid_at(i + 1),
    {
        match self {
            QuoteScan::NoQuoteSeen => match Flavor::from_char(c) {
                Some(flavor) => QuoteScan::InQuote { flavor, start: i + 1 },
                None => QuoteScan::NoQuoteSeen,
            },
            QuoteScan::InQuote { flavor, start } => if c == flavor.quote() {
                QuoteScan::Closed { start, end: i - 1 }
            } else {
                self
            },
            QuoteScan::Closed { .. } => self,
        }
    }

    /// Tells whether both quotes of the pair have been read.
    pub fn is_closed(&self) -> (r: bool)
        ensures
            r == (self is Closed),
    {
        match self {
            QuoteScan::Closed { .. } => true,
            _ => false,
        }
    }
}

/// Reading one more character moves the scan from the state after `s` to
/// the state after `s.push(c)`.
pub proof fn lemma_after_push(s: Seq<char>, c: char)
    requires
        s.len() < usize::MAX,
    ensures
        QuoteScan::after(s.push(c)) == QuoteScan::after(s).next(s.len() as int, c),
        QuoteScan::after(s).valid_at(s.len() as int),
{
    let t = s.push(c);
    let n = s.len() as int;
    lemma_first_quote_from(s, 0);
    lemma_first_quote_from(t, 0);
    match first_quote_from(s, 0) {
        None => {
            if is_quote(c) {
                lemma_first_quote_at(t, 0, n);
                lemma_find_from(t, c, n + 1);
            } else {
                lemma_first_quote_absent(t, 0);
            }
        },
        Some(open) => {
            lemma_first_quote_at(t, 0, open);
            let d = s[open];
            lemma_find_from(s, d, open + 1);
            match find_from(s, d, open + 1) {
                None => {
                    if c == d {
                        lemma_find_from_at(t, d, open + 1, n);
                    } else {
                        lemma_find_from_absent(t, d, open + 1);
                    }
                },
                Some(close) => {
                    lemma_find_from_at(t, d, open + 1, close);
                },
            }
        },
    }
}

/// Once the pair is closed, the rest of the text does not change the state.
pub proof fn lemma_after_closed(s: Seq<char>, k: int)
    requires
        0 <= k <= s.len() <= usize::MAX,
        QuoteScan::after(s.take(k)) is Closed,
    ensures
        QuoteScan::after(s) == QuoteScan::after(s.take(k)),
    decreases s.len() - k,
{
    if k == s.len() {
        assert(s.take(k) == s);
    } else {
        lemma_after_push(s.take(k), s[k]);
        assert(s.take(k).push(s[k]) == s.take(k + 1));
        lemma_after_closed(s, k + 1);
    }
}

} // verus!
