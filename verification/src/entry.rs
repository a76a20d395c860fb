//! Lines, their classification, and the entry that a line yields.

use vstd::prelude::*;
use crate::chars::{find_from, find_in, lemma_find_from, lemma_find_from_at};
use crate::trim::{trim, trim_in};
use crate::value::{normalize_in, normalized};

verus! {

/// A key and its value.
pub type Entry = (Seq<char>, Seq<char>);

/// The lines of `text`: the pieces between its line feeds.
///
/// A carriage return before a line feed stays on its line; it is whitespace
/// and goes when the line is trimmed.
pub open spec fn lines(text: Seq<char>) -> Seq<Seq<char>>
    decreases text.len(),
{
    match find_from(text, '\n', 0) {
        None => seq![text],
        Some(i) => {
            proof {
                lemma_find_from(text, '\n', 0);
            }
            seq![text.subrange(0, i)] + lines(text.subrange(i + 1, text.len() as int))
        },
    }
}

/// What a line is taken for.
pub enum LineKind {
    /// The first character that is not whitespace is `#`.
    Comment,
    /// Nothing is left after trimming.
    Blank,
    /// Anything else: the line may hold an entry.
    Candidate,
}

/// The kind of `line`.
pub open spec fn classify(line: Seq<char>) -> LineKind {
    let t = trim(line);
    if t.len() == 0 {
        LineKind::Blank
    } else if t[0] == '#' {
        LineKind::Comment
    } else {
        LineKind::Candidate
    }
}

/// The entry in the trimmed line `line`.
///
/// The line is split at its first `=`. Both sides are trimmed and normalized.
/// There is no entry where the line has no `=`, where a side has no normal
/// form, or where the key's normal form is empty.
pub open spec fn extract(line: Seq<char>) -> Option<Entry> {
    match find_from(line, '=', 0) {
        None => None,
        Some(eq) => {
            let key = normalized(trim(line.subrange(0, eq)));
            let value = normalized(trim(line.subrange(eq + 1, line.len() as int)));
            match (key, value) {
                (Some(k), Some(v)) => if k.len() > 0 {
                    Some((k, v))
                } else {
                    None
                },
                _ => None,
            }
        },
    }
}

/// The entry that the line `line` of a text yields.
pub open spec fn entry_of_line(line: Seq<char>) -> Option<Entry> {
    match classify(line) {
        LineKind::Candidate => extract(trim(line)),
        _ => None,
    }
}

/// The entries of the lines `ls`, in the order of the lines.
pub open spec fn entries_of_lines(ls: Seq<Seq<char>>) -> Seq<Entry>
    decreases ls.len(),
{
    if ls.len() == 0 {
        Seq::empty()
    } else {
        match entry_of_line(ls.last()) {
            Some(e) => entries_of_lines(ls.drop_last()).push(e),
            None => entries_of_lines(ls.drop_last()),
        }
    }
}

/// The entries of `text`, in the order of its lines.
pub open spec fn entries(text: Seq<char>) -> Seq<Entry> {
    entries_of_lines(lines(text))
}

/// The entries of the texts `sources`, one text after the other.
pub open spec fn entries_of_sources(sources: Seq<Seq<char>>) -> Seq<Entry>
    decreases sources.len(),
{
    if sources.len() == 0 {
        Seq::empty()
    } else {
        entries_of_sources(sources.drop_last()) + entries(sources.last())
    }
}

/// The lines of two texts joined by a line feed are the lines of the first
/// followed by the lines of the second.
pub proof fn lemma_lines_concat(a: Seq<char>, b: Seq<char>)
    ensures
        lines(a + seq!['\n'] + b) == lines(a) + lines(b),
    decreases a.len(),
{
    let t = a + seq!['\n'] + b;
    let n = a.len() as int;
    lemma_find_from(a, '\n', 0);
    match find_from(a, '\n', 0) {
        None => {
            lemma_find_from_at(t, '\n', 0, n);
            assert(t.subrange(0, n) == a);
            assert(t.subrange(n + 1, t.len() as int) == b);
        },
        Some(i) => {
            lemma_find_from_at(t, '\n', 0, i);
            let rest = a.subrange(i + 1, n);
            assert(t.subrange(0, i) == a.subrange(0, i));
            assert(t.subrange(i + 1, t.len() as int) == rest + seq!['\n'] + b);
            lemma_lines_concat(rest, b);
        },
    }
}

/// The entries of two runs of lines, one after the other, are the entries of
/// the first followed by the entries of the second.
pub proof fn lemma_entries_of_lines_concat(a: Seq<Seq<char>>, b: Seq<Seq<char>>)
    ensures
        entries_of_lines(a + b) == entries_of_lines(a) + entries_of_lines(b),
    decreases b.len(),
{
    if b.len() > 0 {
        assert((a + b).drop_last() == a + b.drop_last());
        lemma_entries_of_lines_concat(a, b.drop_last());
    }
}

/// The line filter: trims the line `cs[lo..hi]` and, where it is a candidate,
/// returns the bounds in `cs` of what is left of it.
pub(crate) fn candidate_in(cs: &[char], lo: usize, hi: usize) -> (r: Option<(usize, usize)>)
    requires
        lo <= hi <= cs@.len(),
    ensures
        match r {
            Some((a, b)) => {
                &&& classify(cs@.subrange(lo as int, hi as int)) is Candidate
                &&& lo <= a < b <= hi
                &&& cs@.subrange(a as int, b as int) == trim(cs@.subrange(lo as int, hi as int))
            },
            None => !(classify(cs@.subrange(lo as int, hi as int)) is Candidate),
        },
{
    let (a, b) = trim_in(cs, lo, hi);
    if a == b {
        None
    } else if cs[a] == '#' {
        None
    } else {
        Some((a, b))
    }
}

/// The entry extractor: finds the entry in the trimmed line `cs[lo..hi]` and
/// returns the bounds in `cs` of its key and of its value.
pub(crate) fn extract_in(cs: &[char], lo: usize, hi: usize) -> (r: Option<
    ((usize, usize), (usize, usize)),
>)
    requires
        lo <= hi <= cs@.len(),
    ensures
        r matches Some((key, value)) ==> lo <= key.0 < key.1 <= hi && lo <= value.0 <= value.1
            <= hi,
        extract(cs@.subrange(lo as int, hi as int)) == match r {
            Some((key, value)) => Some(
                (
                    cs@.subrange(key.0 as int, key.1 as int),
                    cs@.subrange(value.0 as int, value.1 as int),
                ),
            ),
            None => None,
        },
{
    let ghost line = cs@.subrange(lo as int, hi as int);
    match find_in(cs, '=', lo, hi) {
        None => None,
        Some(eq) => {
            let (ka, kb) = trim_in(cs, lo, eq);
            let (va, vb) = trim_in(cs, eq + 1, hi);
            assert(cs@.subrange(lo as int, eq as int) == line.subrange(0, eq - lo));
            assert(cs@.subrange(eq + 1, hi as int) == line.subrange(
                eq - lo + 1,
                line.len() as int,
            ));
            match normalize_in(cs, ka, kb) {
                None => None,
                Some(key) => match normalize_in(cs, va, vb) {
                    None => None,
                    Some(value) => if key.0 < key.1 {
                        Some((key, value))
                    } else {
                        None
                    },
                },
            }
        },
    }
}

} // verus!
