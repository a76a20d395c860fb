//! A loader for `.env` text: `KEY=VALUE` lines, `#` comments, and values
//! that may stand in single or double quotes.
//!
//! ```text
//! TEST_DATA=bar       # spaces are optional
//! # this is a comment
//! TEST_BAZ = "baz"    # double quotes are removed
//! TEST_BAR = 'bar'    # single quotes are removed
//! ```
//!
//! yields `TEST_DATA` = `bar`, `TEST_BAZ` = `baz` and `TEST_BAR` = `bar`.
//!
//! Text is modelled as a sequence of characters. [`entry::entries`] says
//! which entries a text holds, [`value::normalized`] what is left of one side
//! of a line; the functions here compute them.

use vstd::prelude::*;

pub mod chars;
pub mod entry;
pub mod laws;
pub mod quote;
pub mod trim;
pub mod value;

use crate::chars::{find_in, substring, to_chars};
use crate::entry::{
    candidate_in, entries, entries_of_lines, entries_of_sources, extract_in, lines, Entry,
};
use crate::value::{normalize_in, normalized};

verus! {

/// Normalizes one side of a `key=value` line.
///
/// Without a quote character in `input`, the result is `input` up to its
/// first `#`, trimmed. With one, it is the text that [`normalized`] cuts out
/// behind the first quote character, or `None`.
pub fn parse_str(input: &str) -> (r: Option<&str>)
    ensures
        normalized(input@) == match r {
            Some(text) => Some(text@),
            None => None,
        },
{
    let cs = to_chars(input);
    assert(cs@.subrange(0, cs@.len() as int) == input@);
    match normalize_in(cs.as_slice(), 0, cs.len()) {
        Some((a, b)) => Some(substring(input, input.is_ascii(), a, b)),
        None => None,
    }
}

/// Parses `data` and returns its entries, in the order of their lines.
///
/// A line ends at a line feed. Blank lines and lines that begin with `#`
/// yield nothing, nor does a line without `=`, with an empty key, or with a
/// side that has no normal form: such a line is passed over, and the rest
/// of the text is parsed as if it were not there.
pub fn parse<'a>(data: &'a str) -> (r: Vec<(&'a str, &'a str)>)
    ensures
        r.deep_view() == entries(data@),
{
    let cs = to_chars(data);
    let n = cs.len();
    let ascii = data.is_ascii();
    let mut out: Vec<(&'a str, &'a str)> = Vec::new();
    let mut pos: usize = 0;
    let mut more = true;
    let ghost mut seen: Seq<Seq<char>> = Seq::empty();
    assert(data@.subrange(0, n as int) == data@);
    while more
        invariant
            cs@ == data@,
            n == cs@.len(),
            ascii ==> data.is_ascii(),
            pos <= n,
            more ==> lines(data@) == seen + lines(data@.subrange(pos as int, n as int)),
            !more ==> lines(data@) == seen,
            out.deep_view() == entries_of_lines(seen),
        decreases
            (if more { n - pos + 1 } else { 0 }),
    {
        let ghost rest = data@.subrange(pos as int, n as int);
        let feed = find_in(cs.as_slice(), '\n', pos, n);
        let end = match feed {
            Some(at) => at,
            None => n,
        };
        let ghost line = data@.subrange(pos as int, end as int);
        if let Some((a, b)) = candidate_in(cs.as_slice(), pos, end) {
            if let Some((key, value)) = extract_in(cs.as_slice(), a, b) {
                let k = substring(data, ascii, key.0, key.1);
                let v = substring(data, ascii, value.0, value.1);
                out.push((k, v));
            }
        }
        proof {
            assert(seen.push(line).drop_last() == seen);
            if feed is Some {
                assert(rest.subrange(0, end - pos) == line);
                assert(rest.subrange(end - pos + 1, rest.len() as int) == data@.subrange(
                    end + 1,
                    n as int,
                ));
            }
            seen = seen.push(line);
        }
        if end < n {
            pos = end + 1;
        } else {
            more = false;
        }
    }
    out
}

/// Whether `set` has been called with the key and the value of `entry`.
pub open spec fn was_set<F: FnMut(&str, &str)>(set: F, entry: Entry) -> bool {
    exists|k: &str, v: &str| (k@, v@) == entry && #[trigger] call_ensures(set, (k, v), ())
}

/// Parses `data` and calls `set` with the key and the value of each entry,
/// in the order of their lines.
///
/// `set` must accept every entry of `data`. Of each entry it then holds that
/// `set` has returned from a call with it.
pub fn parse_and_set(data: &str, mut set: impl FnMut(&str, &str))
    requires
        forall|k: &str, v: &str|
            entries(data@).contains((k@, v@)) ==> #[trigger] call_requires(set, (k, v)),
    ensures
        forall|i: int| 0 <= i < entries(data@).len() ==> was_set(set, #[trigger] entries(data@)[i]),
{
    let found = parse(data);
    let ghost given = set;
    let mut i: usize = 0;
    while i < found.len()
        invariant
            i <= found.len(),
            set == given,
            found.deep_view() == entries(data@),
            forall|k: &str, v: &str|
                entries(data@).contains((k@, v@)) ==> #[trigger] call_requires(set, (k, v)),
            forall|j: int| 0 <= j < i ==> was_set(set, #[trigger] entries(data@)[j]),
        decreases found.len() - i,
    {
        let (k, v) = found[i];
        assert(entries(data@)[i as int] == (k@, v@));
        set(k, v);
        i += 1;
    }
}

/// Parses each of `sources` and returns the entries of all of them: those
/// of the first text first, each text's entries in the order of its lines.
///
/// Nothing is left out where a key occurs twice: whoever applies the entries
/// in this order has the later one override the earlier.
pub fn parse_all(sources: &[String]) -> (r: Vec<(String, String)>)
    ensures
        r.deep_view() == entries_of_sources(sources.deep_view()),
{
    let mut out: Vec<(String, String)> = Vec::new();
    let mut i: usize = 0;
    let ghost texts = sources.deep_view();
    while i < sources.len()
        invariant
            i <= sources.len(),
            texts == sources.deep_view(),
            out.deep_view() == entries_of_sources(texts.take(i as int)),
        decreases sources.len() - i,
    {
        let found = parse(sources[i].as_str());
        let ghost before = out.deep_view();
        let mut j: usize = 0;
        while j < found.len()
            invariant
                j <= found.len(),
                out.deep_view() == before + found.deep_view().take(j as int),
            decreases found.len() - j,
        {
            let (k, v) = found[j];
            let ghost sofar = out.deep_view();
            out.push((k.to_owned(), v.to_owned()));
            assert(out.deep_view() == sofar.push((k@, v@)));
            j += 1;
        }
        assert(texts.take(i + 1).drop_last() == texts.take(i as int));
        i += 1;
    }
    assert(texts.take(i as int) == texts);
    out
}

} // verus!
