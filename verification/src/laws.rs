//! What holds of every text: the properties of the model that callers can
//! rely on, each proved from the definitions.

use vstd::prelude::*;
use crate::chars::{find_from, lemma_find_from, lemma_find_from_absent, lemma_find_from_at};
use crate::entry::{
    classify, entries, entries_of_lines, entries_of_sources, entry_of_line,
    lemma_entries_of_lines_concat, lemma_lines_concat, lines, Entry,
};
use crate::quote::{is_quote, lemma_first_quote_absent, lemma_first_quote_at};
use crate::trim::{lemma_trim_at, lemma_trim_bounds, lemma_trim_idempotent, trim, trims_to};
use crate::value::{before_comment, normalized};

verus! {

/// Text without a quote character and without `#`.
pub open spec fn is_plain(s: Seq<char>) -> bool {
    forall|i: int| 0 <= i < s.len() ==> !is_quote(#[trigger] s[i]) && s[i] != '#'
}

/// The normal form of plain text is the text, trimmed.
pub proof fn lemma_normalized_plain(s: Seq<char>)
    requires
        is_plain(s),
    ensures
        normalized(s) == Some(trim(s)),
{
    lemma_first_quote_absent(s, 0);
    lemma_find_from_absent(s, '#', 0);
}

/// Normalizing is idempotent on values that are already normal: plain text
/// with no whitespace at its ends is its own normal form.
pub proof fn lemma_normalized_fixed(v: Seq<char>)
    requires
        is_plain(v),
        trim(v) == v,
    ensures
        normalized(v) == Some(v),
{
    lemma_normalized_plain(v);
}

/// Normalizing text without quote characters a second time changes nothing.
pub proof fn lemma_normalized_twice(s: Seq<char>)
    requires
        forall|i: int| 0 <= i < s.len() ==> !is_quote(#[trigger] s[i]),
    ensures
        normalized(s) is Some,
        normalized(normalized(s).unwrap()) == normalized(s),
{
    lemma_first_quote_absent(s, 0);
    lemma_find_from(s, '#', 0);
    let cut = before_comment(s);
    lemma_trim_bounds(cut);
    let (a, b) = choose|a: int, b: int| #[trigger]
        trims_to(cut, a, b) && trim(cut) == cut.subrange(a, b);
    let t = cut.subrange(a, b);
    lemma_trim_idempotent(cut);
    lemma_normalized_fixed(t);
}

/// The texts `ls`, joined by line feeds.
pub open spec fn joined(ls: Seq<Seq<char>>) -> Seq<char>
    decreases ls.len(),
{
    if ls.len() == 0 {
        Seq::empty()
    } else if ls.len() == 1 {
        ls.first()
    } else {
        ls.first() + seq!['\n'] + joined(ls.drop_first())
    }
}

/// Splitting into lines loses nothing: a text has at least one line, no line
/// holds a line feed, and the lines joined by line feeds are the text.
pub proof fn lemma_lines_joined(text: Seq<char>)
    ensures
        lines(text).len() > 0,
        joined(lines(text)) == text,
        forall|i: int, j: int|
            0 <= i < lines(text).len() && 0 <= j < lines(text)[i].len() ==> #[trigger] lines(
                text,
            )[i][j] != '\n',
    decreases text.len(),
{
    lemma_find_from(text, '\n', 0);
    match find_from(text, '\n', 0) {
        None => {},
        Some(at) => {
            let first = text.subrange(0, at);
            let rest = text.subrange(at + 1, text.len() as int);
            lemma_lines_joined(rest);
            let ls = seq![first] + lines(rest);
            assert(ls.drop_first() == lines(rest));
        },
    }
}

/// A text whose every line is blank or a comment holds no entry.
pub proof fn lemma_no_candidate_no_entry(text: Seq<char>)
    requires
        forall|i: int|
            0 <= i < lines(text).len() ==> !(classify(#[trigger] lines(text)[i]) is Candidate),
    ensures
        entries(text) == Seq::<Entry>::empty(),
{
    lemma_no_candidate_lines(lines(text));
}

/// Lines of which none is a candidate yield no entry.
pub proof fn lemma_no_candidate_lines(ls: Seq<Seq<char>>)
    requires
        forall|i: int| 0 <= i < ls.len() ==> !(classify(#[trigger] ls[i]) is Candidate),
    ensures
        entries_of_lines(ls) == Seq::<Entry>::empty(),
    decreases ls.len(),
{
    if ls.len() > 0 {
        lemma_no_candidate_lines(ls.drop_last());
    }
}

/// A line `key=value` of plain text yields exactly the entry of the trimmed
/// key and the trimmed value; it yields nothing where the key is blank.
pub proof fn lemma_plain_line(key: Seq<char>, value: Seq<char>)
    requires
        is_plain(key),
        is_plain(value),
        forall|i: int| 0 <= i < key.len() ==> #[trigger] key[i] != '=' && key[i] != '\n',
        forall|i: int| 0 <= i < value.len() ==> #[trigger] value[i] != '\n',
    ensures
        entries(key + seq!['='] + value) == if trim(key).len() > 0 {
            seq![(trim(key), trim(value))]
        } else {
            Seq::empty()
        },
{
    let line = key + seq!['='] + value;
    let nk = key.len() as int;

    // The text is one line.
    lemma_find_from_absent(line, '\n', 0);
    assert(seq![line].drop_last() == Seq::<Seq<char>>::empty());
    assert(entries_of_lines(Seq::<Seq<char>>::empty()) == Seq::<Entry>::empty());

    // Where trimming cuts the key, the value and the line.
    lemma_trim_bounds(key);
    let (ka, kb) = choose|a: int, b: int| #[trigger]
        trims_to(key, a, b) && trim(key) == key.subrange(a, b);
    lemma_trim_bounds(value);
    let (va, vb) = choose|a: int, b: int| #[trigger]
        trims_to(value, a, b) && trim(value) == value.subrange(a, b);
    let start = if ka < kb {
        ka
    } else {
        nk
    };
    let end = if va < vb {
        nk + 1 + vb
    } else {
        nk + 1
    };
    lemma_trim_at(line, start, end);
    let t = line.subrange(start, end);

    // The trimmed line splits at the `=` that follows the key.
    lemma_find_from_at(t, '=', 0, nk - start);

    let k = t.subrange(0, nk - start);
    if ka < kb {
        lemma_trim_at(k, 0, kb - ka);
        assert(k.subrange(0, kb - ka) == key.subrange(ka, kb));
    } else {
        lemma_trim_at(k, 0, 0);
    }

    let v = t.subrange(nk - start + 1, t.len() as int);
    if va < vb {
        lemma_trim_at(v, va, vb);
        assert(v.subrange(va, vb) == value.subrange(va, vb));
    } else {
        lemma_trim_at(v, 0, 0);
        assert(v.subrange(0, 0) == value.subrange(va, vb));
    }

    // Both sides are plain, so normalizing only trims them.
    lemma_trim_idempotent(key);
    lemma_trim_idempotent(value);
    lemma_normalized_fixed(trim(key));
    lemma_normalized_fixed(trim(value));
}

/// A line without `=` yields no entry.
pub proof fn lemma_no_equals_no_entry(line: Seq<char>)
    requires
        forall|i: int| 0 <= i < line.len() ==> #[trigger] line[i] != '=',
    ensures
        entry_of_line(line) is None,
{
    lemma_trim_bounds(line);
    let (a, b) = choose|a: int, b: int| #[trigger]
        trims_to(line, a, b) && trim(line) == line.subrange(a, b);
    let t = line.subrange(a, b);
    lemma_find_from_absent(t, '=', 0);
}

/// `origin` names, for each entry of the lines `ls`, the line that yields
/// it: the entries stand in the order of their lines, and no line that
/// yields an entry is left out.
pub open spec fn is_origin(ls: Seq<Seq<char>>, origin: Seq<int>) -> bool {
    let es = entries_of_lines(ls);
    &&& origin.len() == es.len()
    &&& forall|k: int|
        0 <= k < origin.len() ==> 0 <= #[trigger] origin[k] < ls.len() && entry_of_line(
            ls[origin[k]],
        ) == Some(es[k])
    &&& forall|j: int, k: int|
        0 <= j < k < origin.len() ==> #[trigger] origin[j] < #[trigger] origin[k]
    &&& forall|i: int|
        0 <= i < ls.len() && entry_of_line(#[trigger] ls[i]) is Some ==> origin.contains(i)
}

/// Builds the origin of each entry of `ls`.
proof fn origin_of(ls: Seq<Seq<char>>) -> (origin: Seq<int>)
    ensures
        is_origin(ls, origin),
    decreases ls.len(),
{
    if ls.len() == 0 {
        Seq::empty()
    } else {
        let head = ls.drop_last();
        let last = ls.len() - 1;
        let before = origin_of(head);
        let origin = if entry_of_line(ls[last]) is Some {
            before.push(last)
        } else {
            before
        };
        assert forall|i: int|
            0 <= i < ls.len() && entry_of_line(#[trigger] ls[i]) is Some implies origin.contains(
            i,
        ) by {
            if i < last {
                assert(head[i] == ls[i]);
                let k = choose|k: int| 0 <= k < before.len() && before[k] == i;
                assert(origin[k] == i);
            } else {
                assert(origin[origin.len() - 1] == i);
            }
        }
        origin
    }
}

/// Order is preserved: the entries of a text follow the order of the lines
/// that yield them, whatever blank lines and comments stand between.
pub proof fn lemma_entries_in_line_order(text: Seq<char>)
    ensures
        exists|origin: Seq<int>| is_origin(lines(text), origin),
{
    let _ = origin_of(lines(text));
}

/// The entries of two texts joined by a line feed are the entries of the
/// first followed by the entries of the second.
pub proof fn lemma_entries_concat(a: Seq<char>, b: Seq<char>)
    ensures
        entries(a + seq!['\n'] + b) == entries(a) + entries(b),
{
    lemma_lines_concat(a, b);
    lemma_entries_of_lines_concat(lines(a), lines(b));
}

/// Sources are applied in sequence: the entries of a run of texts followed
/// by another are the entries of the first run followed by those of the
/// second.
pub proof fn lemma_sources_concat(a: Seq<Seq<char>>, b: Seq<Seq<char>>)
    ensures
        entries_of_sources(a + b) == entries_of_sources(a) + entries_of_sources(b),
    decreases b.len(),
{
    if b.len() > 0 {
        assert((a + b).drop_last() == a + b.drop_last());
        lemma_sources_concat(a, b.drop_last());
    }
}

/// What a sink that holds one value for each key has after the entries
/// `es` were applied to it in order.
pub open spec fn applied(es: Seq<Entry>) -> Map<Seq<char>, Seq<char>>
    decreases es.len(),
{
    if es.len() == 0 {
        Map::empty()
    } else {
        applied(es.drop_last()).insert(es.last().0, es.last().1)
    }
}

/// The last write wins: after `a` and then `b` were applied, a key that `b`
/// sets has the value that `b` gives it, and any other key the value that
/// `a` gives it.
pub proof fn lemma_applied_concat(a: Seq<Entry>, b: Seq<Entry>)
    ensures
        applied(a + b) == applied(a).union_prefer_right(applied(b)),
    decreases b.len(),
{
    if b.len() > 0 {
        assert((a + b).drop_last() == a + b.drop_last());
        lemma_applied_concat(a, b.drop_last());
    }
}

/// Later sources override earlier ones: in a sink that received the entries
/// of the sources `a` and then those of the sources `b`, the keys of `b`
/// have the values from `b`.
pub proof fn lemma_later_sources_override(a: Seq<Seq<char>>, b: Seq<Seq<char>>)
    ensures
        applied(entries_of_sources(a + b)) == applied(entries_of_sources(a)).union_prefer_right(
            applied(entries_of_sources(b)),
        ),
{
    lemma_sources_concat(a, b);
    lemma_applied_concat(entries_of_sources(a), entries_of_sources(b));
}

/// No entry has an empty key.
pub proof fn lemma_keys_not_empty(text: Seq<char>)
    ensures
        forall|k: int| 0 <= k < entries(text).len() ==> (#[trigger] entries(text)[k]).0.len() > 0,
{
    let ls = lines(text);
    let origin = origin_of(ls);
    assert forall|k: int| 0 <= k < entries(text).len() implies (#[trigger] entries(text)[k]).0.len()
        > 0 by {
        assert(entry_of_line(ls[origin[k]]) == Some(entries(text)[k]));
    }
}

/// Of a value that begins with a quote character, the normal form is the
/// text between that character and its next occurrence, whatever it holds.
pub proof fn lemma_normalized_quoted(s: Seq<char>, close: int)
    requires
        s.len() > 0,
        is_quote(s[0]),
        find_from(s, s[0], 1) == Some(close),
    ensures
        normalized(s) == Some(s.subrange(1, close)),
{
    lemma_first_quote_at(s, 0, 0);
    lemma_find_from(s, s[0], 1);
}

} // verus!
