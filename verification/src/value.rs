//! The normalizer: what is left of one side of a `key=value` line once its
//! inline comment or its outer quotes are removed.

use vstd::prelude::*;
use crate::chars::{find_from, find_in, lemma_find_from};
use crate::trim::{trim, trim_in};
use crate::quote::{
    first_quote_from, lemma_after_closed, lemma_after_push, lemma_first_quote_from, QuoteScan,
};

verus! {

/// The part of `s` before its first `#`; all of `s` where it holds none.
pub open spec fn before_comment(s: Seq<char>) -> Seq<char> {
    match find_from(s, '#', 0) {
        Some(i) => s.subrange(0, i),
        None => s,
    }
}

/// The normal form of `s`.
///
/// Without a quote character in `s`, it is `s` cut at its first `#` and
/// trimmed. Otherwise the first quote character fixes the delimiter, `start`
/// is the index after it, `end` the index before its next occurrence, and the
/// normal form is `s[start..start + end]`. There is none where the delimiter
/// does not occur again, or where `start + end` lies beyond the end of `s`.
pub open spec fn normalized(s: Seq<char>) -> Option<Seq<char>> {
    match first_quote_from(s, 0) {
        None => Some(trim(before_comment(s))),
        Some(open) => match find_from(s, s[open], open + 1) {
            None => None,
            Some(close) => {
                let start = open + 1;
                let end = close - 1;
                if start + end <= s.len() {
                    Some(s.subrange(start, start + end))
                } else {
                    None
                }
            },
        },
    }
}

/// The normal form of `s`, read off the final state of the quote scan.
pub proof fn lemma_normalized_by_scan(s: Seq<char>)
    requires
        s.len() <= usize::MAX,
    ensures
        normalized(s) == match QuoteScan::after(s) {
            QuoteScan::NoQuoteSeen => Some(trim(before_comment(s))),
            QuoteScan::InQuote { .. } => None,
            QuoteScan::Closed { start, end } => if start + end <= s.len() {
                Some(s.subrange(start as int, start + end))
            } else {
                None
            },
        },
{
    lemma_first_quote_from(s, 0);
    if let Some(open) = first_quote_from(s, 0) {
        lemma_find_from(s, s[open], open + 1);
    }
}

/// Normalizes `cs[lo..hi]` and returns the bounds of its normal form in `cs`.
pub(crate) fn normalize_in(cs: &[char], lo: usize, hi: usize) -> (r: Option<(usize, usize)>)
    requires
        lo <= hi <= cs@.len(),
    ensures
        r matches Some((a, b)) ==> lo <= a <= b <= hi,
        normalized(cs@.subrange(lo as int, hi as int)) == match r {
            Some((a, b)) => Some(cs@.subrange(a as int, b as int)),
            None => None,
        },
{
    let ghost s = cs@.subrange(lo as int, hi as int);
    let len = hi - lo;
    let mut scan = QuoteScan::NoQuoteSeen;
    let mut i: usize = 0;
    proof {
        lemma_first_quote_from(s.take(0), 0);
    }
    while i < len && !scan.is_closed()
        invariant
            lo <= hi <= cs@.len(),
            len == hi - lo,
            i <= len,
            s == cs@.subrange(lo as int, hi as int),
            scan == QuoteScan::after(s.take(i as int)),
            scan.valid_at(i as int),
        decreases len - i,
    {
        proof {
            lemma_after_push(s.take(i as int), s[i as int]);
            assert(s.take(i as int).push(s[i as int]) == s.take(i + 1));
        }
        scan = scan.step(i, cs[lo + i]);
        i += 1;
    }
    proof {
        if i == len {
            assert(s.take(i as int) == s);
        } else {
            lemma_after_closed(s, i as int);
        }
        lemma_normalized_by_scan(s);
    }
    match scan {
        QuoteScan::NoQuoteSeen => {
            let cut = match find_in(cs, '#', lo, hi) {
                Some(at) => at,
                None => hi,
            };
            assert(cs@.subrange(lo as int, cut as int) == before_comment(s));
            Some(trim_in(cs, lo, cut))
        },
        QuoteScan::InQuote { .. } => None,
        QuoteScan::Closed { start, end } => {
            if end <= len - start {
                Some((lo + start, lo + start + end))
            } else {
                None
            }
        },
    }
}

} // verus!
