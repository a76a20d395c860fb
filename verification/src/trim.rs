//! Trimming: text without the whitespace at its two ends.

use vstd::prelude::*;
use crate::chars::{is_whitespace, whitespace};

verus! {

/// `s` without its leading whitespace.
pub open spec fn trim_start(s: Seq<char>) -> Seq<char>
    decreases s.len(),
{
    if s.len() > 0 && is_whitespace(s.first()) {
        trim_start(s.drop_first())
    } else {
        s
    }
}

/// `s` without its trailing whitespace.
pub open spec fn trim_end(s: Seq<char>) -> Seq<char>
    decreases s.len(),
{
    if s.len() > 0 && is_whitespace(s.last()) {
        trim_end(s.drop_last())
    } else {
        s
    }
}

/// `s` without its leading and trailing whitespace.
pub open spec fn trim(s: Seq<char>) -> Seq<char> {
    trim_end(trim_start(s))
}

/// `s[a..b]` is `s` without its leading and trailing whitespace: only
/// whitespace lies outside, and where anything is left, it begins and ends
/// with a character that is not whitespace.
pub open spec fn trims_to(s: Seq<char>, a: int, b: int) -> bool {
    &&& 0 <= a <= b <= s.len()
    &&& forall|i: int| 0 <= i < a ==> is_whitespace(#[trigger] s[i])
    &&& forall|i: int| b <= i < s.len() ==> is_whitespace(#[trigger] s[i])
    &&& a < b ==> !is_whitespace(s[a]) && !is_whitespace(s[b - 1])
}

/// Whitespace up to `a` and none at `a`: `trim_start` cuts at `a`.
pub proof fn lemma_trim_start_at(s: Seq<char>, a: int)
    requires
        0 <= a <= s.len(),
        forall|i: int| 0 <= i < a ==> is_whitespace(#[trigger] s[i]),
        a < s.len() ==> !is_whitespace(s[a]),
    ensures
        trim_start(s) == s.subrange(a, s.len() as int),
    decreases a,
{
    if a > 0 {
        lemma_trim_start_at(s.drop_first(), a - 1);
    }
}

/// Whitespace from `b` on and none before `b`: `trim_end` cuts at `b`.
pub proof fn lemma_trim_end_at(s: Seq<char>, b: int)
    requires
        0 <= b <= s.len(),
        forall|i: int| b <= i < s.len() ==> is_whitespace(#[trigger] s[i]),
        0 < b ==> !is_whitespace(s[b - 1]),
    ensures
        trim_end(s) == s.subrange(0, b),
    decreases s.len() - b,
{
    if b < s.len() {
        lemma_trim_end_at(s.drop_last(), b);
    }
}

/// The bounds that satisfy `trims_to` give the trimmed text.
pub proof fn lemma_trim_at(s: Seq<char>, a: int, b: int)
    requires
        trims_to(s, a, b),
    ensures
        trim(s) == s.subrange(a, b),
{
    if a == b {
        lemma_trim_start_at(s, s.len() as int);
    } else {
        lemma_trim_start_at(s, a);
        lemma_trim_end_at(s.subrange(a, s.len() as int), b - a);
    }
}

/// The index at which `trim_start` cuts.
proof fn trim_start_bound(s: Seq<char>) -> (a: int)
    ensures
        0 <= a <= s.len(),
        forall|i: int| 0 <= i < a ==> is_whitespace(#[trigger] s[i]),
        a < s.len() ==> !is_whitespace(s[a]),
    decreases s.len(),
{
    if s.len() > 0 && is_whitespace(s.first()) {
        let t = s.drop_first();
        let a = trim_start_bound(t);
        assert forall|i: int| 0 <= i < a + 1 implies is_whitespace(#[trigger] s[i]) by {
            if i > 0 {
                assert(s[i] == t[i - 1]);
            }
        }
        a + 1
    } else {
        0
    }
}

/// The index at which `trim_end` cuts, at or after `a`.
proof fn trim_end_bound(s: Seq<char>, a: int) -> (b: int)
    requires
        0 <= a <= s.len(),
    ensures
        a <= b <= s.len(),
        forall|i: int| b <= i < s.len() ==> is_whitespace(#[trigger] s[i]),
        a < b ==> !is_whitespace(s[b - 1]),
    decreases s.len(),
{
    if s.len() > a && is_whitespace(s.last()) {
        let t = s.drop_last();
        let b = trim_end_bound(t, a);
        assert forall|i: int| b <= i < s.len() implies is_whitespace(#[trigger] s[i]) by {
            if i < t.len() {
                assert(s[i] == t[i]);
            }
        }
        b
    } else {
        s.len() as int
    }
}

/// Trimming cuts a piece out of `s` whose bounds satisfy `trims_to`.
pub proof fn lemma_trim_bounds(s: Seq<char>)
    ensures
        exists|a: int, b: int| #[trigger] trims_to(s, a, b) && trim(s) == s.subrange(a, b),
{
    let a = trim_start_bound(s);
    let b = trim_end_bound(s, a);
    lemma_trim_at(s, a, b);
}

/// Text that neither begins nor ends with whitespace is its own trimmed form.
pub proof fn lemma_trim_fixed(s: Seq<char>)
    requires
        s.len() > 0 ==> !is_whitespace(s.first()) && !is_whitespace(s.last()),
    ensures
        trim(s) == s,
{
    lemma_trim_at(s, 0, s.len() as int);
}

/// Trimming twice is trimming once.
pub proof fn lemma_trim_idempotent(s: Seq<char>)
    ensures
        trim(trim(s)) == trim(s),
{
    lemma_trim_bounds(s);
    let (a, b) = choose|a: int, b: int| #[trigger] trims_to(s, a, b) && trim(s) == s.subrange(a, b);
    lemma_trim_fixed(s.subrange(a, b));
}

/// Finds the part of `cs[lo..hi]` that is left after trimming.
pub(crate) fn trim_in(cs: &[char], lo: usize, hi: usize) -> (r: (usize, usize))
    requires
        lo <= hi <= cs@.len(),
    ensures
        lo <= r.0 <= r.1 <= hi,
        cs@.subrange(r.0 as int, r.1 as int) == trim(cs@.subrange(lo as int, hi as int)),
{
    let mut a: usize = lo;
    while a < hi && whitespace(cs[a])
        invariant
            lo <= a <= hi <= cs@.len(),
            trim_start(cs@.subrange(lo as int, hi as int)) == trim_start(
                cs@.subrange(a as int, hi as int),
            ),
        decreases hi - a,
    {
        assert(cs@.subrange(a as int, hi as int).drop_first() == cs@.subrange(
            a + 1,
            hi as int,
        ));
        a += 1;
    }
    let mut b: usize = hi;
    while a < b && whitespace(cs[b - 1])
        invariant
            a <= b <= hi <= cs@.len(),
            trim_end(cs@.subrange(a as int, hi as int)) == trim_end(
                cs@.subrange(a as int, b as int),
            ),
        decreases b - a,
    {
        assert(cs@.subrange(a as int, b as int).drop_last() == cs@.subrange(
            a as int,
            b - 1,
        ));
        b -= 1;
    }
    (a, b)
}

} // verus!
