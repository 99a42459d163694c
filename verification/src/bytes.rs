//! Searching byte sequences: literal matches, first occurrences and runs.

use vstd::prelude::*;

verus! {

/// `pat` occurs in `b` at index `p`.
pub open spec fn has_at(b: Seq<u8>, p: int, pat: Seq<u8>) -> bool {
    0 <= p && p + pat.len() <= b.len() && b.subrange(p, p + pat.len()) == pat
}

/// The first index at or after `p` where `pat` occurs in `b`, or `b.len()` where it occurs nowhere.
pub open spec fn find_from(b: Seq<u8>, p: int, pat: Seq<u8>) -> int
    decreases b.len() - p,
{
    if p < 0 || p >= b.len() {
        b.len() as int
    } else if has_at(b, p, pat) {
        p
    } else {
        find_from(b, p + 1, pat)
    }
}

/// An ASCII digit `0`..`9`.
pub open spec fn is_ascii_digit(x: u8) -> bool {
    0x30 <= x <= 0x39
}

/// The end of the run of ASCII digits that starts at `p`.
pub open spec fn digits_end(b: Seq<u8>, p: int) -> int
    decreases b.len() - p,
{
    if 0 <= p < b.len() && is_ascii_digit(b[p]) {
        digits_end(b, p + 1)
    } else {
        p
    }
}

/// A byte that continues a multi-byte UTF-8 character.
pub open spec fn is_continuation(x: u8) -> bool {
    0x80 <= x <= 0xBF
}

/// The end of the run of UTF-8 continuation bytes that starts at `p`.
pub open spec fn continuation_end(b: Seq<u8>, p: int) -> int
    decreases b.len() - p,
{
    if 0 <= p < b.len() && is_continuation(b[p]) {
        continuation_end(b, p + 1)
    } else {
        p
    }
}

pub proof fn lemma_find_from(b: Seq<u8>, p: int, pat: Seq<u8>)
    requires
        0 <= p <= b.len(),
    ensures
        p <= find_from(b, p, pat) <= b.len(),
        find_from(b, p, pat) < b.len() ==> has_at(b, find_from(b, p, pat), pat),
    decreases b.len() - p,
{
    if p < b.len() && !has_at(b, p, pat) {
        lemma_find_from(b, p + 1, pat);
    }
}

/// The first occurrence of `pat` at or after `p` is at `q` when it occurs at
/// `q` (or `q` is the end) and nowhere in `p..q`.
pub proof fn lemma_find_first(b: Seq<u8>, p: int, q: int, pat: Seq<u8>)
    requires
        0 <= p <= q <= b.len(),
        q < b.len() ==> has_at(b, q, pat),
        forall|k: int| p <= k < q ==> !has_at(b, k, pat),
    ensures
        find_from(b, p, pat) == q,
    decreases q - p,
{
    if p < q {
        lemma_find_first(b, p + 1, q, pat);
    }
}

pub proof fn lemma_digits_end(b: Seq<u8>, p: int)
    requires
        0 <= p <= b.len(),
    ensures
        p <= digits_end(b, p) <= b.len(),
        digits_end(b, p) > p ==> is_ascii_digit(b[digits_end(b, p) - 1]),
    decreases b.len() - p,
{
    if p < b.len() && is_ascii_digit(b[p]) {
        lemma_digits_end(b, p + 1);
    }
}

/// A run of digits is a maximal run of the bytes `0`..`9` (0x30..=0x39):
/// every byte in it is one, and the byte after it (if any) is not.
pub proof fn law_digits_run(b: Seq<u8>, p: int)
    requires
        0 <= p <= b.len(),
    ensures
        p <= digits_end(b, p) <= b.len(),
        forall|i: int| p <= i < digits_end(b, p) ==> 0x30 <= #[trigger] b[i] <= 0x39,
        digits_end(b, p) == b.len() || !(0x30 <= b[digits_end(b, p)] <= 0x39),
    decreases b.len() - p,
{
    if p < b.len() && 0x30 <= b[p] <= 0x39 {
        law_digits_run(b, p + 1);
    }
}

/// The run of digits at `p` ends at `e` when the bytes `p..e` are all `0`..`9`
/// and the byte at `e`, if any, is not.
pub proof fn law_digits_end_at(b: Seq<u8>, p: int, e: int)
    requires
        0 <= p <= e <= b.len(),
        forall|i: int| p <= i < e ==> 0x30 <= #[trigger] b[i] <= 0x39,
        e == b.len() || !(0x30 <= b[e] <= 0x39),
    ensures
        digits_end(b, p) == e,
    decreases e - p,
{
    if p < e {
        assert(0x30 <= b[p] <= 0x39);
        law_digits_end_at(b, p + 1, e);
    }
}

pub proof fn lemma_continuation_end(b: Seq<u8>, p: int)
    requires
        0 <= p <= b.len(),
    ensures
        p <= continuation_end(b, p) <= b.len(),
    decreases b.len() - p,
{
    if p < b.len() && is_continuation(b[p]) {
        lemma_continuation_end(b, p + 1);
    }
}

/// Whether `pat` occurs in `b` at `p`.
pub fn matches_at(b: &[u8], p: usize, pat: &[u8]) -> (r: bool)
    ensures
        r == has_at(b@, p as int, pat@),
{
    if p > b.len() || pat.len() > b.len() - p {
        return false;
    }
    let mut k: usize = 0;
    while k < pat.len()
        invariant
            p + pat.len() <= b.len(),
            k <= pat@.len(),
            forall|j: int| 0 <= j < k ==> b@[p + j] == pat@[j],
        decreases pat@.len() - k,
    {
        if b[p + k] != pat[k] {
            assert(b@.subrange(p as int, p + pat@.len())[k as int] != pat@[k as int]);
            return false;
        }
        k += 1;
    }
    assert(b@.subrange(p as int, p + pat@.len()) =~= pat@);
    true
}

/// The first index at or after `p` where `pat` occurs in `b`, or `b.len()`.
pub fn find_pattern(b: &[u8], p: usize, pat: &[u8]) -> (q: usize)
    requires
        p <= b@.len(),
    ensures
        q == find_from(b@, p as int, pat@),
{
    let mut i = p;
    while i < b.len() && !matches_at(b, i, pat)
        invariant
            p <= i <= b@.len(),
            find_from(b@, p as int, pat@) == find_from(b@, i as int, pat@),
        decreases b@.len() - i,
    {
        i += 1;
    }
    i
}

/// The end of the run of ASCII digits that starts at `p`.
pub fn skip_digits(b: &[u8], p: usize) -> (q: usize)
    requires
        p <= b@.len(),
    ensures
        q == digits_end(b@, p as int),
{
    let mut i = p;
    while i < b.len() && b[i] >= 0x30 && b[i] <= 0x39
        invariant
            p <= i <= b@.len(),
            digits_end(b@, p as int) == digits_end(b@, i as int),
        decreases b@.len() - i,
    {
        i += 1;
    }
    i
}

/// The end of the run of UTF-8 continuation bytes that starts at `p`.
pub fn skip_continuations(b: &[u8], p: usize) -> (q: usize)
    requires
        p <= b@.len(),
    ensures
        q == continuation_end(b@, p as int),
{
    let mut i = p;
    while i < b.len() && b[i] >= 0x80 && b[i] <= 0xBF
        invariant
            p <= i <= b@.len(),
            continuation_end(b@, p as int) == continuation_end(b@, i as int),
        decreases b@.len() - i,
    {
        i += 1;
    }
    i
}

} // verus!
