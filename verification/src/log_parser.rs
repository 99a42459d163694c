//! The two log formats that ccfolia produces: the exported HTML log, whose
//! messages read `[main]name:content`, and text copied from the chat pane,
//! whose messages open with a name plate `name - time stamp`.

use vstd::prelude::*;
use vstd::utf8::*;

use crate::bytes::{
    continuation_end, digits_end, find_from, find_pattern, has_at, is_ascii_digit,
    is_continuation, law_digits_end_at, lemma_continuation_end, lemma_find_first, lemma_digits_end, lemma_find_from,
    matches_at, skip_continuations, skip_digits,
};
use crate::markers::{
    colon, last_week, lemma_markers, main_tag, name_separator, today, weekday_suffix, yesterday,
};
use crate::text::{at_boundary, lemma_after_ascii, lemma_start_boundary, sub_str, trim_str, trim_ws};

verus! {

broadcast use vstd::utf8::encode_utf8_valid_utf8, vstd::utf8::encode_utf8_decode_utf8;

/// The error type of the log readers. Every complete input reads as a list of
/// messages (possibly empty), so no reader returns it.
#[derive(Debug)]
pub struct LogParseError;

/// A message as the text of its speaker and the text of its content.
pub open spec fn message_view(m: (&str, &str)) -> (Seq<char>, Seq<char>) {
    (m.0@, m.1@)
}

/// The messages of a list, as texts.
pub open spec fn messages_view(v: Seq<(&str, &str)>) -> Seq<(Seq<char>, Seq<char>)> {
    v.map_values(|m: (&str, &str)| message_view(m))
}

// ---------------------------------------------------------------------------
// The exported HTML log.
/// The messages of an HTML log `b` from index `p` on, each as the raw bytes
/// of its name and of its content. A message is `[main]`, the name up to the
/// first `:`, then the content up to the next `[main]` or the end; reading
/// stops at the first index that does not open a message.
pub open spec fn html_segments(b: Seq<u8>, p: int) -> Seq<(Seq<u8>, Seq<u8>)>
    decreases b.len() - p,
{
    if has_at(b, p, main_tag()) {
        let q = find_from(b, p + main_tag().len(), colon());
        if q < b.len() {
            let e = find_from(b, q + 1, main_tag());
            proof {
                lemma_find_from(b, p + main_tag().len(), colon());
                lemma_find_from(b, q + 1, main_tag());
            }
            seq![(b.subrange(p + main_tag().len(), q), b.subrange(q + 1, e))] + html_segments(b, e)
        } else {
            seq![]
        }
    } else {
        seq![]
    }
}

/// The texts of an HTML message: the name and the content, each trimmed.
pub open spec fn html_message(seg: (Seq<u8>, Seq<u8>)) -> (Seq<char>, Seq<char>) {
    (trim_ws(decode_utf8(seg.0)), trim_ws(decode_utf8(seg.1)))
}

/// The messages of an exported HTML log, read after trimming the whole log.
pub open spec fn html_log(log: Seq<char>) -> Seq<(Seq<char>, Seq<char>)> {
    html_segments(encode_utf8(trim_ws(log)), 0).map_values(
        |seg: (Seq<u8>, Seq<u8>)| html_message(seg),
    )
}

// ---------------------------------------------------------------------------
// Text copied from the chat pane.
/// ` ` then digits, `:`, digits (a clock time) at `r`: the index after it.
pub open spec fn clock_end(b: Seq<u8>, r: int) -> Option<int> {
    if 0 <= r < b.len() && b[r] == 0x20 {
        let d1 = digits_end(b, r + 1);
        if d1 > r + 1 && d1 < b.len() && b[d1] == 0x3A {
            let d2 = digits_end(b, d1 + 1);
            if d2 > d1 + 1 {
                Some(d2)
            } else {
                None
            }
        } else {
            None
        }
    } else {
        None
    }
}

/// `今日`, `昨日`, or `先週 ` with one character and `曜日`, at `s`: the index after it.
pub open spec fn day_end(b: Seq<u8>, s: int) -> Option<int> {
    if has_at(b, s, today()) {
        Some(s + today().len())
    } else if has_at(b, s, yesterday()) {
        Some(s + yesterday().len())
    } else if has_at(b, s, last_week()) {
        let t = s + last_week().len();
        if t < b.len() {
            let u = continuation_end(b, t + 1);
            if has_at(b, u, weekday_suffix()) {
                Some(u + weekday_suffix().len())
            } else {
                None
            }
        } else {
            None
        }
    } else {
        None
    }
}

/// digits `/` digits `/` digits (a date) at `s`: the index after it.
pub open spec fn date_end(b: Seq<u8>, s: int) -> Option<int> {
    let d1 = digits_end(b, s);
    if d1 > s && d1 < b.len() && b[d1] == 0x2F {
        let d2 = digits_end(b, d1 + 1);
        if d2 > d1 + 1 && d2 < b.len() && b[d2] == 0x2F {
            let d3 = digits_end(b, d2 + 1);
            if d3 > d2 + 1 {
                Some(d3)
            } else {
                None
            }
        } else {
            None
        }
    } else {
        None
    }
}

/// A time stamp at `s`, a day with a clock time or else a date: the index after it.
pub open spec fn stamp_end(b: Seq<u8>, s: int) -> Option<int> {
    match day_end(b, s) {
        Some(r) => match clock_end(b, r) {
            Some(e) => Some(e),
            None => date_end(b, s),
        },
        None => date_end(b, s),
    }
}

/// No line feed and no carriage return occurs in `s`.
pub open spec fn no_line_break(s: Seq<u8>) -> bool {
    forall|i: int| 0 <= i < s.len() ==> s[i] != 0x0A && s[i] != 0x0D
}

/// A name plate at `p`: the text up to the first ` - `, with no line break in
/// it, then ` - ` and a time stamp. Gives the end of the name and the end of
/// the plate.
pub open spec fn nameplate_at(b: Seq<u8>, p: int) -> Option<(int, int)> {
    let q = find_from(b, p, name_separator());
    if 0 <= p && q < b.len() && no_line_break(b.subrange(p, q)) {
        match stamp_end(b, q + name_separator().len()) {
            Some(e) => Some((q, e)),
            None => None,
        }
    } else {
        None
    }
}

/// The first index at or after `e` that starts a character and a name plate,
/// or `b.len()`.
pub open spec fn next_nameplate(b: Seq<u8>, e: int) -> int
    decreases b.len() - e,
{
    if e < 0 || e >= b.len() {
        b.len() as int
    } else if !is_continuation(b[e]) && nameplate_at(b, e) is Some {
        e
    } else {
        next_nameplate(b, e + 1)
    }
}

/// The messages of a copied log `b` from index `p` on, each as the raw bytes
/// of its name and of its content. A message is a name plate, then the content
/// up to the next name plate or the end; reading stops at the first index that
/// does not open a message.
pub open spec fn copied_segments(b: Seq<u8>, p: int) -> Seq<(Seq<u8>, Seq<u8>)>
    decreases b.len() - p,
{
    if 0 <= p <= b.len() {
        match nameplate_at(b, p) {
            Some((q, a)) => {
                let e = next_nameplate(b, a);
                proof {
                    lemma_nameplate_at(b, p);
                    lemma_next_nameplate(b, a);
                }
                seq![(b.subrange(p, q), b.subrange(a, e))] + copied_segments(b, e)
            },
            None => seq![],
        }
    } else {
        seq![]
    }
}

/// The texts of a copied message: the name as it stands, the content trimmed.
pub open spec fn copied_message(seg: (Seq<u8>, Seq<u8>)) -> (Seq<char>, Seq<char>) {
    (decode_utf8(seg.0), trim_ws(decode_utf8(seg.1)))
}

/// The messages of a copied log, read after trimming the whole log.
pub open spec fn copied_log(log: Seq<char>) -> Seq<(Seq<char>, Seq<char>)> {
    copied_segments(encode_utf8(trim_ws(log)), 0).map_values(
        |seg: (Seq<u8>, Seq<u8>)| copied_message(seg),
    )
}

// ---------------------------------------------------------------------------
// Facts about the grammar.
pub proof fn lemma_day_end(b: Seq<u8>, s: int)
    requires
        0 <= s <= b.len(),
    ensures
        day_end(b, s) matches Some(r) ==> s < r <= b.len(),
{
    lemma_markers();
    if has_at(b, s, last_week()) && !has_at(b, s, today()) && !has_at(b, s, yesterday()) {
        if s + 7 < b.len() {
            lemma_continuation_end(b, s + 8);
        }
    }
}

pub proof fn lemma_clock_end(b: Seq<u8>, r: int)
    requires
        0 <= r <= b.len(),
    ensures
        clock_end(b, r) matches Some(e) ==> r < e <= b.len() && is_ascii_digit(b[e - 1]),
{
    if 0 <= r < b.len() && b[r] == 0x20 {
        lemma_digits_end(b, r + 1);
        let c1 = digits_end(b, r + 1);
        if c1 > r + 1 && c1 < b.len() && b[c1] == 0x3A {
            lemma_digits_end(b, c1 + 1);
        }
    }
}

pub proof fn lemma_date_end(b: Seq<u8>, s: int)
    requires
        0 <= s <= b.len(),
    ensures
        date_end(b, s) matches Some(e) ==> s < e <= b.len() && is_ascii_digit(b[e - 1]),
{
    lemma_digits_end(b, s);
    let d1 = digits_end(b, s);
    if d1 > s && d1 < b.len() && b[d1] == 0x2F {
        lemma_digits_end(b, d1 + 1);
        let d2 = digits_end(b, d1 + 1);
        if d2 > d1 + 1 && d2 < b.len() && b[d2] == 0x2F {
            lemma_digits_end(b, d2 + 1);
        }
    }
}

pub proof fn lemma_stamp_end(b: Seq<u8>, s: int)
    requires
        0 <= s <= b.len(),
    ensures
        stamp_end(b, s) matches Some(e) ==> s < e <= b.len() && is_ascii_digit(b[e - 1]),
{
    lemma_date_end(b, s);
    lemma_day_end(b, s);
    if let Some(r) = day_end(b, s) {
        lemma_clock_end(b, r);
    }
}

pub proof fn lemma_nameplate_at(b: Seq<u8>, p: int)
    requires
        0 <= p <= b.len(),
    ensures
        nameplate_at(b, p) matches Some((q, a)) ==> {
            &&& p <= q
            &&& q + 3 < a <= b.len()
            &&& has_at(b, q, name_separator())
            &&& is_ascii_digit(b[a - 1])
        },
{
    lemma_markers();
    lemma_find_from(b, p, name_separator());
    let q = find_from(b, p, name_separator());
    if q < b.len() {
        lemma_stamp_end(b, q + 3);
    }
}

pub proof fn lemma_next_nameplate(b: Seq<u8>, e: int)
    requires
        0 <= e <= b.len(),
    ensures
        e <= next_nameplate(b, e) <= b.len(),
        next_nameplate(b, e) < b.len() ==> !is_continuation(b[next_nameplate(b, e)]),
    decreases b.len() - e,
{
    if e < b.len() && !(!is_continuation(b[e]) && nameplate_at(b, e) is Some) {
        lemma_next_nameplate(b, e + 1);
    }
}

/// A clock time is a space, one or more digits `0`..`9`, a colon and one or
/// more digits: at `r` it ends after the last digit of the second run.
pub proof fn law_clock_time(b: Seq<u8>, r: int, d1: int, d2: int)
    requires
        0 <= r < d1 - 1,
        d1 < d2 - 1,
        d2 <= b.len(),
        b[r] == 0x20,
        b[d1] == 0x3A,
        forall|i: int| r < i < d1 ==> 0x30 <= #[trigger] b[i] <= 0x39,
        forall|i: int| d1 < i < d2 ==> 0x30 <= #[trigger] b[i] <= 0x39,
        d2 == b.len() || !(0x30 <= b[d2] <= 0x39),
    ensures
        clock_end(b, r) == Some(d2),
{
    law_digits_end_at(b, r + 1, d1);
    law_digits_end_at(b, d1 + 1, d2);
}

/// The name of a plate at `p` ends at `q` where ` - ` first occurs, when the
/// bytes `p..q` hold no line break.
proof fn lemma_plate_name(b: Seq<u8>, p: int, q: int)
    requires
        0 <= p <= q,
        q + 3 <= b.len(),
        b.subrange(q, q + 3) == seq![0x20u8, 0x2Du8, 0x20u8],
        forall|k: int| p <= k < q ==> #[trigger] b.subrange(k, k + 3) != seq![0x20u8, 0x2Du8, 0x20u8],
        forall|k: int| p <= k < q ==> #[trigger] b[k] != 0x0A && b[k] != 0x0D,
    ensures
        find_from(b, p, name_separator()) == q,
        no_line_break(b.subrange(p, q)),
{
    lemma_markers();
    lemma_find_first(b, p, q, name_separator());
    assert forall|i: int| 0 <= i < q - p implies #[trigger] b.subrange(p, q)[i] != 0x0A
        && b.subrange(p, q)[i] != 0x0D by {
        assert(b.subrange(p, q)[i] == b[p + i]);
    }
}

/// A name plate is a name without line break or ` - `, then ` - `, `今日` or
/// `昨日`, a space, digits `0`..`9`, a colon and digits: it ends after the last
/// digit, whatever the digits are.
pub proof fn law_nameplate_with_clock(b: Seq<u8>, p: int, q: int, d1: int, d2: int)
    requires
        0 <= p <= q,
        q + 10 < d1,
        d1 + 1 < d2 <= b.len(),
        b.subrange(q, q + 3) == seq![0x20u8, 0x2Du8, 0x20u8],
        forall|k: int| p <= k < q ==> #[trigger] b.subrange(k, k + 3) != seq![0x20u8, 0x2Du8, 0x20u8],
        forall|k: int| p <= k < q ==> #[trigger] b[k] != 0x0A && b[k] != 0x0D,
        b.subrange(q + 3, q + 9) == encode_utf8(seq!['今', '日']) || b.subrange(q + 3, q + 9)
            == encode_utf8(seq!['昨', '日']),
        b[q + 9] == 0x20,
        forall|i: int| q + 9 < i < d1 ==> 0x30 <= #[trigger] b[i] <= 0x39,
        b[d1] == 0x3A,
        forall|i: int| d1 < i < d2 ==> 0x30 <= #[trigger] b[i] <= 0x39,
        d2 == b.len() || !(0x30 <= b[d2] <= 0x39),
    ensures
        nameplate_at(b, p) == Some((q, d2)),
{
    lemma_markers();
    lemma_plate_name(b, p, q);
    law_clock_time(b, q + 9, d1, d2);
    if b.subrange(q + 3, q + 9) == yesterday() {
        assert(b.subrange(q + 3, q + 9)[0] != today()[0]);
    }
    assert(day_end(b, q + 3) == Some(q + 9));
}

/// A name plate is a name without line break or ` - `, then ` - ` and a date:
/// digits `0`..`9`, `/`, digits, `/`, digits. It ends after the last digit.
pub proof fn law_nameplate_with_date(b: Seq<u8>, p: int, q: int, d1: int, d2: int, d3: int)
    requires
        0 <= p <= q,
        q + 3 < d1,
        d1 + 1 < d2,
        d2 + 1 < d3 <= b.len(),
        b.subrange(q, q + 3) == seq![0x20u8, 0x2Du8, 0x20u8],
        forall|k: int| p <= k < q ==> #[trigger] b.subrange(k, k + 3) != seq![0x20u8, 0x2Du8, 0x20u8],
        forall|k: int| p <= k < q ==> #[trigger] b[k] != 0x0A && b[k] != 0x0D,
        forall|i: int| q + 3 <= i < d1 ==> 0x30 <= #[trigger] b[i] <= 0x39,
        b[d1] == 0x2F,
        forall|i: int| d1 < i < d2 ==> 0x30 <= #[trigger] b[i] <= 0x39,
        b[d2] == 0x2F,
        forall|i: int| d2 < i < d3 ==> 0x30 <= #[trigger] b[i] <= 0x39,
        d3 == b.len() || !(0x30 <= b[d3] <= 0x39),
    ensures
        nameplate_at(b, p) == Some((q, d3)),
{
    lemma_markers();
    lemma_plate_name(b, p, q);
    law_digits_end_at(b, q + 3, d1);
    law_digits_end_at(b, d1 + 1, d2);
    law_digits_end_at(b, d2 + 1, d3);
    assert(0x30 <= b[q + 3] <= 0x39);
    assert(!has_at(b, q + 3, today())) by {
        if has_at(b, q + 3, today()) {
            assert(b.subrange(q + 3, q + 9)[0] == b[q + 3]);
        }
    }
    assert(!has_at(b, q + 3, yesterday())) by {
        if has_at(b, q + 3, yesterday()) {
            assert(b.subrange(q + 3, q + 9)[0] == b[q + 3]);
        }
    }
    assert(!has_at(b, q + 3, last_week())) by {
        if has_at(b, q + 3, last_week()) {
            assert(b.subrange(q + 3, q + 10)[0] == b[q + 3]);
        }
    }
    assert(day_end(b, q + 3) is None);
}

/// The first index at or after `a` that starts a character and a name plate
/// (or the end, when there is none) is `e`.
proof fn lemma_next_nameplate_is_first(b: Seq<u8>, a: int, e: int)
    requires
        0 <= a <= e <= b.len(),
        e == b.len() || (!is_continuation(b[e]) && nameplate_at(b, e) is Some),
        forall|i: int|
            a <= i < e ==> is_continuation(#[trigger] b[i]) || nameplate_at(b, i) is None,
    ensures
        next_nameplate(b, a) == e,
    decreases e - a,
{
    if a < e {
        assert(is_continuation(b[a]) || nameplate_at(b, a) is None);
        lemma_next_nameplate_is_first(b, a + 1, e);
    }
}

/// A message of a copied log runs from its name plate to the next character
/// that opens a name plate, however far away that is, or to the end of the log
/// when none does; the messages after it are read from there.
pub proof fn law_copied_message_runs_to_next_plate(b: Seq<u8>, p: int, q: int, a: int, e: int)
    requires
        0 <= p <= b.len(),
        nameplate_at(b, p) == Some((q, a)),
        a <= e <= b.len(),
        e == b.len() || (!is_continuation(b[e]) && nameplate_at(b, e) is Some),
        forall|i: int|
            a <= i < e ==> is_continuation(#[trigger] b[i]) || nameplate_at(b, i) is None,
    ensures
        copied_segments(b, p) == seq![(b.subrange(p, q), b.subrange(a, e))] + copied_segments(
            b,
            e,
        ),
{
    lemma_nameplate_at(b, p);
    lemma_next_nameplate_is_first(b, a, e);
}

/// Where no name plate opens the log, nothing is read from it.
pub proof fn law_copied_needs_plate(b: Seq<u8>, p: int)
    requires
        0 <= p <= b.len(),
        nameplate_at(b, p) is None,
    ensures
        copied_segments(b, p) == Seq::<(Seq<u8>, Seq<u8>)>::empty(),
{
}

// ---------------------------------------------------------------------------
// Reading.
/// An optional index as a mathematical one.
pub open spec fn opt_index(o: Option<usize>) -> Option<int> {
    match o {
        Some(i) => Some(i as int),
        None => None,
    }
}

/// An optional pair of indices as mathematical ones.
pub open spec fn opt_indices(o: Option<(usize, usize)>) -> Option<(int, int)> {
    match o {
        Some((i, j)) => Some((i as int, j as int)),
        None => None,
    }
}

fn main_tag_bytes() -> (r: [u8; 6])
    ensures
        r@ == main_tag(),
{
    proof {
        lemma_markers();
    }
    [0x5B, 0x6D, 0x61, 0x69, 0x6E, 0x5D]
}

fn colon_bytes() -> (r: [u8; 1])
    ensures
        r@ == colon(),
{
    proof {
        lemma_markers();
    }
    [0x3A]
}

fn name_separator_bytes() -> (r: [u8; 3])
    ensures
        r@ == name_separator(),
{
    proof {
        lemma_markers();
    }
    [0x20, 0x2D, 0x20]
}

fn today_bytes() -> (r: [u8; 6])
    ensures
        r@ == today(),
{
    proof {
        lemma_markers();
    }
    [0xE4, 0xBB, 0x8A, 0xE6, 0x97, 0xA5]
}

fn yesterday_bytes() -> (r: [u8; 6])
    ensures
        r@ == yesterday(),
{
    proof {
        lemma_markers();
    }
    [0xE6, 0x98, 0xA8, 0xE6, 0x97, 0xA5]
}

fn last_week_bytes() -> (r: [u8; 7])
    ensures
        r@ == last_week(),
{
    proof {
        lemma_markers();
    }
    [0xE5, 0x85, 0x88, 0xE9, 0x80, 0xB1, 0x20]
}

fn weekday_suffix_bytes() -> (r: [u8; 6])
    ensures
        r@ == weekday_suffix(),
{
    proof {
        lemma_markers();
    }
    [0xE6, 0x9B, 0x9C, 0xE6, 0x97, 0xA5]
}

/// A clock time at `r`: the index after it.
fn read_clock(b: &[u8], r: usize) -> (res: Option<usize>)
    requires
        r <= b@.len(),
    ensures
        opt_index(res) == clock_end(b@, r as int),
{
    if r < b.len() && b[r] == 0x20 {
        let d1 = skip_digits(b, r + 1);
        if d1 > r + 1 && d1 < b.len() && b[d1] == 0x3A {
            let d2 = skip_digits(b, d1 + 1);
            if d2 > d1 + 1 {
                return Some(d2);
            }
        }
    }
    None
}

/// A day at `s`: the index after it.
fn read_day(b: &[u8], s: usize) -> (res: Option<usize>)
    requires
        s <= b@.len(),
    ensures
        opt_index(res) == day_end(b@, s as int),
{
    let n = b.len();
    proof {
        lemma_markers();
    }
    if matches_at(b, s, &today_bytes()) {
        Some(s + 6)
    } else if matches_at(b, s, &yesterday_bytes()) {
        Some(s + 6)
    } else if matches_at(b, s, &last_week_bytes()) {
        let t = s + 7;
        if t < n {
            let u = skip_continuations(b, t + 1);
            proof {
                lemma_continuation_end(b@, t + 1);
            }
            if matches_at(b, u, &weekday_suffix_bytes()) {
                return Some(u + 6);
            }
        }
        None
    } else {
        None
    }
}

/// A date at `s`: the index after it.
fn read_date(b: &[u8], s: usize) -> (res: Option<usize>)
    requires
        s <= b@.len(),
    ensures
        opt_index(res) == date_end(b@, s as int),
{
    let d1 = skip_digits(b, s);
    if d1 > s && d1 < b.len() && b[d1] == 0x2F {
        let d2 = skip_digits(b, d1 + 1);
        if d2 > d1 + 1 && d2 < b.len() && b[d2] == 0x2F {
            let d3 = skip_digits(b, d2 + 1);
            if d3 > d2 + 1 {
                return Some(d3);
            }
        }
    }
    None
}

/// A time stamp at `s`: the index after it.
fn read_stamp(b: &[u8], s: usize) -> (res: Option<usize>)
    requires
        s <= b@.len(),
    ensures
        opt_index(res) == stamp_end(b@, s as int),
{
    proof {
        lemma_day_end(b@, s as int);
    }
    match read_day(b, s) {
        Some(r) => match read_clock(b, r) {
            Some(e) => Some(e),
            None => read_date(b, s),
        },
        None => read_date(b, s),
    }
}

/// No line break occurs in the bytes `p..q`.
fn lacks_line_break(b: &[u8], p: usize, q: usize) -> (r: bool)
    requires
        p <= q <= b@.len(),
    ensures
        r == no_line_break(b@.subrange(p as int, q as int)),
{
    let mut i = p;
    while i < q
        invariant
            p <= i <= q <= b@.len(),
            forall|k: int| p <= k < i ==> b@[k] != 0x0A && b@[k] != 0x0D,
        decreases q - i,
    {
        if b[i] == 0x0A || b[i] == 0x0D {
            assert(b@.subrange(p as int, q as int)[i - p] == b@[i as int]);
            return false;
        }
        i += 1;
    }
    assert forall|k: int| 0 <= k < q - p implies #[trigger] b@.subrange(p as int, q as int)[k]
        != 0x0A && b@.subrange(p as int, q as int)[k] != 0x0D by {
        assert(b@.subrange(p as int, q as int)[k] == b@[p + k]);
    }
    true
}

/// A name plate at `p`: the end of the name and the end of the plate.
fn read_nameplate(b: &[u8], p: usize) -> (res: Option<(usize, usize)>)
    requires
        p <= b@.len(),
    ensures
        opt_indices(res) == nameplate_at(b@, p as int),
{
    proof {
        lemma_markers();
    }
    let q = find_pattern(b, p, &name_separator_bytes());
    proof {
        lemma_find_from(b@, p as int, name_separator());
    }
    if q < b.len() && lacks_line_break(b, p, q) {
        match read_stamp(b, q + 3) {
            Some(e) => Some((q, e)),
            None => None,
        }
    } else {
        None
    }
}

/// Whether `e` starts a character and a name plate.
fn opens_message(b: &[u8], e: usize) -> (r: bool)
    requires
        e <= b@.len(),
    ensures
        r == (e < b@.len() && !is_continuation(b@[e as int]) && nameplate_at(b@, e as int) is Some),
{
    e < b.len() && !(b[e] >= 0x80 && b[e] <= 0xBF) && read_nameplate(b, e).is_some()
}

/// The first index at or after `e` that starts a character and a name plate, or the end.
fn find_next_nameplate(b: &[u8], e: usize) -> (r: usize)
    requires
        e <= b@.len(),
    ensures
        r == next_nameplate(b@, e as int),
{
    let mut i = e;
    while i < b.len() && !opens_message(b, i)
        invariant
            e <= i <= b@.len(),
            next_nameplate(b@, e as int) == next_nameplate(b@, i as int),
        decreases b@.len() - i,
    {
        i += 1;
    }
    i
}

/// Reads an exported HTML log: the speaker and the content of each message,
/// each trimmed, in the order of the log.
pub fn analyse_html_log<'s>(log: &'s str) -> (r: Result<Vec<(&'s str, &'s str)>, LogParseError>)
    ensures
        r matches Ok(v) && messages_view(v@) == html_log(log@),
{
    let t = trim_str(log);
    let b = t.as_bytes();
    let tag = main_tag_bytes();
    let col = colon_bytes();
    let mut out: Vec<(&'s str, &'s str)> = Vec::new();
    let mut p: usize = 0;
    let ghost f = |seg: (Seq<u8>, Seq<u8>)| html_message(seg);
    proof {
        lemma_markers();
        assert(messages_view(out@) + html_segments(b@, 0).map_values(f) =~= html_segments(
            b@,
            0,
        ).map_values(f));
    }
    loop
        invariant
            p <= b@.len(),
            b@ == encode_utf8(t@),
            t@ == trim_ws(log@),
            tag@ == main_tag(),
            col@ == colon(),
            main_tag() == seq![0x5Bu8, 0x6Du8, 0x61u8, 0x69u8, 0x6Eu8, 0x5Du8],
            colon() == seq![0x3Au8],
            f == (|seg: (Seq<u8>, Seq<u8>)| html_message(seg)),
            messages_view(out@) + html_segments(b@, p as int).map_values(f) == html_segments(
                b@,
                0,
            ).map_values(f),
        ensures
            messages_view(out@) == html_log(log@),
        decreases b@.len() - p,
    {
        let n = b.len();
        if !matches_at(b, p, &tag) {
            assert(messages_view(out@) =~= messages_view(out@) + html_segments(
                b@,
                p as int,
            ).map_values(f));
            break;
        }
        let q = find_pattern(b, p + 6, &col);
        proof {
            lemma_find_from(b@, p + 6, colon());
        }
        if q == n {
            assert(messages_view(out@) =~= messages_view(out@) + html_segments(
                b@,
                p as int,
            ).map_values(f));
            break;
        }
        let e = find_pattern(b, q + 1, &tag);
        proof {
            lemma_find_from(b@, q + 1, main_tag());
            assert(b@.subrange(p as int, p + 6)[5] == b@[p + 5]);
            lemma_after_ascii(b@, p + 5);
            assert(b@.subrange(q as int, q + 1)[0] == b@[q as int]);
            lemma_after_ascii(b@, q as int);
            if e < b.len() {
                assert(b@.subrange(e as int, e + 6)[0] == b@[e as int]);
            }
        }
        let name = trim_str(sub_str(t, p + 6, q));
        let content = trim_str(sub_str(t, q + 1, e));
        let ghost before = out@;
        out.push((name, content));
        proof {
            let seg = (b@.subrange(p + 6, q as int), b@.subrange(q + 1, e as int));
            assert(html_segments(b@, p as int) == seq![seg] + html_segments(b@, e as int));
            assert(html_segments(b@, p as int).map_values(f) =~= seq![html_message(seg)]
                + html_segments(b@, e as int).map_values(f));
            assert(messages_view(out@) =~= messages_view(before) + seq![html_message(seg)]);
        }
        p = e;
    }
    Ok(out)
}

/// Reads text copied from the chat pane: the speaker of each message as its
/// name plate gives it, and the content trimmed, in the order of the log.
pub fn analyse_copied_text_log<'s>(log: &'s str) -> (r: Result<
    Vec<(&'s str, &'s str)>,
    LogParseError,
>)
    ensures
        r matches Ok(v) && messages_view(v@) == copied_log(log@),
{
    let t = trim_str(log);
    let b = t.as_bytes();
    let mut out: Vec<(&'s str, &'s str)> = Vec::new();
    let mut p: usize = 0;
    let ghost f = |seg: (Seq<u8>, Seq<u8>)| copied_message(seg);
    proof {
        lemma_markers();
        lemma_start_boundary(b@);
        assert(messages_view(out@) + copied_segments(b@, 0).map_values(f) =~= copied_segments(
            b@,
            0,
        ).map_values(f));
    }
    loop
        invariant
            p <= b@.len(),
            at_boundary(b@, p as int),
            b@ == encode_utf8(t@),
            t@ == trim_ws(log@),
            name_separator() == seq![0x20u8, 0x2Du8, 0x20u8],
            f == (|seg: (Seq<u8>, Seq<u8>)| copied_message(seg)),
            messages_view(out@) + copied_segments(b@, p as int).map_values(f) == copied_segments(
                b@,
                0,
            ).map_values(f),
        ensures
            messages_view(out@) == copied_log(log@),
        decreases b@.len() - p,
    {
        match read_nameplate(b, p) {
            None => {
                assert(messages_view(out@) =~= messages_view(out@) + copied_segments(
                    b@,
                    p as int,
                ).map_values(f));
                break;
            },
            Some((q, a)) => {
                proof {
                    lemma_nameplate_at(b@, p as int);
                }
                let e = find_next_nameplate(b, a);
                proof {
                    lemma_next_nameplate(b@, a as int);
                    assert(b@.subrange(q as int, q + 3)[0] == b@[q as int]);
                    lemma_after_ascii(b@, a - 1);
                }
                let name = sub_str(t, p, q);
                let content = trim_str(sub_str(t, a, e));
                let ghost before = out@;
                out.push((name, content));
                proof {
                    let seg = (b@.subrange(p as int, q as int), b@.subrange(a as int, e as int));
                    assert(copied_segments(b@, p as int) == seq![seg] + copied_segments(
                        b@,
                        e as int,
                    ));
                    assert(copied_segments(b@, p as int).map_values(f) =~= seq![
                        copied_message(seg),
                    ] + copied_segments(b@, e as int).map_values(f));
                    assert(messages_view(out@) =~= messages_view(before) + seq![
                        copied_message(seg),
                    ]);
                }
                p = e;
            },
        }
    }
    Ok(out)
}

} // verus!
