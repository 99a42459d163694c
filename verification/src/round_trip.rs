//! Reading an export back: an export of a log, read as an HTML log, gives the
//! records of the log again, each with its name and text trimmed.

use vstd::prelude::*;
use vstd::utf8::*;

use crate::bytes::{find_from, has_at, lemma_find_first, lemma_find_from};
use crate::log_parser::{html_log, html_message, html_segments};
use crate::log_analyser::{
    export_closing, export_opening, export_record, export_records, export_separator,
};
use crate::markers::{colon, lemma_low_bits, lemma_markers, main_tag};
use crate::text::lemma_encode_concat;
use crate::text::{is_white_space, lemma_trim_end_result, trim_end_ws, trim_start_ws, trim_ws};

verus! {

/// Every character of `w` is white space.
pub open spec fn all_white_space(w: Seq<char>) -> bool {
    forall|i: int| 0 <= i < w.len() ==> is_white_space(#[trigger] w[i])
}

/// White space before a text is trimmed away from its start.
proof fn lemma_trim_start_pad(w: Seq<char>, s: Seq<char>)
    requires
        all_white_space(w),
    ensures
        trim_start_ws(w + s) == trim_start_ws(s),
    decreases w.len(),
{
    if w.len() > 0 {
        assert((w + s)[0] == w[0]);
        assert((w + s).drop_first() =~= w.drop_first() + s);
        lemma_trim_start_pad(w.drop_first(), s);
    } else {
        assert(w + s =~= s);
    }
}

/// White space after a text is trimmed away from its end.
proof fn lemma_trim_end_pad(s: Seq<char>, w: Seq<char>)
    requires
        all_white_space(w),
    ensures
        trim_end_ws(s + w) == trim_end_ws(s),
    decreases w.len(),
{
    if w.len() > 0 {
        assert((s + w).last() == w.last());
        assert((s + w).drop_last() =~= s + w.drop_last());
        lemma_trim_end_pad(s, w.drop_last());
    } else {
        assert(s + w =~= s);
    }
}

/// Trimming the start of a text followed by `w`.
proof fn lemma_trim_start_append(s: Seq<char>, w: Seq<char>)
    ensures
        trim_start_ws(s + w) == if trim_start_ws(s).len() > 0 {
            trim_start_ws(s) + w
        } else {
            trim_start_ws(w)
        },
    decreases s.len(),
{
    if s.len() == 0 {
        assert(s + w =~= w);
    } else {
        assert((s + w)[0] == s[0]);
        if is_white_space(s[0]) {
            assert((s + w).drop_first() =~= s.drop_first() + w);
            lemma_trim_start_append(s.drop_first(), w);
        }
    }
}

/// Any text padded with white space trims as the text does.
proof fn lemma_trim_padded_any(w1: Seq<char>, s: Seq<char>, w2: Seq<char>)
    requires
        all_white_space(w1),
        all_white_space(w2),
    ensures
        trim_ws(w1 + s + w2) == trim_ws(s),
{
    assert(w1 + s + w2 =~= w1 + (s + w2));
    lemma_trim_start_pad(w1, s + w2);
    lemma_trim_start_append(s, w2);
    if trim_start_ws(s).len() > 0 {
        lemma_trim_end_pad(trim_start_ws(s), w2);
    } else {
        lemma_trim_start_pad(w2, Seq::<char>::empty());
        assert(w2 + Seq::<char>::empty() =~= w2);
        assert(trim_start_ws(Seq::<char>::empty()) == Seq::<char>::empty());
        assert(trim_start_ws(s) == Seq::<char>::empty());
    }
}

/// Trimming the end first does not change the trimmed text.
proof fn lemma_trim_after_trim_end(t: Seq<char>)
    ensures
        trim_ws(trim_end_ws(t)) == trim_ws(t),
{
    lemma_trim_end_result(t);
    let te = trim_end_ws(t);
    let w = t.subrange(te.len() as int, t.len() as int);
    assert(t =~= Seq::<char>::empty() + te + w);
    assert(all_white_space(Seq::<char>::empty()));
    assert forall|i: int| 0 <= i < w.len() implies is_white_space(#[trigger] w[i]) by {
        assert(w[i] == t[te.len() + i]);
    }
    lemma_trim_padded_any(Seq::<char>::empty(), te, w);
}

proof fn lemma_has_at_shift(a: Seq<u8>, r: Seq<u8>, p: int, pat: Seq<u8>)
    requires
        0 <= p,
    ensures
        has_at(a + r, a.len() + p, pat) == has_at(r, p, pat),
{
    if p + pat.len() <= r.len() {
        assert((a + r).subrange(a.len() + p, a.len() + p + pat.len()) =~= r.subrange(
            p,
            p + pat.len(),
        ));
    }
}

proof fn lemma_find_shift(a: Seq<u8>, r: Seq<u8>, p: int, pat: Seq<u8>)
    requires
        0 <= p <= r.len(),
    ensures
        find_from(a + r, a.len() + p, pat) == a.len() + find_from(r, p, pat),
    decreases r.len() - p,
{
    if p < r.len() {
        lemma_has_at_shift(a, r, p, pat);
        if !has_at(r, p, pat) {
            lemma_find_shift(a, r, p + 1, pat);
        }
    }
}

/// Reading an HTML log after a prefix reads as reading it alone.
proof fn lemma_html_shift(a: Seq<u8>, r: Seq<u8>, p: int)
    requires
        0 <= p <= r.len(),
    ensures
        html_segments(a + r, a.len() + p) == html_segments(r, p),
    decreases r.len() - p,
{
    lemma_markers();
    let b = a + r;
    lemma_has_at_shift(a, r, p, main_tag());
    if has_at(r, p, main_tag()) {
        lemma_find_shift(a, r, p + 6, colon());
        lemma_find_from(r, p + 6, colon());
        let q = find_from(r, p + 6, colon());
        if q < r.len() {
            lemma_find_shift(a, r, q + 1, main_tag());
            lemma_find_from(r, q + 1, main_tag());
            let e = find_from(r, q + 1, main_tag());
            lemma_html_shift(a, r, e);
            assert(b.subrange(a.len() + p + 6, a.len() + q) =~= r.subrange(p + 6, q));
            assert(b.subrange(a.len() + q + 1, a.len() + e) =~= r.subrange(q + 1, e));
        }
    }
}

/// The UTF-8 of ASCII text is its characters as bytes.
proof fn lemma_encode_ascii(s: Seq<char>)
    requires
        forall|i: int| 0 <= i < s.len() ==> (#[trigger] s[i] as u32) < 0x80,
    ensures
        encode_utf8(s) == s.map_values(|c: char| (c as u32) as u8),
    decreases s.len(),
{
    if s.len() > 0 {
        let u = s[0] as u32;
        lemma_low_bits(u);
        lemma_encode_ascii(s.drop_first());
        assert(has_width_1_encoding(u));
        assert(encode_scalar(u) =~= seq![u as u8]);
        assert(encode_utf8(s) == encode_scalar(u) + encode_utf8(s.drop_first()));
        assert(s.map_values(|c: char| (c as u32) as u8) =~= seq![u as u8] + s.drop_first().map_values(
            |c: char| (c as u32) as u8,
        ));
        assert(encode_utf8(s) =~= s.map_values(|c: char| (c as u32) as u8));
    } else {
        assert(encode_utf8(s) =~= s.map_values(|c: char| (c as u32) as u8));
    }
}

/// The bytes of the fixed parts of an export.
proof fn lemma_export_bytes()
    ensures
        encode_utf8(export_opening()) == seq![0x5Bu8, 0x6Du8, 0x61u8, 0x69u8, 0x6Eu8, 0x5Du8, 0x20u8],
        encode_utf8(export_separator()) == seq![0x20u8, 0x3Au8, 0x20u8],
        encode_utf8(export_closing()) == seq![0x0Au8, 0x0Au8],
        encode_utf8(seq![' ']) == seq![0x20u8],
        encode_utf8(seq![' ', ':']) == seq![0x20u8, 0x3Au8],
{
    lemma_encode_ascii(export_opening());
    assert(export_opening().map_values(|c: char| (c as u32) as u8) =~= seq![0x5Bu8, 0x6Du8, 0x61u8, 0x69u8, 0x6Eu8, 0x5Du8, 0x20u8]);
    lemma_encode_ascii(export_separator());
    assert(export_separator().map_values(|c: char| (c as u32) as u8) =~= seq![0x20u8, 0x3Au8, 0x20u8]);
    lemma_encode_ascii(export_closing());
    assert(export_closing().map_values(|c: char| (c as u32) as u8) =~= seq![0x0Au8, 0x0Au8]);
    lemma_encode_ascii(seq![' ']);
    assert(seq![' '].map_values(|c: char| (c as u32) as u8) =~= seq![0x20u8]);
    lemma_encode_ascii(seq![' ', ':']);
    assert(seq![' ', ':'].map_values(|c: char| (c as u32) as u8) =~= seq![0x20u8, 0x3Au8]);
}

/// No colon byte occurs in `b`.
pub open spec fn no_colon(b: Seq<u8>) -> bool {
    forall|i: int| 0 <= i < b.len() ==> b[i] != 0x3A
}

/// `[main]` occurs nowhere in `b`.
pub open spec fn no_main_tag(b: Seq<u8>) -> bool {
    forall|j: int| !has_at(b, j, main_tag())
}

/// The UTF-8 of a record as a message of an export, part by part.
proof fn lemma_record_bytes(n: Seq<char>, t: Seq<char>)
    ensures
        encode_utf8(export_record((n, t))) == seq![
            0x5Bu8,
            0x6Du8,
            0x61u8,
            0x69u8,
            0x6Eu8,
            0x5Du8,
            0x20u8,
        ] + encode_utf8(n) + seq![0x20u8, 0x3Au8, 0x20u8] + encode_utf8(t) + seq![0x0Au8, 0x0Au8],
        encode_utf8(seq![' '] + n + seq![' ']) == seq![0x20u8] + encode_utf8(n) + seq![0x20u8],
        encode_utf8(seq![' '] + t + export_closing()) == seq![0x20u8] + encode_utf8(t) + seq![
            0x0Au8,
            0x0Au8,
        ],
        encode_utf8(seq![' '] + t) == seq![0x20u8] + encode_utf8(t),
        encode_utf8(export_opening() + n + seq![' ', ':']) == seq![
            0x5Bu8,
            0x6Du8,
            0x61u8,
            0x69u8,
            0x6Eu8,
            0x5Du8,
            0x20u8,
        ] + encode_utf8(n) + seq![0x20u8, 0x3Au8],
        encode_utf8(export_opening() + n + export_separator() + t) == seq![
            0x5Bu8,
            0x6Du8,
            0x61u8,
            0x69u8,
            0x6Eu8,
            0x5Du8,
            0x20u8,
        ] + encode_utf8(n) + seq![0x20u8, 0x3Au8, 0x20u8] + encode_utf8(t),
{
    lemma_export_bytes();
    let o = export_opening();
    let sp = export_separator();
    let c = export_closing();
    lemma_encode_concat(o, n);
    lemma_encode_concat(o + n, sp);
    lemma_encode_concat(o + n + sp, t);
    lemma_encode_concat(o + n + sp + t, c);
    lemma_encode_concat(o + n, seq![' ', ':']);
    lemma_encode_concat(seq![' '], n);
    lemma_encode_concat(seq![' '] + n, seq![' ']);
    lemma_encode_concat(seq![' '], t);
    lemma_encode_concat(seq![' '] + t, c);
}

/// One message of an export, followed by the rest of a log that is empty or
/// opens a message, reads as the message's padded name and content, then
/// the rest.
proof fn lemma_message(n: Seq<char>, t: Seq<char>, r: Seq<u8>)
    requires
        no_colon(encode_utf8(n)),
        no_main_tag(encode_utf8(t)),
        r.len() == 0 || has_at(r, 0, main_tag()),
    ensures
        html_segments(encode_utf8(export_record((n, t))) + r, 0) == seq![
            (encode_utf8(seq![' '] + n + seq![' ']), encode_utf8(seq![' '] + t + export_closing())),
        ] + html_segments(r, 0),
{
    lemma_markers();
    lemma_record_bytes(n, t);
    let en = encode_utf8(n);
    let et = encode_utf8(t);
    let a = encode_utf8(export_record((n, t)));
    let b = a + r;
    let ln = en.len() as int;
    let lt = et.len() as int;
    let m = main_tag();
    assert(a.len() == ln + lt + 12);
    assert(b.subrange(0, 6) =~= m);
    // the colon after the name
    assert(b[ln + 8] == 0x3A);
    assert(b.subrange(ln + 8, ln + 9) =~= colon());
    assert forall|k: int| 6 <= k < ln + 8 implies !has_at(b, k, colon()) by {
        if has_at(b, k, colon()) {
            assert(b.subrange(k, k + 1)[0] == b[k]);
            if 7 <= k < 7 + ln {
                assert(b[k] == en[k - 7]);
            }
        }
    }
    lemma_find_first(b, 6, ln + 8, colon());
    // the next message
    if r.len() > 0 {
        lemma_has_at_shift(a, r, 0, m);
    }
    assert forall|k: int| ln + 9 <= k < a.len() implies !has_at(b, k, m) by {
        if has_at(b, k, m) {
            assert(b.subrange(k, k + 6)[0] == b[k]);
            if ln + 10 <= k < ln + 10 + lt {
                if k + 6 <= ln + 10 + lt {
                    assert(et.subrange(k - (ln + 10), k - (ln + 10) + 6) =~= b.subrange(k, k + 6));
                    assert(has_at(et, k - (ln + 10), m));
                } else {
                    let c = ln + 10 + lt;
                    assert(b.subrange(k, k + 6)[c - k] == b[c]);
                    assert(b[c] == 0x0A);
                }
            }
        }
    }
    lemma_find_first(b, ln + 9, a.len() as int, m);
    lemma_html_shift(a, r, 0);
    assert(b.subrange(6, ln + 8) =~= seq![0x20u8] + en + seq![0x20u8]);
    assert(b.subrange(ln + 9, a.len() as int) =~= seq![0x20u8] + et + seq![0x0Au8, 0x0Au8]);
    assert(a.len() + 0 == a.len());
}

/// A last message with the text `u` after the colon: when `u` is empty, the
/// space after the colon is gone too.
pub open spec fn last_form(n: Seq<char>, u: Seq<char>) -> Seq<char> {
    if u.len() == 0 {
        export_opening() + n + seq![' ', ':']
    } else {
        export_opening() + n + export_separator() + u
    }
}

/// The last message of an export once the export is trimmed: its text loses
/// its trailing white space, and the space after the colon goes with it when
/// nothing is left.
pub open spec fn trimmed_last_message(r: (Seq<char>, Seq<char>)) -> Seq<char> {
    last_form(r.0, trim_end_ws(r.1))
}

/// An export of a non-empty list of records once trimmed.
pub open spec fn trimmed_export(rs: Seq<(Seq<char>, Seq<char>)>) -> Seq<char> {
    export_records(rs.drop_last()) + trimmed_last_message(rs.last())
}

/// The last message of a trimmed export reads as its padded name and content.
proof fn lemma_last_message(n: Seq<char>, t: Seq<char>)
    requires
        no_colon(encode_utf8(n)),
        no_main_tag(encode_utf8(t)),
    ensures
        html_segments(encode_utf8(last_form(n, t)), 0) == seq![
            (
                encode_utf8(seq![' '] + n + seq![' ']),
                encode_utf8(if t.len() == 0 { seq![] } else { seq![' '] + t }),
            ),
        ],
{
    lemma_markers();
    lemma_record_bytes(n, t);
    let en = encode_utf8(n);
    let et = encode_utf8(t);
    let b = encode_utf8(last_form(n, t));
    let ln = en.len() as int;
    let lt = et.len() as int;
    let m = main_tag();
    assert(b.subrange(0, 6) =~= m);
    assert(b[ln + 8] == 0x3A);
    assert(b.subrange(ln + 8, ln + 9) =~= colon());
    assert forall|k: int| 6 <= k < ln + 8 implies !has_at(b, k, colon()) by {
        if has_at(b, k, colon()) {
            assert(b.subrange(k, k + 1)[0] == b[k]);
            if 7 <= k < 7 + ln {
                assert(b[k] == en[k - 7]);
            }
        }
    }
    lemma_find_first(b, 6, ln + 8, colon());
    assert forall|k: int| ln + 9 <= k < b.len() implies !has_at(b, k, m) by {
        if has_at(b, k, m) {
            assert(b.subrange(k, k + 6)[0] == b[k]);
            if ln + 10 <= k {
                assert(et.subrange(k - (ln + 10), k - (ln + 10) + 6) =~= b.subrange(k, k + 6));
                assert(has_at(et, k - (ln + 10), m));
            }
        }
    }
    lemma_find_first(b, ln + 9, b.len() as int, m);
    assert(b.subrange(6, ln + 8) =~= seq![0x20u8] + en + seq![0x20u8]);
    if t.len() == 0 {
        assert(b.subrange(ln + 9, b.len() as int) =~= Seq::<u8>::empty());
        assert(encode_utf8(Seq::<char>::empty()) == Seq::<u8>::empty());
    } else {
        assert(b.subrange(ln + 9, b.len() as int) =~= seq![0x20u8] + et);
    }
    assert(html_segments(b, b.len() as int) == Seq::<(Seq<u8>, Seq<u8>)>::empty());
}

/// An export lists its first record first.
proof fn lemma_export_front(rs: Seq<(Seq<char>, Seq<char>)>)
    requires
        rs.len() > 0,
    ensures
        export_records(rs) == export_record(rs[0]) + export_records(rs.drop_first()),
    decreases rs.len(),
{
    if rs.len() == 1 {
        assert(rs.drop_last() =~= Seq::<(Seq<char>, Seq<char>)>::empty());
        assert(rs.drop_first() =~= Seq::<(Seq<char>, Seq<char>)>::empty());
        assert(export_records(rs.drop_last()) == Seq::<char>::empty());
        assert(rs.last() == rs[0]);
        assert(export_records(rs) =~= export_record(rs[0]));
        assert(export_record(rs[0]) + export_records(rs.drop_first()) =~= export_record(rs[0]));
    } else {
        lemma_export_front(rs.drop_last());
        assert(rs.drop_last().drop_first() =~= rs.drop_first().drop_last());
        assert(rs.drop_first().last() == rs.last());
        assert(rs.drop_last()[0] == rs[0]);
        assert(export_records(rs) =~= export_record(rs[0]) + export_records(rs.drop_first()));
    }
}

/// A non-empty export starts with the opening of its first message.
proof fn lemma_export_opens(rs: Seq<(Seq<char>, Seq<char>)>)
    requires
        rs.len() > 0,
    ensures
        export_records(rs).subrange(0, 7) == export_opening(),
        trimmed_export(rs).subrange(0, 7) == export_opening(),
{
    lemma_export_front(rs);
    let r0 = rs[0];
    assert(export_record(r0) == export_opening() + r0.0 + export_separator() + r0.1
        + export_closing());
    assert(export_records(rs).subrange(0, 7) =~= export_opening());
    if rs.len() == 1 {
        assert(rs.drop_last() =~= Seq::<(Seq<char>, Seq<char>)>::empty());
        assert(trimmed_export(rs).subrange(0, 7) =~= export_opening());
    } else {
        lemma_export_front(rs.drop_last());
        assert(rs.drop_last()[0] == r0);
        assert(trimmed_export(rs).subrange(0, 7) =~= export_opening());
    }
}

/// Trimming an export removes the line feeds at its end with the white space
/// that ends the last text, and the space after the last colon when nothing of
/// that text is left.
#[verifier::rlimit(50)]
proof fn lemma_trim_export(rs: Seq<(Seq<char>, Seq<char>)>)
    requires
        rs.len() > 0,
    ensures
        trim_ws(export_records(rs)) == trimmed_export(rs),
{
    let x = export_records(rs);
    lemma_export_opens(rs);
    assert(x[0] == x.subrange(0, 7)[0]);
    assert(trim_start_ws(x) == x);
    let (n, t) = rs.last();
    let head = export_records(rs.drop_last());
    lemma_trim_end_result(t);
    let te = trim_end_ws(t);
    let w = t.subrange(te.len() as int, t.len() as int);
    assert forall|i: int| 0 <= i < w.len() implies is_white_space(#[trigger] w[i]) by {
        assert(w[i] == t[te.len() + i]);
    }
    let a = head + (export_opening() + n + export_separator());
    let y = head + (export_opening() + n + export_separator() + t);
    assert(x =~= y + export_closing());
    lemma_trim_end_pad(y, export_closing());
    assert(y =~= (a + te) + w);
    lemma_trim_end_pad(a + te, w);
    if te.len() > 0 {
        assert((a + te).last() == te.last());
        assert(trim_end_ws(a + te) == a + te);
        assert(trimmed_export(rs) =~= a + te);
    } else {
        assert(a + te =~= a);
        let z = head + (export_opening() + n + seq![' ', ':']);
        assert(a.drop_last() =~= z);
        assert(is_white_space(a.last()));
        assert(trim_end_ws(z) == z);
        assert(trimmed_export(rs) =~= z);
    }
}

/// `pat` occurs in `s`.
pub open spec fn contains_text(s: Seq<char>, pat: Seq<char>) -> bool {
    exists|i: int| 0 <= i && i + pat.len() <= s.len() && #[trigger] s.subrange(i, i + pat.len()) == pat
}

/// A record that an export writes so that it reads back as its trimmed name
/// and text: no colon in the name, no `[main]` in the text.
pub open spec fn exportable(r: (Seq<char>, Seq<char>)) -> bool {
    &&& !r.0.contains(':')
    &&& !contains_text(r.1, seq!['[', 'm', 'a', 'i', 'n', ']'])
}

/// The bytes of a character wider than one byte are not ASCII.
proof fn lemma_wide_bytes(u: u32)
    by (bit_vector)
    ensures
        leading_byte_width_2(u) >= 0x80,
        leading_byte_width_3(u) >= 0x80,
        leading_byte_width_4(u) >= 0x80,
        last_continuation_byte(u) >= 0x80,
        second_last_continuation_byte(u) >= 0x80,
        third_last_continuation_byte(u) >= 0x80,
{
}

/// The UTF-8 of `s` is the UTF-8 of its first character, then of the rest;
/// an ASCII byte in the first part is that character.
proof fn lemma_first_scalar(s: Seq<char>)
    requires
        s.len() > 0,
    ensures
        encode_utf8(s) == encode_scalar(s[0] as u32) + encode_utf8(s.drop_first()),
        1 <= encode_scalar(s[0] as u32).len() <= 4,
        forall|j: int|
            0 <= j < encode_scalar(s[0] as u32).len() && #[trigger] encode_scalar(s[0] as u32)[j]
                < 0x80 ==> j == 0 && (s[0] as u32) < 0x80 && encode_scalar(s[0] as u32)[j] as u32
                == s[0] as u32,
{
    let u = s[0] as u32;
    char_is_scalar(s[0]);
    lemma_wide_bytes(u);
    if u <= 0x7F {
        lemma_low_bits(u);
    }
}

/// An ASCII byte of the UTF-8 of `s` is a character of `s`.
proof fn lemma_ascii_byte_is_char(s: Seq<char>, j: int)
    requires
        0 <= j < encode_utf8(s).len(),
        encode_utf8(s)[j] < 0x80,
    ensures
        exists|i: int| 0 <= i < s.len() && #[trigger] s[i] as u32 == encode_utf8(s)[j] as u32,
    decreases s.len(),
{
    if s.len() == 0 {
        assert(encode_utf8(s).len() == 0);
    } else {
        lemma_first_scalar(s);
        let e0 = encode_scalar(s[0] as u32);
        let rest = s.drop_first();
        if j < e0.len() {
            assert(encode_utf8(s)[j] == e0[j]);
            assert(s[0] as u32 == encode_utf8(s)[j] as u32);
        } else {
            assert(encode_utf8(s)[j] == encode_utf8(rest)[j - e0.len()]);
            lemma_ascii_byte_is_char(rest, j - e0.len());
            let i = choose|i: int| 0 <= i < rest.len() && #[trigger] rest[i] as u32
                == encode_utf8(rest)[j - e0.len()] as u32;
            assert(s[i + 1] == rest[i]);
        }
    }
}

/// A name without a colon has no colon byte.
proof fn lemma_no_colon(n: Seq<char>)
    requires
        !n.contains(':'),
    ensures
        no_colon(encode_utf8(n)),
{
    assert forall|j: int| 0 <= j < encode_utf8(n).len() implies encode_utf8(n)[j] != 0x3A by {
        if encode_utf8(n)[j] == 0x3A {
            lemma_ascii_byte_is_char(n, j);
            let i = choose|i: int| 0 <= i < n.len() && #[trigger] n[i] as u32 == encode_utf8(n)[j] as u32;
            char_u32_cast(n[i], n[i] as u32);
            char_u32_cast(':', 0x3Au32);
            assert(n[i] == ':');
        }
    }
}

/// Where the UTF-8 of ASCII text `p` opens the UTF-8 of `t`, `p` opens `t`.
proof fn lemma_ascii_prefix(t: Seq<char>, p: Seq<char>)
    requires
        forall|k: int| 0 <= k < p.len() ==> (#[trigger] p[k] as u32) < 0x80,
        has_at(encode_utf8(t), 0, encode_utf8(p)),
    ensures
        p.len() <= t.len(),
        t.subrange(0, p.len() as int) == p,
    decreases p.len(),
{
    if p.len() == 0 {
        assert(t.subrange(0, 0) =~= p);
    } else {
        lemma_encode_ascii(p);
        let ep = encode_utf8(p);
        let et = encode_utf8(t);
        assert(ep.len() == p.len());
        assert(et.subrange(0, ep.len() as int)[0] == et[0]);
        if t.len() == 0 {
            assert(et.len() == 0);
        }
        lemma_first_scalar(t);
        lemma_first_scalar(p);
        let e0 = encode_scalar(t[0] as u32);
        assert(et[0] == e0[0]);
        assert(ep[0] == (p[0] as u32) as u8);
        assert(et[0] as u32 == t[0] as u32);
        char_u32_cast(t[0], t[0] as u32);
        char_u32_cast(p[0], p[0] as u32);
        assert(t[0] == p[0]);
        assert(e0.len() == 1);
        let pt = p.drop_first();
        let tt = t.drop_first();
        assert forall|k: int| 0 <= k < pt.len() implies (#[trigger] pt[k] as u32) < 0x80 by {
            assert(pt[k] == p[k + 1]);
        }
        assert(encode_scalar(p[0] as u32).len() == 1);
        assert(encode_utf8(tt).subrange(0, encode_utf8(pt).len() as int) =~= et.subrange(
            0,
            ep.len() as int,
        ).subrange(1, ep.len() as int));
        assert(encode_utf8(pt) =~= ep.subrange(1, ep.len() as int));
        lemma_ascii_prefix(tt, pt);
        assert(t.subrange(0, p.len() as int) =~= seq![t[0]] + tt.subrange(0, pt.len() as int));
        assert(p =~= seq![p[0]] + pt);
    }
}

/// Where `[main]` occurs in the UTF-8 of `t`, it occurs in `t`.
proof fn lemma_tag_in_text(t: Seq<char>, j: int)
    requires
        has_at(encode_utf8(t), j, main_tag()),
    ensures
        contains_text(t, seq!['[', 'm', 'a', 'i', 'n', ']']),
    decreases t.len(),
{
    let pat = seq!['[', 'm', 'a', 'i', 'n', ']'];
    lemma_markers();
    let et = encode_utf8(t);
    assert(et.subrange(j, j + 6)[0] == et[j]);
    if t.len() == 0 {
        assert(et.len() == 0);
    }
    lemma_first_scalar(t);
    let e0 = encode_scalar(t[0] as u32);
    let rest = t.drop_first();
    if j >= e0.len() {
        lemma_has_at_shift(e0, encode_utf8(rest), j - e0.len(), main_tag());
        lemma_tag_in_text(rest, j - e0.len());
        let i = choose|i: int| 0 <= i && i + pat.len() <= rest.len() && #[trigger] rest.subrange(
            i,
            i + pat.len(),
        ) == pat;
        assert(t.subrange(i + 1, i + 1 + pat.len()) =~= rest.subrange(i, i + pat.len()));
    } else {
        assert(et[j] == e0[j]);
        assert(j == 0);
        assert forall|k: int| 0 <= k < pat.len() implies (#[trigger] pat[k] as u32) < 0x80 by {}
        lemma_ascii_prefix(t, pat);
        assert(t.subrange(0, 0 + pat.len() as int) == pat);
    }
}

/// A text without `[main]` has no `[main]` in its UTF-8.
proof fn lemma_no_main_tag(t: Seq<char>)
    requires
        !contains_text(t, seq!['[', 'm', 'a', 'i', 'n', ']']),
    ensures
        no_main_tag(encode_utf8(t)),
{
    assert forall|j: int| !has_at(encode_utf8(t), j, main_tag()) by {
        if has_at(encode_utf8(t), j, main_tag()) {
            lemma_tag_in_text(t, j);
        }
    }
}

/// The texts read from one exported message are the record's, trimmed.
proof fn lemma_read_one(n: Seq<char>, t: Seq<char>)
    requires
        exportable((n, t)),
    ensures
        no_colon(encode_utf8(n)),
        no_main_tag(encode_utf8(t)),
        no_main_tag(encode_utf8(trim_end_ws(t))),
        html_message(
            (encode_utf8(seq![' '] + n + seq![' ']), encode_utf8(seq![' '] + t + export_closing())),
        ) == (trim_ws(n), trim_ws(t)),
        html_message(
            (
                encode_utf8(seq![' '] + n + seq![' ']),
                encode_utf8(
                    if trim_end_ws(t).len() == 0 {
                        seq![]
                    } else {
                        seq![' '] + trim_end_ws(t)
                    },
                ),
            ),
        ) == (trim_ws(n), trim_ws(t)),
{
    let te = trim_end_ws(t);
    let pat = seq!['[', 'm', 'a', 'i', 'n', ']'];
    lemma_trim_end_result(t);
    if contains_text(te, pat) {
        let i = choose|i: int| 0 <= i && i + pat.len() <= te.len() && #[trigger] te.subrange(
            i,
            i + pat.len(),
        ) == pat;
        assert(t.subrange(i, i + pat.len()) =~= te.subrange(i, i + pat.len()));
    }
    lemma_no_colon(n);
    lemma_no_main_tag(t);
    lemma_no_main_tag(te);
    assert(all_white_space(seq![' ']));
    assert(all_white_space(export_closing()));
    assert(all_white_space(Seq::<char>::empty()));
    encode_utf8_decode_utf8(seq![' '] + n + seq![' ']);
    encode_utf8_decode_utf8(seq![' '] + t + export_closing());
    encode_utf8_decode_utf8(seq![' '] + te);
    encode_utf8_decode_utf8(Seq::<char>::empty());
    lemma_trim_padded_any(seq![' '], n, seq![' ']);
    lemma_trim_padded_any(seq![' '], t, export_closing());
    lemma_trim_after_trim_end(t);
    if te.len() == 0 {
        assert(trim_ws(te) == Seq::<char>::empty());
        assert(te =~= Seq::<char>::empty());
    } else {
        lemma_trim_padded_any(seq![' '], te, Seq::<char>::empty());
        assert(seq![' '] + te + Seq::<char>::empty() =~= seq![' '] + te);
    }
}

/// A trimmed export of several records is the first message, then the
/// trimmed export of the others.
proof fn lemma_trimmed_export_front(rs: Seq<(Seq<char>, Seq<char>)>)
    requires
        rs.len() > 1,
    ensures
        trimmed_export(rs) == export_record(rs[0]) + trimmed_export(rs.drop_first()),
{
    let rest = rs.drop_first();
    lemma_export_front(rs.drop_last());
    assert(rs.drop_last().drop_first() =~= rest.drop_last());
    assert(rest.last() == rs.last());
    assert(rs.drop_last()[0] == rs[0]);
    assert(trimmed_export(rs) =~= export_record(rs[0]) + trimmed_export(rest));
}

/// The UTF-8 of a text that opens with `[main] ` opens with `[main]`.
proof fn lemma_opening_tag(x: Seq<char>)
    requires
        x.len() >= 7,
        x.subrange(0, 7) == export_opening(),
    ensures
        has_at(encode_utf8(x), 0, main_tag()),
{
    let tail = x.subrange(7, x.len() as int);
    assert(x =~= export_opening() + tail);
    lemma_encode_concat(export_opening(), tail);
    lemma_export_bytes();
    let open7 = seq![0x5Bu8, 0x6Du8, 0x61u8, 0x69u8, 0x6Eu8, 0x5Du8, 0x20u8];
    let ex = encode_utf8(x);
    assert(ex == open7 + encode_utf8(tail));
    assert(ex.subrange(0, 6) =~= open7.subrange(0, 6));
    lemma_markers();
    assert(open7.subrange(0, 6) =~= main_tag());
}

/// The UTF-8 of a trimmed export opens with `[main]`.
proof fn lemma_trimmed_export_tag(rs: Seq<(Seq<char>, Seq<char>)>)
    requires
        rs.len() > 0,
    ensures
        has_at(encode_utf8(trimmed_export(rs)), 0, main_tag()),
{
    lemma_export_opens(rs);
    lemma_opening_tag(trimmed_export(rs));
}

proof fn lemma_read_trimmed_export(rs: Seq<(Seq<char>, Seq<char>)>)
    requires
        rs.len() > 0,
        forall|k: int| 0 <= k < rs.len() ==> exportable(#[trigger] rs[k]),
    ensures
        html_segments(encode_utf8(trimmed_export(rs)), 0).map_values(
            |seg: (Seq<u8>, Seq<u8>)| html_message(seg),
        ) == rs.map_values(|r: (Seq<char>, Seq<char>)| trimmed_record(r)),
    decreases rs.len(),
{
    let f = |seg: (Seq<u8>, Seq<u8>)| html_message(seg);
    let g = |r: (Seq<char>, Seq<char>)| trimmed_record(r);
    let (n, t) = rs[0];
    assert(exportable(rs[0]));
    lemma_read_one(n, t);
    if rs.len() == 1 {
        assert(rs.drop_last() =~= Seq::<(Seq<char>, Seq<char>)>::empty());
        assert(trimmed_export(rs) =~= last_form(n, trim_end_ws(t)));
        lemma_last_message(n, trim_end_ws(t));
        assert(html_segments(encode_utf8(trimmed_export(rs)), 0).map_values(f) =~= rs.map_values(
            g,
        ));
    } else {
        let rest = rs.drop_first();
        assert forall|k: int| 0 <= k < rest.len() implies exportable(#[trigger] rest[k]) by {
            assert(rest[k] == rs[k + 1]);
        }
        lemma_read_trimmed_export(rest);
        lemma_trimmed_export_front(rs);
        lemma_encode_concat(export_record(rs[0]), trimmed_export(rest));
        let r = encode_utf8(trimmed_export(rest));
        lemma_trimmed_export_tag(rest);
        lemma_message(n, t, r);
        let segs = html_segments(r, 0);
        assert(html_segments(encode_utf8(trimmed_export(rs)), 0) == seq![
            (encode_utf8(seq![' '] + n + seq![' ']), encode_utf8(seq![' '] + t + export_closing())),
        ] + segs);
        assert(html_segments(encode_utf8(trimmed_export(rs)), 0).map_values(f) =~= seq![
            trimmed_record(rs[0]),
        ] + segs.map_values(f));
        assert(seq![trimmed_record(rs[0])] + rest.map_values(g) =~= rs.map_values(g));
    }
}

/// A log of one message `[main]name:content` reads as that message, the name
/// and the content trimmed, whatever their length or spacing, provided the
/// name holds no colon and the content no `[main]`.
pub proof fn law_html_single_message(n: Seq<char>, c: Seq<char>)
    requires
        !n.contains(':'),
        !contains_text(c, seq!['[', 'm', 'a', 'i', 'n', ']']),
    ensures
        html_log(seq!['[', 'm', 'a', 'i', 'n', ']'] + n + seq![':'] + c) == seq![
            (trim_ws(n), trim_ws(c)),
        ],
{
    let tag = seq!['[', 'm', 'a', 'i', 'n', ']'];
    let x = tag + n + seq![':'] + c;
    // trimming the log
    lemma_read_one(n, c);
    lemma_trim_end_result(c);
    let te = trim_end_ws(c);
    let w = c.subrange(te.len() as int, c.len() as int);
    assert forall|i: int| 0 <= i < w.len() implies is_white_space(#[trigger] w[i]) by {
        assert(w[i] == c[te.len() + i]);
    }
    let y = tag + n + seq![':'] + te;
    assert(x =~= y + w);
    assert(x[0] == '[');
    assert(trim_start_ws(x) == x);
    lemma_trim_end_pad(y, w);
    if te.len() > 0 {
        assert(y.last() == te.last());
    } else {
        assert(y.last() == ':');
    }
    assert(trim_end_ws(y) == y);
    assert(trim_ws(x) == y);
    // its bytes
    lemma_markers();
    lemma_export_bytes();
    lemma_encode_ascii(seq![':']);
    assert(seq![':'].map_values(|ch: char| (ch as u32) as u8) =~= seq![0x3Au8]);
    lemma_encode_concat(tag, n);
    lemma_encode_concat(tag + n, seq![':']);
    lemma_encode_concat(tag + n + seq![':'], te);
    let en = encode_utf8(n);
    let et = encode_utf8(te);
    let b = encode_utf8(y);
    let m = main_tag();
    assert(b == m + en + seq![0x3Au8] + et);
    let ln = en.len() as int;
    // reading it
    assert(b.subrange(0, 6) =~= m);
    assert(b.subrange(ln + 6, ln + 7) =~= colon());
    assert forall|k: int| 6 <= k < ln + 6 implies !has_at(b, k, colon()) by {
        if has_at(b, k, colon()) {
            assert(b.subrange(k, k + 1)[0] == b[k]);
            assert(b[k] == en[k - 6]);
        }
    }
    lemma_find_first(b, 6, ln + 6, colon());
    assert forall|k: int| ln + 7 <= k < b.len() implies !has_at(b, k, m) by {
        if has_at(b, k, m) {
            assert(et.subrange(k - (ln + 7), k - (ln + 7) + 6) =~= b.subrange(k, k + 6));
            assert(has_at(et, k - (ln + 7), m));
        }
    }
    lemma_find_first(b, ln + 7, b.len() as int, m);
    assert(html_segments(b, b.len() as int) == Seq::<(Seq<u8>, Seq<u8>)>::empty());
    assert(b.subrange(6, ln + 6) =~= en);
    assert(b.subrange(ln + 7, b.len() as int) =~= et);
    assert(html_segments(b, 0) =~= seq![(en, et)]);
    encode_utf8_decode_utf8(n);
    encode_utf8_decode_utf8(te);
    lemma_trim_after_trim_end(c);
    assert(html_log(x) =~= seq![(trim_ws(n), trim_ws(c))]);
}

/// A record with its name and text trimmed.
pub open spec fn trimmed_record(r: (Seq<char>, Seq<char>)) -> (Seq<char>, Seq<char>) {
    (trim_ws(r.0), trim_ws(r.1))
}

/// An export of records, read back as an HTML log, gives the records again,
/// each with its name and text trimmed, provided no name holds a colon and no
/// text holds `[main]`.
pub proof fn law_export_reads_back(rs: Seq<(Seq<char>, Seq<char>)>)
    requires
        forall|k: int| 0 <= k < rs.len() ==> exportable(#[trigger] rs[k]),
    ensures
        html_log(export_records(rs)) == rs.map_values(
            |r: (Seq<char>, Seq<char>)| trimmed_record(r),
        ),
{
    if rs.len() == 0 {
        assert(export_records(rs) == Seq::<char>::empty());
        assert(trim_ws(Seq::<char>::empty()) == Seq::<char>::empty());
        assert(encode_utf8(Seq::<char>::empty()) == Seq::<u8>::empty());
        assert(html_log(export_records(rs)) =~= rs.map_values(
            |r: (Seq<char>, Seq<char>)| trimmed_record(r),
        ));
    } else {
        lemma_trim_export(rs);
        lemma_read_trimmed_export(rs);
    }
}

} // verus!
