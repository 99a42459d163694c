//! The fixed texts that the log formats are made of, as UTF-8 bytes.

use vstd::prelude::*;
use vstd::utf8::*;

use crate::text::lemma_encode_concat;

verus! {

/// The tag that opens each message of an exported HTML log: `[main]`.
pub open spec fn main_tag() -> Seq<u8> {
    encode_utf8(seq!['[', 'm', 'a', 'i', 'n', ']'])
}

/// The colon that ends the speaker's name in an exported HTML log.
pub open spec fn colon() -> Seq<u8> {
    encode_utf8(seq![':'])
}

/// The text between a speaker's name and the time stamp in a copied log: ` - `.
pub open spec fn name_separator() -> Seq<u8> {
    encode_utf8(seq![' ', '-', ' '])
}

/// `今日` ("today") in a copied time stamp.
pub open spec fn today() -> Seq<u8> {
    encode_utf8(seq!['今', '日'])
}

/// `昨日` ("yesterday") in a copied time stamp.
pub open spec fn yesterday() -> Seq<u8> {
    encode_utf8(seq!['昨', '日'])
}

/// `先週 ` ("last week", then a space) in a copied time stamp.
pub open spec fn last_week() -> Seq<u8> {
    encode_utf8(seq!['先', '週', ' '])
}

/// `曜日` ("day of the week") in a copied time stamp.
pub open spec fn weekday_suffix() -> Seq<u8> {
    encode_utf8(seq!['曜', '日'])
}

/// The characters `[編集済]` ("[edited]") that ccfolia appends to an edited message.
pub open spec fn edited_mark() -> Seq<char> {
    seq!['[', '編', '集', '済', ']']
}

pub proof fn lemma_low_bits(u: u32)
    by (bit_vector)
    requires
        u <= 0x7F,
    ensures
        ((u & 0x7F) as u8) == u as u8,
{
}

proof fn lemma_encode_ascii_char(c: char)
    requires
        (c as u32) <= 0x7F,
    ensures
        encode_utf8(seq![c]) == seq![c as u8],
{
    lemma_low_bits(c as u32);
    reveal_with_fuel(encode_utf8, 2);
    assert(seq![c].drop_first() =~= Seq::<char>::empty());
    assert(encode_utf8(seq![c]) =~= seq![c as u8]);
}

proof fn lemma_encode_wide_char(c: char, b0: u8, b1: u8, b2: u8)
    requires
        has_width_3_encoding(c as u32),
        leading_byte_width_3(c as u32) == b0,
        second_last_continuation_byte(c as u32) == b1,
        last_continuation_byte(c as u32) == b2,
    ensures
        encode_utf8(seq![c]) == seq![b0, b1, b2],
{
    reveal_with_fuel(encode_utf8, 2);
    assert(seq![c].drop_first() =~= Seq::<char>::empty());
    assert(encode_utf8(seq![c]) =~= seq![b0, b1, b2]);
}

proof fn lemma_encode_two(a: char, b: char)
    ensures
        encode_utf8(seq![a, b]) == encode_utf8(seq![a]) + encode_utf8(seq![b]),
{
    assert(seq![a, b] =~= seq![a] + seq![b]);
    lemma_encode_concat(seq![a], seq![b]);
}

proof fn lemma_encode_three(a: char, b: char, c: char)
    ensures
        encode_utf8(seq![a, b, c]) == encode_utf8(seq![a]) + encode_utf8(seq![b]) + encode_utf8(
            seq![c],
        ),
{
    assert(seq![a, b, c] =~= seq![a, b] + seq![c]);
    lemma_encode_concat(seq![a, b], seq![c]);
    lemma_encode_two(a, b);
}

/// The bytes of each fixed text.
pub proof fn lemma_markers()
    ensures
        main_tag() == seq![0x5Bu8, 0x6Du8, 0x61u8, 0x69u8, 0x6Eu8, 0x5Du8],
        colon() == seq![0x3Au8],
        name_separator() == seq![0x20u8, 0x2Du8, 0x20u8],
        today() == seq![0xE4u8, 0xBBu8, 0x8Au8, 0xE6u8, 0x97u8, 0xA5u8],
        yesterday() == seq![0xE6u8, 0x98u8, 0xA8u8, 0xE6u8, 0x97u8, 0xA5u8],
        last_week() == seq![0xE5u8, 0x85u8, 0x88u8, 0xE9u8, 0x80u8, 0xB1u8, 0x20u8],
        weekday_suffix() == seq![0xE6u8, 0x9Bu8, 0x9Cu8, 0xE6u8, 0x97u8, 0xA5u8],
        encode_utf8(edited_mark()) == seq![
            0x5Bu8,
            0xE7u8,
            0xB7u8,
            0xA8u8,
            0xE9u8,
            0x9Bu8,
            0x86u8,
            0xE6u8,
            0xB8u8,
            0x88u8,
            0x5Du8,
        ],
{
    lemma_encode_ascii_char('[');
    lemma_encode_ascii_char('m');
    lemma_encode_ascii_char('a');
    lemma_encode_ascii_char('i');
    lemma_encode_ascii_char('n');
    lemma_encode_ascii_char(']');
    lemma_encode_ascii_char(':');
    lemma_encode_ascii_char(' ');
    lemma_encode_ascii_char('-');
    assert(leading_byte_width_3(0x4ECA) == 0xE4 && second_last_continuation_byte(0x4ECA) == 0xBB
        && last_continuation_byte(0x4ECA) == 0x8A) by (bit_vector);
    assert(leading_byte_width_3(0x65E5) == 0xE6 && second_last_continuation_byte(0x65E5) == 0x97
        && last_continuation_byte(0x65E5) == 0xA5) by (bit_vector);
    assert(leading_byte_width_3(0x6628) == 0xE6 && second_last_continuation_byte(0x6628) == 0x98
        && last_continuation_byte(0x6628) == 0xA8) by (bit_vector);
    assert(leading_byte_width_3(0x5148) == 0xE5 && second_last_continuation_byte(0x5148) == 0x85
        && last_continuation_byte(0x5148) == 0x88) by (bit_vector);
    assert(leading_byte_width_3(0x9031) == 0xE9 && second_last_continuation_byte(0x9031) == 0x80
        && last_continuation_byte(0x9031) == 0xB1) by (bit_vector);
    assert(leading_byte_width_3(0x66DC) == 0xE6 && second_last_continuation_byte(0x66DC) == 0x9B
        && last_continuation_byte(0x66DC) == 0x9C) by (bit_vector);
    assert(leading_byte_width_3(0x7DE8) == 0xE7 && second_last_continuation_byte(0x7DE8) == 0xB7
        && last_continuation_byte(0x7DE8) == 0xA8) by (bit_vector);
    assert(leading_byte_width_3(0x96C6) == 0xE9 && second_last_continuation_byte(0x96C6) == 0x9B
        && last_continuation_byte(0x96C6) == 0x86) by (bit_vector);
    assert(leading_byte_width_3(0x6E08) == 0xE6 && second_last_continuation_byte(0x6E08) == 0xB8
        && last_continuation_byte(0x6E08) == 0x88) by (bit_vector);
    lemma_encode_wide_char('今', 0xE4, 0xBB, 0x8A);
    lemma_encode_wide_char('日', 0xE6, 0x97, 0xA5);
    lemma_encode_wide_char('昨', 0xE6, 0x98, 0xA8);
    lemma_encode_wide_char('先', 0xE5, 0x85, 0x88);
    lemma_encode_wide_char('週', 0xE9, 0x80, 0xB1);
    lemma_encode_wide_char('曜', 0xE6, 0x9B, 0x9C);
    lemma_encode_wide_char('編', 0xE7, 0xB7, 0xA8);
    lemma_encode_wide_char('集', 0xE9, 0x9B, 0x86);
    lemma_encode_wide_char('済', 0xE6, 0xB8, 0x88);
    assert(seq!['[', 'm', 'a', 'i', 'n', ']'] =~= seq!['[', 'm', 'a'] + seq!['i', 'n', ']']);
    lemma_encode_concat(seq!['[', 'm', 'a'], seq!['i', 'n', ']']);
    lemma_encode_three('[', 'm', 'a');
    lemma_encode_three('i', 'n', ']');
    assert(main_tag() =~= seq![0x5Bu8, 0x6Du8, 0x61u8, 0x69u8, 0x6Eu8, 0x5Du8]);
    lemma_encode_three(' ', '-', ' ');
    assert(name_separator() =~= seq![0x20u8, 0x2Du8, 0x20u8]);
    lemma_encode_two('今', '日');
    assert(today() =~= seq![0xE4u8, 0xBBu8, 0x8Au8, 0xE6u8, 0x97u8, 0xA5u8]);
    lemma_encode_two('昨', '日');
    assert(yesterday() =~= seq![0xE6u8, 0x98u8, 0xA8u8, 0xE6u8, 0x97u8, 0xA5u8]);
    lemma_encode_three('先', '週', ' ');
    assert(last_week() =~= seq![0xE5u8, 0x85u8, 0x88u8, 0xE9u8, 0x80u8, 0xB1u8, 0x20u8]);
    lemma_encode_two('曜', '日');
    assert(weekday_suffix() =~= seq![0xE6u8, 0x9Bu8, 0x9Cu8, 0xE6u8, 0x97u8, 0xA5u8]);
    assert(edited_mark() =~= seq!['[', '編', '集'] + seq!['済', ']']);
    lemma_encode_concat(seq!['[', '編', '集'], seq!['済', ']']);
    lemma_encode_three('[', '編', '集');
    lemma_encode_two('済', ']');
    assert(encode_utf8(edited_mark()) =~= seq![
        0x5Bu8,
        0xE7u8,
        0xB7u8,
        0xA8u8,
        0xE9u8,
        0x9Bu8,
        0x86u8,
        0xE6u8,
        0xB8u8,
        0x88u8,
        0x5Du8,
    ]);
}

} // verus!
