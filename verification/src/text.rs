//! Text primitives shared by the log readers: Unicode white space, trimming,
//! UTF-8 facts and byte-range slicing of string slices.

use vstd::prelude::*;
use vstd::utf8::*;

verus! {

broadcast use vstd::utf8::encode_utf8_valid_utf8, vstd::utf8::encode_utf8_decode_utf8;

/// The characters that carry the Unicode `White_Space` property.
pub open spec fn is_white_space(c: char) -> bool {
    let u = c as u32;
    ||| 0x09 <= u <= 0x0D
    ||| u == 0x20
    ||| u == 0x85
    ||| u == 0xA0
    ||| u == 0x1680
    ||| 0x2000 <= u <= 0x200A
    ||| u == 0x2028
    ||| u == 0x2029
    ||| u == 0x202F
    ||| u == 0x205F
    ||| u == 0x3000
}

/// `s` without its leading white space.
pub open spec fn trim_start_ws(s: Seq<char>) -> Seq<char>
    decreases s.len(),
{
    if s.len() > 0 && is_white_space(s[0]) {
        trim_start_ws(s.drop_first())
    } else {
        s
    }
}

/// `s` without its trailing white space.
pub open spec fn trim_end_ws(s: Seq<char>) -> Seq<char>
    decreases s.len(),
{
    if s.len() > 0 && is_white_space(s.last()) {
        trim_end_ws(s.drop_last())
    } else {
        s
    }
}

/// `s` without its leading and trailing white space.
pub open spec fn trim_ws(s: Seq<char>) -> Seq<char> {
    trim_end_ws(trim_start_ws(s))
}

proof fn lemma_trim_start_result(s: Seq<char>)
    ensures
        trim_start_ws(s).len() <= s.len(),
        trim_start_ws(s).len() == 0 || !is_white_space(trim_start_ws(s)[0]),
        trim_start_ws(s) == s.subrange(s.len() - trim_start_ws(s).len(), s.len() as int),
    decreases s.len(),
{
    if s.len() > 0 && is_white_space(s[0]) {
        lemma_trim_start_result(s.drop_first());
        let r = trim_start_ws(s.drop_first());
        assert(s.drop_first().subrange(s.drop_first().len() - r.len(), s.drop_first().len() as int)
            =~= s.subrange(s.len() - r.len(), s.len() as int));
    } else {
        assert(s.subrange(0, s.len() as int) =~= s);
    }
}

/// Trimming the end of a text keeps a prefix that does not end in white
/// space, and what it removes is white space.
pub proof fn lemma_trim_end_result(s: Seq<char>)
    ensures
        trim_end_ws(s).len() <= s.len(),
        trim_end_ws(s).len() == 0 || !is_white_space(trim_end_ws(s).last()),
        trim_end_ws(s) == s.subrange(0, trim_end_ws(s).len() as int),
        forall|i: int| trim_end_ws(s).len() <= i < s.len() ==> is_white_space(#[trigger] s[i]),
    decreases s.len(),
{
    if s.len() > 0 && is_white_space(s.last()) {
        lemma_trim_end_result(s.drop_last());
        let r = trim_end_ws(s.drop_last());
        assert(s.drop_last().subrange(0, r.len() as int) =~= s.subrange(0, r.len() as int));
        assert forall|i: int| r.len() <= i < s.len() implies is_white_space(#[trigger] s[i]) by {
            if i < s.len() - 1 {
                assert(s[i] == s.drop_last()[i]);
            }
        }
    } else {
        assert(s.subrange(0, s.len() as int) =~= s);
    }
}

/// Trimming a trimmed text changes nothing.
pub proof fn law_trim_idempotent(s: Seq<char>)
    ensures
        trim_ws(trim_ws(s)) == trim_ws(s),
{
    let x = trim_start_ws(s);
    let y = trim_end_ws(x);
    lemma_trim_start_result(s);
    lemma_trim_end_result(x);
    if y.len() > 0 {
        assert(y[0] == x.subrange(0, y.len() as int)[0]);
        assert(trim_start_ws(y) == y);
    } else {
        assert(trim_start_ws(y) == y);
    }
    if y.len() > 0 {
        assert(trim_end_ws(y) == y);
    }
}

/// The UTF-8 bytes of a string slice.
pub open spec fn bytes_of(s: &str) -> Seq<u8> {
    encode_utf8(s@)
}

/// Index `i` of `b` starts a character or is the end of `b`, read as a UTF-8 sequence.
pub open spec fn at_boundary(b: Seq<u8>, i: int) -> bool {
    i == b.len() || (0 <= i < b.len() && !is_continuation_byte(b[i]))
}

/// Calls `str::trim`, which removes leading and trailing characters that have
/// the Unicode `White_Space` property; the contract claims exactly that of the
/// characters of the result.
#[verifier::external_body]
pub(crate) fn trim_str(s: &str) -> (r: &str)
    ensures
        r@ == trim_ws(s@),
{
    s.trim()
}

/// In a valid UTF-8 sequence, an index is a character boundary exactly when it
/// is the end or does not hold a continuation byte.
pub proof fn lemma_boundary(b: Seq<u8>, i: int)
    requires
        valid_utf8(b),
        at_boundary(b, i),
    ensures
        is_char_boundary(b, i),
{
    if i == b.len() {
        is_char_boundary_start_end_of_seq(b);
    } else {
        is_char_boundary_iff_not_is_continuation_byte(b, i);
    }
}

/// The start of a valid UTF-8 sequence is a boundary.
pub proof fn lemma_start_boundary(b: Seq<u8>)
    requires
        valid_utf8(b),
    ensures
        at_boundary(b, 0),
{
    if b.len() > 0 {
        assert(valid_first_scalar(b));
    }
}

/// The index after an ASCII byte of a valid UTF-8 sequence is a boundary.
pub proof fn lemma_after_ascii(b: Seq<u8>, i: int)
    requires
        valid_utf8(b),
        0 <= i < b.len(),
        b[i] < 0x80,
    ensures
        at_boundary(b, i + 1),
{
    if i + 1 < b.len() {
        is_char_boundary_iff_not_is_continuation_byte(b, i);
        valid_utf8_split(b, i);
        let s = b.subrange(i, b.len() as int);
        assert(valid_first_scalar(s));
        assert(length_of_first_scalar(s) == 1);
        assert(pop_first_scalar(s) =~= b.subrange(i + 1, b.len() as int));
        let t = b.subrange(i + 1, b.len() as int);
        assert(valid_utf8(t));
        assert(valid_first_scalar(t));
        assert(t[0] == b[i + 1]);
    }
}

/// Encoding a concatenation concatenates the encodings.
pub proof fn lemma_encode_concat(a: Seq<char>, c: Seq<char>)
    ensures
        encode_utf8(a + c) == encode_utf8(a) + encode_utf8(c),
    decreases a.len(),
{
    if a.len() == 0 {
        assert(a + c =~= c);
        assert(encode_utf8(a) + encode_utf8(c) =~= encode_utf8(c));
    } else {
        lemma_encode_concat(a.drop_first(), c);
        assert((a + c).drop_first() =~= a.drop_first() + c);
        assert(encode_utf8(a + c) =~= encode_utf8(a) + encode_utf8(c));
    }
}

/// The bytes `from..to` of `s`, as a string slice.
pub fn sub_str<'a>(s: &'a str, from: usize, to: usize) -> (r: &'a str)
    requires
        from <= to <= bytes_of(s).len(),
        at_boundary(bytes_of(s), from as int),
        at_boundary(bytes_of(s), to as int),
    ensures
        bytes_of(r) == bytes_of(s).subrange(from as int, to as int),
        r@ == decode_utf8(bytes_of(s).subrange(from as int, to as int)),
{
    let ghost b = bytes_of(s);
    proof {
        lemma_boundary(b, from as int);
    }
    let (_, rest) = s.split_at(from);
    let ghost rb = bytes_of(rest);
    assert(rb =~= b.subrange(from as int, b.len() as int));
    proof {
        assert(at_boundary(rb, to - from));
        lemma_boundary(rb, to - from);
    }
    let (mid, _) = rest.split_at(to - from);
    assert(bytes_of(mid) =~= b.subrange(from as int, to as int));
    proof {
        encode_utf8_decode_utf8(mid@);
    }
    mid
}

/// Whether two string slices hold the same text.
pub fn same_text(a: &str, b: &str) -> (r: bool)
    ensures
        r == (a@ == b@),
{
    let x = a.as_bytes();
    let y = b.as_bytes();
    proof {
        encode_utf8_decode_utf8(a@);
        encode_utf8_decode_utf8(b@);
    }
    if x.len() != y.len() {
        return false;
    }
    let mut i: usize = 0;
    while i < x.len()
        invariant
            x@ == encode_utf8(a@),
            y@ == encode_utf8(b@),
            x@.len() == y@.len(),
            i <= x@.len(),
            forall|j: int| 0 <= j < i ==> x@[j] == y@[j],
        decreases x@.len() - i,
    {
        if x[i] != y[i] {
            proof {
                if a@ == b@ {
                    assert(x@ == encode_utf8(a@));
                    assert(y@ == encode_utf8(b@));
                    assert(x@[i as int] == y@[i as int]);
                }
            }
            return false;
        }
        i += 1;
    }
    assert(x@ =~= y@);
    true
}

} // verus!
