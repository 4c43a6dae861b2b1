//! UTF-16 lengths of characters and text, used to report match offsets in
//! UTF-16 code units.
use vstd::prelude::*;
use vstd::string::*;
use vstd::utf8::*;

verus! {

broadcast use {vstd::string::group_string_axioms, vstd::utf8::group_utf8_lib};

/// The number of UTF-16 code units of a character: two for characters outside
/// the Basic Multilingual Plane, one otherwise.
pub open spec fn utf16_units(c: char) -> nat {
    if c as u32 >= 0x10000 {
        2
    } else {
        1
    }
}

/// The number of UTF-16 code units of a character sequence.
pub open spec fn utf16_len(cs: Seq<char>) -> nat
    decreases cs.len(),
{
    if cs.len() == 0 {
        0
    } else {
        utf16_len(cs.drop_last()) + utf16_units(cs.last())
    }
}

/// A count clamped to the range of `u32`.
pub open spec fn clamp_u32(n: int) -> u32 {
    if n > u32::MAX {
        u32::MAX
    } else {
        n as u32
    }
}

/// The UTF-16 length of a character (`char::len_utf16`).
pub fn char_utf16_len(ch: char) -> (r: u32)
    ensures
        r == utf16_units(ch),
{
    if (ch as u32) >= 0x10000 {
        2
    } else {
        1
    }
}

/// `str::from_utf8`: the text that a byte slice encodes, when it is valid UTF-8.
#[verifier::external_body]
pub(crate) fn decode_utf8_bytes(bytes: &[u8]) -> (r: Option<&str>)
    ensures
        r is Some <==> valid_utf8(bytes@),
        r matches Some(t) ==> t.spec_bytes() == bytes@,
{
    std::str::from_utf8(bytes).ok()
}

/// The UTF-16 length of a string, clamped to `u32`.
pub fn str_utf16_len(text: &str) -> (r: u32)
    ensures
        r == clamp_u32(utf16_len(text@) as int),
{
    let mut count = 0u32;
    for ch in it: text.chars()
        invariant
            it.seq() == text@,
            count == clamp_u32(utf16_len(text@.take(it.index() as int)) as int),
    {
        assert(text@.take(it.index() + 1).drop_last() =~= text@.take(it.index() as int));
        count = count.saturating_add(char_utf16_len(ch));
    }
    assert(text@.take(text@.len() as int) =~= text@);
    count
}

/// The UTF-16 length of the text that a byte span encodes, clamped to `u32`;
/// for a span that is not valid UTF-8, its byte length, clamped likewise.
pub open spec fn span_utf16_len(bytes: Seq<u8>) -> u32 {
    if valid_utf8(bytes) {
        clamp_u32(utf16_len(decode_utf8(bytes)) as int)
    } else {
        clamp_u32(bytes.len() as int)
    }
}

/// Clamps a `usize` to `u32`.
pub fn u32_from_usize(value: usize) -> (r: u32)
    ensures
        r == clamp_u32(value as int),
{
    if value > u32::MAX as usize {
        u32::MAX
    } else {
        value as u32
    }
}

/// The UTF-16 length of a byte span, or its byte length when it is not valid UTF-8.
pub fn byte_span_utf16_len(bytes: &[u8]) -> (r: u32)
    ensures
        r == span_utf16_len(bytes@),
{
    match decode_utf8_bytes(bytes) {
        Some(text) => {
            proof {
                encode_utf8_decode_utf8(text@);
            }
            str_utf16_len(text)
        },
        None => u32_from_usize(bytes.len()),
    }
}

} // verus!

verus! {

/// The UTF-16 length of a concatenation is the sum of the lengths.
pub proof fn lemma_utf16_len_concat(a: Seq<char>, c: Seq<char>)
    ensures
        utf16_len(a + c) == utf16_len(a) + utf16_len(c),
    decreases c.len(),
{
    if c.len() == 0 {
        assert(a + c =~= a);
    } else {
        lemma_utf16_len_concat(a, c.drop_last());
        assert((a + c).drop_last() =~= a + c.drop_last());
        assert((a + c).last() == c.last());
    }
}

/// The UTF-16 length of the text before byte offset `p` of valid UTF-8.
pub open spec fn utf16_prefix(b: Seq<u8>, p: int) -> nat {
    utf16_len(decode_utf8(b.subrange(0, p)))
}

/// Between two character boundaries `p <= q` of valid UTF-8 lies valid UTF-8,
/// and the UTF-16 length before `q` is that before `p` plus that of the span.
pub proof fn lemma_utf16_prefix_split(b: Seq<u8>, p: int, q: int)
    requires
        valid_utf8(b),
        0 <= p <= q <= b.len(),
        is_char_boundary(b, p),
        is_char_boundary(b, q),
    ensures
        valid_utf8(b.subrange(p, q)),
        utf16_prefix(b, q) == utf16_prefix(b, p) + utf16_len(decode_utf8(b.subrange(p, q))),
        utf16_prefix(b, q) <= utf16_len(decode_utf8(b)),
{
    let bq = b.subrange(0, q);
    valid_utf8_split(b, q);
    if p < q {
        is_char_boundary_iff_not_is_continuation_byte(b, p);
        assert(bq[p] == b[p]);
        is_char_boundary_iff_not_is_continuation_byte(bq, p);
    } else {
        is_char_boundary_start_end_of_seq(bq);
    }
    valid_utf8_split(bq, p);
    decode_utf8_split(bq, p);
    assert(bq.subrange(0, p) =~= b.subrange(0, p));
    assert(bq.subrange(p, bq.len() as int) =~= b.subrange(p, q));
    lemma_utf16_len_concat(decode_utf8(b.subrange(0, p)), decode_utf8(b.subrange(p, q)));
    decode_utf8_split(b, q);
    assert(b.subrange(0, b.len() as int) =~= b);
    lemma_utf16_len_concat(decode_utf8(bq), decode_utf8(b.subrange(q, b.len() as int)));
}

} // verus!
