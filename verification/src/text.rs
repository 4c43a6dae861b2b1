//! UTF-8 text helpers: byte spans of a `str`, the character at or before a
//! byte offset, and the lengths of UTF-8 encodings.
use vstd::prelude::*;
use vstd::string::*;
use vstd::utf8::*;

verus! {

broadcast use {vstd::string::group_string_axioms, vstd::utf8::group_utf8_lib};

/// The characters encoded by `b[start..end]`, when that span is valid UTF-8.
pub open spec fn span_chars(b: Seq<u8>, start: int, end: int) -> Seq<char> {
    decode_utf8(b.subrange(start, end))
}

/// `s.get(start..end)`: the sub-slice between two byte offsets, when both lie on
/// character boundaries and `start <= end`.
#[verifier::external_body]
pub(crate) fn str_get(s: &str, start: usize, end: usize) -> (r: Option<&str>)
    ensures
        r is Some <==> (start <= end && is_char_boundary(s.spec_bytes(), start as int)
            && is_char_boundary(s.spec_bytes(), end as int)),
        r matches Some(t) ==> t.spec_bytes() == s.spec_bytes().subrange(start as int, end as int),
{
    s.get(start..end)
}

/// Appends one character to a string (`String::push`).
#[verifier::external_body]
pub(crate) fn push_char(s: &mut String, c: char)
    ensures
        final(s)@ == old(s)@.push(c),
{
    s.push(c);
}

/// The first character of a string, if any.
pub fn first_char(s: &str) -> (r: Option<char>)
    ensures
        r == (if s@.len() > 0 { Some(s@[0]) } else { None::<char> }),
{
    let mut it = s.chars();
    it.next()
}

} // verus!

verus! {

/// The last character of a string, if any (`Chars::next_back`).
#[verifier::external_body]
pub(crate) fn last_char(s: &str) -> (r: Option<char>)
    ensures
        r == (if s@.len() > 0 { Some(s@.last()) } else { None::<char> }),
{
    s.chars().next_back()
}

/// The character that starts at byte offset `pos` of `b`, when `pos` is a
/// character boundary before the end.
pub open spec fn char_at_byte(b: Seq<u8>, pos: int) -> Option<char> {
    if pos < b.len() && is_char_boundary(b, pos) {
        Some(span_chars(b, pos, b.len() as int)[0])
    } else {
        None
    }
}

/// The character that ends at byte offset `pos` of `b`, when `pos` is a
/// character boundary after the start.
pub open spec fn char_before_byte(b: Seq<u8>, pos: int) -> Option<char> {
    if 0 < pos && is_char_boundary(b, pos) {
        Some(span_chars(b, 0, pos).last())
    } else {
        None
    }
}

/// The character at byte offset `pos` of a string (`s.get(pos..)` then its first character).
pub fn char_at(s: &str, pos: usize) -> (r: Option<char>)
    ensures
        r == char_at_byte(s.spec_bytes(), pos as int),
{
    let len = s.as_bytes().len();
    match str_get(s, pos, len) {
        Some(tail) => {
            proof {
                encode_utf8_decode_utf8(tail@);
                is_char_boundary_start_end_of_seq_str(s);
                assert(tail@ == span_chars(s.spec_bytes(), pos as int, len as int));
            }
            first_char(tail)
        },
        None => {
            proof {
                is_char_boundary_start_end_of_seq_str(s);
            }
            None
        },
    }
}

/// The character just before byte offset `pos` of a string (`s.get(..pos)` then its last character).
pub fn char_before(s: &str, pos: usize) -> (r: Option<char>)
    ensures
        r == char_before_byte(s.spec_bytes(), pos as int),
{
    match str_get(s, 0, pos) {
        Some(head) => {
            proof {
                encode_utf8_decode_utf8(head@);
                is_char_boundary_start_end_of_seq_str(s);
            }
            last_char(head)
        },
        None => {
            proof {
                is_char_boundary_start_end_of_seq_str(s);
            }
            None
        },
    }
}

/// Offsets 0 and the length of a string's bytes are character boundaries.
pub proof fn is_char_boundary_start_end_of_seq_str(s: &str)
    ensures
        is_char_boundary(s.spec_bytes(), 0),
        is_char_boundary(s.spec_bytes(), s.spec_bytes().len() as int),
        valid_utf8(s.spec_bytes()),
{
    encode_utf8_valid_utf8(s@);
    is_char_boundary_start_end_of_seq(s.spec_bytes());
}

} // verus!

verus! {

/// The number of bytes of a character's UTF-8 encoding.
pub open spec fn utf8_width(c: char) -> nat {
    encode_scalar(c as u32).len()
}

/// The UTF-8 width of a character (`char::len_utf8`).
pub fn char_len_utf8(c: char) -> (r: usize)
    ensures
        r == utf8_width(c),
        1 <= r <= 4,
{
    proof {
        char_is_scalar(c);
    }
    let u = c as u32;
    if u < 0x80 {
        1
    } else if u < 0x800 {
        2
    } else if u < 0x10000 {
        3
    } else {
        4
    }
}

/// Encoding a concatenation encodes each part in turn.
pub proof fn lemma_encode_utf8_concat(a: Seq<char>, b: Seq<char>)
    ensures
        encode_utf8(a + b) == encode_utf8(a) + encode_utf8(b),
    decreases a.len(),
{
    if a.len() == 0 {
        assert(a + b =~= b);
        assert(encode_utf8(a) =~= Seq::<u8>::empty());
        assert(encode_utf8(a) + encode_utf8(b) =~= encode_utf8(b));
    } else {
        lemma_encode_utf8_concat(a.drop_first(), b);
        assert((a + b).drop_first() =~= a.drop_first() + b);
        assert(encode_utf8(a + b) =~= encode_utf8(a) + encode_utf8(b));
    }
}

/// Encoding a sequence with one more character appends that character's encoding.
pub proof fn lemma_encode_utf8_push(a: Seq<char>, c: char)
    ensures
        encode_utf8(a.push(c)) == encode_utf8(a) + encode_scalar(c as u32),
        encode_utf8(a.push(c)).len() == encode_utf8(a).len() + utf8_width(c),
{
    lemma_encode_utf8_concat(a, seq![c]);
    assert(a + seq![c] =~= a.push(c));
    assert(seq![c].drop_first() =~= Seq::<char>::empty());
    assert(encode_utf8(seq![c].drop_first()) =~= Seq::<u8>::empty());
    assert(encode_utf8(seq![c]) =~= encode_scalar(c as u32) + encode_utf8(seq![c].drop_first()));
    assert(encode_utf8(seq![c]) =~= encode_scalar(c as u32));
}

/// A prefix's encoding is no longer than the whole encoding.
pub proof fn lemma_encode_utf8_prefix_len(a: Seq<char>, i: int)
    requires
        0 <= i <= a.len(),
    ensures
        encode_utf8(a.take(i)).len() <= encode_utf8(a).len(),
{
    lemma_encode_utf8_concat(a.take(i), a.skip(i));
    assert(a.take(i) + a.skip(i) =~= a);
}

/// A non-empty character sequence has a non-empty encoding, and a proper
/// prefix has a strictly shorter one.
pub proof fn lemma_encode_utf8_proper_prefix(a: Seq<char>, i: int)
    requires
        0 <= i < a.len(),
    ensures
        encode_utf8(a.take(i)).len() < encode_utf8(a).len(),
{
    lemma_encode_utf8_concat(a.take(i), a.skip(i));
    assert(a.take(i) + a.skip(i) =~= a);
    assert(encode_utf8(a.skip(i)) == encode_scalar(a.skip(i)[0] as u32) + encode_utf8(
        a.skip(i).drop_first(),
    ));
}

} // verus!
