//! Whole-word filtering: which characters are word characters, and whether a
//! match span is bounded by non-word characters on both sides. CJK characters
//! always count as boundaries, since CJK text puts no spaces between words.
use vstd::prelude::*;
use vstd::string::*;
use crate::options::BoundaryMode;
use crate::text::{char_at, char_at_byte, char_before, char_before_byte};

verus! {

/// Whether a code point lies in one of the CJK blocks that act as word boundaries
/// (Hiragana, Katakana, CJK ideographs and their extensions, Hangul syllables,
/// CJK compatibility ideographs).
pub open spec fn cjk(c: char) -> bool {
    let u = c as u32;
    ||| 0x3040 <= u <= 0x309F
    ||| 0x30A0 <= u <= 0x30FF
    ||| 0x3400 <= u <= 0x4DBF
    ||| 0x4E00 <= u <= 0x9FFF
    ||| 0xAC00 <= u <= 0xD7AF
    ||| 0xF900 <= u <= 0xFAFF
    ||| 0x20000 <= u <= 0x2FA1F
    ||| 0x30000 <= u <= 0x323AF
}

/// Whether a character is in a CJK block.
pub fn is_cjk(ch: char) -> (r: bool)
    ensures
        r == cjk(ch),
{
    let u = ch as u32;
    (0x3040 <= u && u <= 0x309F) || (0x30A0 <= u && u <= 0x30FF) || (0x3400 <= u && u <= 0x4DBF)
        || (0x4E00 <= u && u <= 0x9FFF) || (0xAC00 <= u && u <= 0xD7AF) || (0xF900 <= u && u
        <= 0xFAFF) || (0x20000 <= u && u <= 0x2FA1F) || (0x30000 <= u && u <= 0x323AF)
}

/// Whether a byte is an ASCII word character: a letter, a digit or `_`.
pub open spec fn ascii_word_byte(b: u8) -> bool {
    (0x41 <= b <= 0x5A) || (0x61 <= b <= 0x7A) || (0x30 <= b <= 0x39) || b == 0x5F
}

/// Whether a byte is an ASCII word character.
pub fn is_ascii_word_byte(byte: u8) -> (r: bool)
    ensures
        r == ascii_word_byte(byte),
{
    (0x41 <= byte && byte <= 0x5A) || (0x61 <= byte && byte <= 0x7A) || (0x30 <= byte && byte
        <= 0x39) || byte == 0x5F
}

/// What `char::is_alphanumeric` answers for a character: whether it has the
/// Unicode `Alphabetic` property or a numeric general category.
pub uninterp spec fn unicode_alphanumeric(c: char) -> bool;

/// `char::is_alphanumeric`: whether the character is alphabetic or numeric.
#[verifier::external_body]
pub(crate) fn is_alphanumeric(c: char) -> (r: bool)
    ensures
        r == unicode_alphanumeric(c),
{
    c.is_alphanumeric()
}

/// A Unicode word character: alphanumeric and not CJK.
pub open spec fn unicode_word_char(c: char) -> bool {
    unicode_alphanumeric(c) && !cjk(c)
}

/// Whether the text at byte offset `pos` starts with a word character.
pub open spec fn word_char_at(b: Seq<u8>, pos: int, mode: BoundaryMode) -> bool {
    match mode {
        BoundaryMode::Ascii => 0 <= pos < b.len() && ascii_word_byte(b[pos]),
        BoundaryMode::Unicode => char_at_byte(b, pos) matches Some(c) && unicode_word_char(c),
    }
}

/// Whether the text just before byte offset `pos` ends with a word character.
pub open spec fn word_char_before(b: Seq<u8>, pos: int, mode: BoundaryMode) -> bool {
    match mode {
        BoundaryMode::Ascii => 0 < pos <= b.len() && ascii_word_byte(b[pos - 1]),
        BoundaryMode::Unicode => char_before_byte(b, pos) matches Some(c) && unicode_word_char(c),
    }
}

/// Whether the span `[start, end)` of the text is a whole word: nothing that
/// continues a word touches it on either side, where a span that starts (or
/// ends) with a CJK character is bounded on that side in Unicode mode.
pub open spec fn whole_word(b: Seq<u8>, start: int, end: int, mode: BoundaryMode) -> bool {
    let cjk_start = mode == BoundaryMode::Unicode && (char_at_byte(b, start) matches Some(c)
        && cjk(c));
    let cjk_end = mode == BoundaryMode::Unicode && (char_before_byte(b, end) matches Some(c)
        && cjk(c));
    (!word_char_before(b, start, mode) || cjk_start) && (!word_char_at(b, end, mode) || cjk_end)
}

/// Whether the haystack has a word character at byte offset `byte_pos`.
pub fn is_word_char_at(haystack: &str, byte_pos: usize, boundary_mode: BoundaryMode) -> (r: bool)
    ensures
        r == word_char_at(haystack.spec_bytes(), byte_pos as int, boundary_mode),
{
    match boundary_mode {
        BoundaryMode::Ascii => {
            let bytes = haystack.as_bytes();
            if byte_pos < bytes.len() {
                is_ascii_word_byte(bytes[byte_pos])
            } else {
                false
            }
        },
        BoundaryMode::Unicode => match char_at(haystack, byte_pos) {
            Some(ch) => is_alphanumeric(ch) && !is_cjk(ch),
            None => false,
        },
    }
}

/// Whether the haystack has a word character just before byte offset `byte_pos`.
pub fn is_word_char_before(haystack: &str, byte_pos: usize, boundary_mode: BoundaryMode) -> (r:
    bool)
    ensures
        r == word_char_before(haystack.spec_bytes(), byte_pos as int, boundary_mode),
{
    match boundary_mode {
        BoundaryMode::Ascii => {
            let bytes = haystack.as_bytes();
            if byte_pos >= 1 && byte_pos - 1 < bytes.len() {
                is_ascii_word_byte(bytes[byte_pos - 1])
            } else {
                false
            }
        },
        BoundaryMode::Unicode => match char_before(haystack, byte_pos) {
            Some(ch) => is_alphanumeric(ch) && !is_cjk(ch),
            None => false,
        },
    }
}

/// Whether the text at byte offset `start` begins with a CJK character.
pub fn match_starts_with_cjk(haystack: &str, start: usize) -> (r: bool)
    ensures
        r == (char_at_byte(haystack.spec_bytes(), start as int) matches Some(c) && cjk(c)),
{
    match char_at(haystack, start) {
        Some(ch) => is_cjk(ch),
        None => false,
    }
}

/// Whether the text before byte offset `end` ends with a CJK character.
pub fn match_ends_with_cjk(haystack: &str, end: usize) -> (r: bool)
    ensures
        r == (char_before_byte(haystack.spec_bytes(), end as int) matches Some(c) && cjk(c)),
{
    match char_before(haystack, end) {
        Some(ch) => is_cjk(ch),
        None => false,
    }
}

/// Whether the span `[start, end)` of the haystack is a whole word.
pub fn is_whole_word(haystack: &str, start: usize, end: usize, boundary_mode: BoundaryMode) -> (r:
    bool)
    ensures
        r == whole_word(haystack.spec_bytes(), start as int, end as int, boundary_mode),
{
    let unicode = matches!(boundary_mode, BoundaryMode::Unicode);
    let cjk_start = unicode && match_starts_with_cjk(haystack, start);
    let cjk_end = unicode && match_ends_with_cjk(haystack, end);
    let start_ok = !is_word_char_before(haystack, start, boundary_mode) || cjk_start;
    let end_ok = !is_word_char_at(haystack, end, boundary_mode) || cjk_end;
    start_ok && end_ok
}

} // verus!

verus! {

/// In Unicode mode a whole word is not followed by a letter or digit outside
/// the CJK blocks (Hiragana, Katakana, CJK ideographs and their extensions,
/// Hangul syllables, CJK compatibility ideographs), unless it ends with a
/// character of those blocks.
pub proof fn lemma_whole_word_not_followed_by_letter(b: Seq<u8>, start: int, end: int, c: char)
    requires
        whole_word(b, start, end, BoundaryMode::Unicode),
        char_at_byte(b, end) == Some(c),
        unicode_alphanumeric(c),
        !(0x3040 <= (c as u32) <= 0x309F || 0x30A0 <= (c as u32) <= 0x30FF || 0x3400 <= (c as u32) <= 0x4DBF || 0x4E00 <= (c as u32) <= 0x9FFF
            || 0xAC00 <= (c as u32) <= 0xD7AF || 0xF900 <= (c as u32) <= 0xFAFF || 0x20000 <= (c as u32) <= 0x2FA1F || 0x30000 <= (c as u32) <= 0x323AF),
    ensures
        char_before_byte(b, end) matches Some(d) && (0x3040 <= (d as u32) <= 0x309F || 0x30A0 <= (d as u32) <= 0x30FF || 0x3400 <= (d as u32) <= 0x4DBF || 0x4E00 <= (d as u32) <= 0x9FFF
            || 0xAC00 <= (d as u32) <= 0xD7AF || 0xF900 <= (d as u32) <= 0xFAFF || 0x20000 <= (d as u32) <= 0x2FA1F || 0x30000 <= (d as u32) <= 0x323AF),
{
}

/// In Unicode mode a whole word is not preceded by a letter or digit outside
/// the CJK blocks, unless it starts with a character of those blocks.
pub proof fn lemma_whole_word_not_preceded_by_letter(b: Seq<u8>, start: int, end: int, c: char)
    requires
        whole_word(b, start, end, BoundaryMode::Unicode),
        char_before_byte(b, start) == Some(c),
        unicode_alphanumeric(c),
        !(0x3040 <= (c as u32) <= 0x309F || 0x30A0 <= (c as u32) <= 0x30FF || 0x3400 <= (c as u32) <= 0x4DBF || 0x4E00 <= (c as u32) <= 0x9FFF
            || 0xAC00 <= (c as u32) <= 0xD7AF || 0xF900 <= (c as u32) <= 0xFAFF || 0x20000 <= (c as u32) <= 0x2FA1F || 0x30000 <= (c as u32) <= 0x323AF),
    ensures
        char_at_byte(b, start) matches Some(d) && (0x3040 <= (d as u32) <= 0x309F || 0x30A0 <= (d as u32) <= 0x30FF || 0x3400 <= (d as u32) <= 0x4DBF || 0x4E00 <= (d as u32) <= 0x9FFF
            || 0xAC00 <= (d as u32) <= 0xD7AF || 0xF900 <= (d as u32) <= 0xFAFF || 0x20000 <= (d as u32) <= 0x2FA1F || 0x30000 <= (d as u32) <= 0x323AF),
{
}

/// In Unicode mode a span that ends with a character of the CJK blocks is
/// bounded on that side: it is a whole word when nothing that continues a word
/// precedes it (the text starts there, or a character that is not a letter or
/// digit comes before it), whatever follows.
pub proof fn lemma_cjk_end_is_bounded(b: Seq<u8>, start: int, end: int, d: char)
    requires
        char_before_byte(b, end) == Some(d),
        (0x3040 <= (d as u32) <= 0x309F || 0x30A0 <= (d as u32) <= 0x30FF || 0x3400 <= (d as u32) <= 0x4DBF || 0x4E00 <= (d as u32) <= 0x9FFF
            || 0xAC00 <= (d as u32) <= 0xD7AF || 0xF900 <= (d as u32) <= 0xFAFF || 0x20000 <= (d as u32) <= 0x2FA1F || 0x30000 <= (d as u32) <= 0x323AF),
        char_before_byte(b, start) matches Some(c) ==> !unicode_alphanumeric(c),
    ensures
        whole_word(b, start, end, BoundaryMode::Unicode),
{
}

/// In Unicode mode a span that starts with a character of the CJK blocks is
/// bounded on that side: it is a whole word when nothing that continues a word
/// follows it, whatever precedes.
pub proof fn lemma_cjk_start_is_bounded(b: Seq<u8>, start: int, end: int, d: char)
    requires
        char_at_byte(b, start) == Some(d),
        (0x3040 <= (d as u32) <= 0x309F || 0x30A0 <= (d as u32) <= 0x30FF || 0x3400 <= (d as u32) <= 0x4DBF || 0x4E00 <= (d as u32) <= 0x9FFF
            || 0xAC00 <= (d as u32) <= 0xD7AF || 0xF900 <= (d as u32) <= 0xFAFF || 0x20000 <= (d as u32) <= 0x2FA1F || 0x30000 <= (d as u32) <= 0x323AF),
        char_at_byte(b, end) matches Some(c) ==> !unicode_alphanumeric(c),
    ensures
        whole_word(b, start, end, BoundaryMode::Unicode),
{
}

/// In Unicode mode a span with no letter or digit on either side is a whole word.
pub proof fn lemma_unicode_separated_is_whole_word(b: Seq<u8>, start: int, end: int)
    requires
        char_before_byte(b, start) matches Some(c) ==> !unicode_alphanumeric(c),
        char_at_byte(b, end) matches Some(c) ==> !unicode_alphanumeric(c),
    ensures
        whole_word(b, start, end, BoundaryMode::Unicode),
{
}

/// In ASCII mode a span is a whole word exactly when the bytes just before and
/// just after it, where there are any, are not ASCII letters, digits or `_`.
pub proof fn lemma_ascii_whole_word(b: Seq<u8>, start: int, end: int)
    ensures
        whole_word(b, start, end, BoundaryMode::Ascii) <==> ((0 < start <= b.len() ==> !(0x41 <= b[start - 1] <= 0x5A || 0x61 <= b[start - 1] <= 0x7A || 0x30 <= b[start - 1] <= 0x39 || b[start - 1] == 0x5F)) && (0
            <= end < b.len() ==> !(0x41 <= b[end] <= 0x5A || 0x61 <= b[end] <= 0x7A || 0x30 <= b[end] <= 0x39 || b[end] == 0x5F))),
{
}

} // verus!
