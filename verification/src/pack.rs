//! Packing matches as flat `[pattern, start, end, ...]` arrays, in byte offsets
//! or in UTF-16 code-unit offsets.
use vstd::prelude::*;
use vstd::string::*;
use vstd::utf8::*;
use crate::select::{ByteMatchCandidate, select_leftmost_longest_whole_word_matches, select_spec};
use crate::utf16::{
    byte_span_utf16_len, clamp_u32, lemma_utf16_prefix_split, span_utf16_len, u32_from_usize, utf16_len,
    utf16_prefix,
};

verus! {

broadcast use vstd::string::group_string_axioms;

/// A match as `(pattern, start, end)`.
pub type Triple = (u32, usize, usize);

/// Matches packed as `[pattern, start, end]` triples with offsets clamped to `u32`.
pub open spec fn pack_plain(ms: Seq<Triple>) -> Seq<u32>
    decreases ms.len(),
{
    if ms.len() == 0 {
        seq![]
    } else {
        pack_plain(ms.drop_last()) + seq![
            ms.last().0,
            clamp_u32(ms.last().1 as int),
            clamp_u32(ms.last().2 as int),
        ]
    }
}

/// The bytes `b[start..end]`, or nothing when the range does not lie within `b`.
pub open spec fn span_or_empty(b: Seq<u8>, start: int, end: int) -> Seq<u8> {
    if 0 <= start <= end <= b.len() {
        b.subrange(start, end)
    } else {
        seq![]
    }
}

/// Walks the matches left to right, turning byte offsets into UTF-16 offsets by
/// adding the UTF-16 length of each byte span since the previous offset; gives
/// the packed triples, the last byte offset and the last UTF-16 offset.
pub open spec fn utf16_walk(b: Seq<u8>, ms: Seq<Triple>) -> (Seq<u32>, int, u32)
    decreases ms.len(),
{
    if ms.len() == 0 {
        (seq![], 0, 0)
    } else {
        let prev = utf16_walk(b, ms.drop_last());
        let m = ms.last();
        let start16 = clamp_u32(prev.2 + span_utf16_len(span_or_empty(b, prev.1, m.1 as int)));
        let end16 = clamp_u32(start16 + span_utf16_len(span_or_empty(b, m.1 as int, m.2 as int)));
        (prev.0 + seq![m.0, start16, end16], m.2 as int, end16)
    }
}

/// Matches packed as `[pattern, start, end]` triples in UTF-16 offsets.
pub open spec fn pack_utf16(b: Seq<u8>, ms: Seq<Triple>) -> Seq<u32> {
    utf16_walk(b, ms).0
}

/// Matches over a haystack packed in UTF-16 offsets, with the shortcut that on
/// ASCII text byte offsets are used as they are.
pub open spec fn pack_for_text(haystack: &str, ms: Seq<Triple>) -> Seq<u32> {
    if is_ascii(haystack) {
        pack_plain(ms)
    } else {
        pack_utf16(haystack.spec_bytes(), ms)
    }
}

/// The triples of a sequence of candidates.
pub open spec fn candidate_triples(cs: Seq<ByteMatchCandidate>) -> Seq<Triple> {
    cs.map_values(|c: ByteMatchCandidate| c.triple())
}

/// `bytes[start..end]`, or an empty slice when that range is out of bounds.
pub fn byte_span(bytes: &[u8], start: usize, end: usize) -> (r: &[u8])
    ensures
        r@ == span_or_empty(bytes@, start as int, end as int),
{
    if start <= end && end <= bytes.len() {
        vstd::slice::slice_subrange(bytes, start, end)
    } else {
        let empty: &[u8] = &[];
        assert(empty@ =~= Seq::<u8>::empty());
        empty
    }
}

/// Appends one match as a triple with byte offsets clamped to `u32`.
pub fn push_plain(packed: &mut Vec<u32>, pattern: u32, start: usize, end: usize)
    ensures
        final(packed)@ == old(packed)@ + seq![
            pattern,
            clamp_u32(start as int),
            clamp_u32(end as int),
        ],
{
    packed.push(pattern);
    packed.push(u32_from_usize(start));
    packed.push(u32_from_usize(end));
    assert(final(packed)@ =~= old(packed)@ + seq![
        pattern,
        clamp_u32(start as int),
        clamp_u32(end as int),
    ]);
}

/// Appends one match as a triple with UTF-16 offsets, advancing the walk's
/// last byte offset and last UTF-16 offset.
pub fn push_utf16(
    bytes: &[u8],
    packed: &mut Vec<u32>,
    last_byte: &mut usize,
    last_utf16: &mut u32,
    pattern: u32,
    start: usize,
    end: usize,
)
    ensures
        ({
            let start16 = clamp_u32(
                *old(last_utf16) + span_utf16_len(
                    span_or_empty(bytes@, *old(last_byte) as int, start as int),
                ),
            );
            let end16 = clamp_u32(
                start16 + span_utf16_len(span_or_empty(bytes@, start as int, end as int)),
            );
            &&& final(packed)@ == old(packed)@ + seq![pattern, start16, end16]
            &&& *final(last_byte) == end
            &&& *final(last_utf16) == end16
        }),
{
    let start16 = last_utf16.saturating_add(byte_span_utf16_len(byte_span(bytes, *last_byte, start)));
    let end16 = start16.saturating_add(byte_span_utf16_len(byte_span(bytes, start, end)));
    packed.push(pattern);
    packed.push(start16);
    packed.push(end16);
    *last_byte = end;
    *last_utf16 = end16;
    assert(final(packed)@ =~= old(packed)@ + seq![pattern, start16, end16]);
}

/// Packs candidates as triples with byte offsets clamped to `u32`.
pub fn pack_candidates_plain(selected: &Vec<ByteMatchCandidate>) -> (r: Vec<u32>)
    ensures
        r@ == pack_plain(candidate_triples(selected@)),
{
    let ghost ms = candidate_triples(selected@);
    let mut packed: Vec<u32> = Vec::new();
    let n = selected.len();
    let mut i: usize = 0;
    while i < n
        invariant
            n == selected@.len(),
            ms == candidate_triples(selected@),
            0 <= i <= n,
            packed@ == pack_plain(ms.take(i as int)),
        decreases n - i,
    {
        let m = selected[i];
        push_plain(&mut packed, m.pattern, m.start, m.end);
        proof {
            assert(ms.take(i + 1).drop_last() =~= ms.take(i as int));
        }
        i = i + 1;
    }
    proof {
        assert(ms.take(n as int) =~= ms);
    }
    packed
}

/// Packs the matches chosen among whole-word candidates, in UTF-16 offsets
/// (byte offsets on ASCII text).
pub fn pack_leftmost_longest_whole_word_matches(
    haystack: &str,
    candidates: Vec<ByteMatchCandidate>,
) -> (r: Vec<u32>)
    ensures
        r@ == pack_for_text(haystack, candidate_triples(select_spec(candidates@))),
{
    let selected = select_leftmost_longest_whole_word_matches(candidates);
    let ghost ms = candidate_triples(selected@);
    if selected.len() == 0 {
        proof {
            assert(ms =~= Seq::<Triple>::empty());
        }
        return Vec::new();
    }
    if haystack.is_ascii() {
        return pack_candidates_plain(&selected);
    }
    let mut packed: Vec<u32> = Vec::new();
    let n = selected.len();
    let bytes = haystack.as_bytes();
    let mut last_byte: usize = 0;
    let mut last_utf16: u32 = 0;
    let mut i: usize = 0;
    while i < n
        invariant
            n == selected@.len(),
            ms == candidate_triples(selected@),
            bytes@ == haystack.spec_bytes(),
            0 <= i <= n,
            utf16_walk(bytes@, ms.take(i as int)) == (packed@, last_byte as int, last_utf16),
        decreases n - i,
    {
        let m = selected[i];
        push_utf16(bytes, &mut packed, &mut last_byte, &mut last_utf16, m.pattern, m.start, m.end);
        proof {
            assert(ms.take(i + 1).drop_last() =~= ms.take(i as int));
        }
        i = i + 1;
    }
    proof {
        assert(ms.take(n as int) =~= ms);
    }
    packed
}

} // verus!

verus! {

/// Whether matches lie on character boundaries of valid UTF-8, left to right
/// without overlapping (each ends no later than the next starts).
pub open spec fn in_order_on_boundaries(b: Seq<u8>, ms: Seq<Triple>) -> bool {
    &&& valid_utf8(b)
    &&& forall|k: int|
        0 <= k < ms.len() ==> (#[trigger] ms[k]).1 <= ms[k].2 <= b.len() && is_char_boundary(
            b,
            ms[k].1 as int,
        ) && is_char_boundary(b, ms[k].2 as int)
    &&& forall|k: int| 0 <= k < ms.len() - 1 ==> (#[trigger] ms[k]).2 <= ms[k + 1].1
}

/// Matches as `[pattern, start, end]` triples whose offsets are the UTF-16
/// lengths of the text before them.
pub open spec fn pack_utf16_exact(b: Seq<u8>, ms: Seq<Triple>) -> Seq<u32>
    decreases ms.len(),
{
    if ms.len() == 0 {
        seq![]
    } else {
        pack_utf16_exact(b, ms.drop_last()) + seq![
            ms.last().0,
            utf16_prefix(b, ms.last().1 as int) as u32,
            utf16_prefix(b, ms.last().2 as int) as u32,
        ]
    }
}

/// UTF-16 offsets are exact: for matches in order on character boundaries of
/// text whose UTF-16 length fits `u32`, each reported offset is the number of
/// UTF-16 code units of the text before it.
pub proof fn lemma_pack_utf16_exact(b: Seq<u8>, ms: Seq<Triple>)
    requires
        in_order_on_boundaries(b, ms),
        utf16_len(decode_utf8(b)) <= u32::MAX,
    ensures
        pack_utf16(b, ms) == pack_utf16_exact(b, ms),
        utf16_walk(b, ms).1 == (if ms.len() == 0 { 0 } else { ms.last().2 as int }),
        utf16_walk(b, ms).2 == utf16_prefix(b, utf16_walk(b, ms).1),
    decreases ms.len(),
{
    if ms.len() == 0 {
        assert(b.subrange(0, 0) =~= Seq::<u8>::empty());
        assert(decode_utf8(Seq::<u8>::empty()) =~= Seq::<char>::empty());
    } else {
        let prev = ms.drop_last();
        assert forall|k: int| 0 <= k < prev.len() implies (#[trigger] prev[k]).1 <= prev[k].2 <= b.len()
            && is_char_boundary(b, prev[k].1 as int) && is_char_boundary(b, prev[k].2 as int) by {
            assert(prev[k] == ms[k]);
        }
        assert forall|k: int| 0 <= k < prev.len() - 1 implies (#[trigger] prev[k]).2 <= prev[k + 1].1 by {
            assert(prev[k] == ms[k]);
            assert(prev[k + 1] == ms[k + 1]);
        }
        lemma_pack_utf16_exact(b, prev);
        let w = utf16_walk(b, prev);
        let m = ms.last();
        let lp = w.1;
        assert(ms[ms.len() - 1] == m);
        if prev.len() > 0 {
            assert(ms[ms.len() - 2] == prev.last());
            assert(is_char_boundary(b, lp));
        } else {
            is_char_boundary_start_end_of_seq(b);
        }
        lemma_utf16_prefix_split(b, lp, m.1 as int);
        lemma_utf16_prefix_split(b, m.1 as int, m.2 as int);
        assert(span_or_empty(b, lp, m.1 as int) == b.subrange(lp, m.1 as int));
        assert(span_or_empty(b, m.1 as int, m.2 as int) == b.subrange(m.1 as int, m.2 as int));
    }
}

} // verus!

verus! {

/// Characters inside the Basic Multilingual Plane count one UTF-16 unit each.
pub proof fn lemma_utf16_len_bmp(cs: Seq<char>)
    requires
        forall|i: int| 0 <= i < cs.len() ==> (#[trigger] cs[i] as u32) < 0x10000,
    ensures
        utf16_len(cs) == cs.len(),
    decreases cs.len(),
{
    if cs.len() > 0 {
        let prev = cs.drop_last();
        assert forall|i: int| 0 <= i < prev.len() implies (#[trigger] prev[i] as u32) < 0x10000 by {
            assert(prev[i] == cs[i]);
        }
        lemma_utf16_len_bmp(prev);
        assert(cs.last() == cs[cs.len() - 1]);
    }
}

/// On ASCII text the UTF-16 length before an offset is the offset itself.
pub proof fn lemma_ascii_utf16_prefix(haystack: &str, p: int)
    requires
        is_ascii(haystack),
        0 <= p <= haystack@.len(),
    ensures
        haystack.spec_bytes().len() == haystack@.len(),
        utf16_prefix(haystack.spec_bytes(), p) == p,
{
    let cs = haystack@;
    let b = haystack.spec_bytes();
    is_ascii_chars_encode_utf8(cs);
    let pre = cs.take(p);
    assert(is_ascii_chars(pre)) by {
        assert forall|i: int| 0 <= i < pre.len() implies '\0' <= #[trigger] pre[i] <= '\u{7f}' by {
            assert(pre[i] == cs[i]);
        }
    }
    is_ascii_chars_encode_utf8(pre);
    assert(b.subrange(0, p) =~= encode_utf8(pre)) by {
        assert forall|i: int| 0 <= i < p implies #[trigger] b.subrange(0, p)[i] == encode_utf8(pre)[i] by {
            assert(pre[i] == cs[i]);
        }
    }
    encode_utf8_decode_utf8(pre);
    assert forall|i: int| 0 <= i < pre.len() implies (#[trigger] pre[i] as u32) < 0x10000 by {
        assert('\0' <= pre[i] <= '\u{7f}');
    }
    lemma_utf16_len_bmp(pre);
}

/// What a text search reports is in exact UTF-16 offsets, on ASCII text too
/// (where byte offsets are used as they are): for matches in order on
/// character boundaries of a text whose UTF-16 length fits `u32`, each offset
/// is the number of UTF-16 code units before it.
pub proof fn lemma_pack_for_text_exact(haystack: &str, ms: Seq<Triple>)
    requires
        in_order_on_boundaries(haystack.spec_bytes(), ms),
        utf16_len(haystack@) <= u32::MAX,
    ensures
        pack_for_text(haystack, ms) == pack_utf16_exact(haystack.spec_bytes(), ms),
    decreases ms.len(),
{
    let b = haystack.spec_bytes();
    encode_utf8_decode_utf8(haystack@);
    if is_ascii(haystack) {
        if ms.len() > 0 {
            let prev = ms.drop_last();
            assert forall|k: int| 0 <= k < prev.len() implies (#[trigger] prev[k]).1 <= prev[k].2 <= b.len()
                && is_char_boundary(b, prev[k].1 as int) && is_char_boundary(b, prev[k].2 as int) by {
                assert(prev[k] == ms[k]);
            }
            assert forall|k: int| 0 <= k < prev.len() - 1 implies (#[trigger] prev[k]).2 <= prev[k + 1].1 by {
                assert(prev[k] == ms[k]);
                assert(prev[k + 1] == ms[k + 1]);
            }
            lemma_pack_for_text_exact(haystack, prev);
            let m = ms.last();
            assert(ms[ms.len() - 1] == m);
            lemma_ascii_utf16_prefix(haystack, m.1 as int);
            lemma_ascii_utf16_prefix(haystack, m.2 as int);
            lemma_ascii_utf16_prefix(haystack, haystack@.len() as int);
            assert(b.subrange(0, b.len() as int) =~= b);
        }
    } else {
        lemma_pack_utf16_exact(b, ms);
    }
}

} // verus!

verus! {

/// Packing gives three numbers per match, in byte or in UTF-16 offsets.
pub proof fn lemma_pack_lengths(b: Seq<u8>, ms: Seq<Triple>)
    ensures
        pack_plain(ms).len() == 3 * ms.len(),
        pack_utf16(b, ms).len() == 3 * ms.len(),
    decreases ms.len(),
{
    if ms.len() > 0 {
        lemma_pack_lengths(b, ms.drop_last());
    }
}

} // verus!
