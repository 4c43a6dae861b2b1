//! Where matches lie: an occurrence of a non-empty UTF-8 pattern in UTF-8 text
//! starts and ends at character boundaries, and character boundaries of folded
//! text map back to character boundaries of the original.
use vstd::prelude::*;
use vstd::string::*;
use vstd::utf8::*;
use crate::folding::{fold_mapping_of, fold_text, lemma_fold_mapping_maps_back, lemma_kept_widths_offsets};
use crate::offsets::char_offset;
use crate::automaton::{is_occurrence, non_overlapping, occurrences_of};
use crate::results::orig_triples;
use crate::search::{search_chars, text_orig_pos, text_value_bytes};
use crate::text::{
    lemma_encode_utf8_concat, lemma_encode_utf8_prefix_len, lemma_encode_utf8_proper_prefix, lemma_encode_utf8_push,
};

verus! {

/// A boundary within the bytes from a boundary `x` on is a boundary of the whole.
proof fn lemma_boundary_shift(b: Seq<u8>, x: int, k: int)
    requires
        valid_utf8(b),
        0 <= x <= b.len(),
        is_char_boundary(b, x),
        valid_utf8(b.subrange(x, b.len() as int)),
        is_char_boundary(b.subrange(x, b.len() as int), k),
    ensures
        0 <= k <= b.len() - x,
        is_char_boundary(b, x + k),
{
    let c = b.subrange(x, b.len() as int);
    if k != 0 {
        assert(0 < k <= c.len());
        if x + k == b.len() {
            is_char_boundary_start_end_of_seq(b);
        } else {
            is_char_boundary_iff_not_is_continuation_byte(c, k);
            assert(c[k] == b[x + k]);
            is_char_boundary_iff_not_is_continuation_byte(b, x + k);
        }
    }
}

/// From a boundary before the end, the next boundary is one character further.
proof fn lemma_next_boundary(b: Seq<u8>, x: int)
    requires
        valid_utf8(b),
        0 <= x < b.len(),
        is_char_boundary(b, x),
    ensures
        1 <= length_of_first_scalar(b.subrange(x, b.len() as int)) <= b.len() - x,
        is_char_boundary(b, x + length_of_first_scalar(b.subrange(x, b.len() as int))),
{
    let c = b.subrange(x, b.len() as int);
    valid_utf8_split(b, x);
    assert(valid_first_scalar(c));
    let lf = length_of_first_scalar(c);
    assert(is_char_boundary(c, lf)) by {
        reveal_with_fuel(is_char_boundary, 2);
        valid_utf8_split(c, 0);
        assert(valid_utf8(pop_first_scalar(c)));
    }
    lemma_boundary_shift(b, x, lf);
}

/// The character offsets of a pattern placed at a boundary `s` of the text
/// are boundaries of the text, up to the `i`-th.
proof fn lemma_occurrence_offsets(b: Seq<u8>, s: int, pc: Seq<char>, i: int)
    requires
        valid_utf8(b),
        0 <= s,
        s + encode_utf8(pc).len() <= b.len(),
        b.subrange(s, s + encode_utf8(pc).len()) == encode_utf8(pc),
        is_char_boundary(b, s),
        0 <= i <= pc.len(),
    ensures
        is_char_boundary(b, s + encode_utf8(pc.take(i)).len()),
    decreases i,
{
    if i == 0 {
        assert(pc.take(0) =~= Seq::<char>::empty());
    } else {
        lemma_occurrence_offsets(b, s, pc, i - 1);
        let p = encode_utf8(pc);
        let t0 = encode_utf8(pc.take(i - 1)).len() as int;
        lemma_encode_utf8_proper_prefix(pc, i - 1);
        let x = s + t0;
        lemma_next_boundary(b, x);
        lemma_encode_utf8_concat(pc.take(i - 1), pc.skip(i - 1));
        assert(pc.take(i - 1) + pc.skip(i - 1) =~= pc);
        let rest = encode_utf8(pc.skip(i - 1));
        encode_utf8_first_scalar(pc.skip(i - 1));
        assert(rest[0] == p[t0]);
        assert(b.subrange(s, s + p.len())[t0] == b[x]);
        assert(b.subrange(x, b.len() as int)[0] == b[x]);
        assert(length_of_first_scalar(b.subrange(x, b.len() as int)) == length_of_first_scalar(rest));
        assert(pc.skip(i - 1)[0] == pc[i - 1]);
        assert(pc.take(i) =~= pc.take(i - 1).push(pc[i - 1]));
        lemma_encode_utf8_push(pc.take(i - 1), pc[i - 1]);
    }
}

/// An occurrence of a non-empty UTF-8 pattern in valid UTF-8 starts and ends
/// at character boundaries.
pub proof fn lemma_occurrence_on_boundaries(b: Seq<u8>, s: int, pc: Seq<char>)
    requires
        valid_utf8(b),
        pc.len() > 0,
        0 <= s,
        s + encode_utf8(pc).len() <= b.len(),
        b.subrange(s, s + encode_utf8(pc).len()) == encode_utf8(pc),
    ensures
        is_char_boundary(b, s),
        is_char_boundary(b, s + encode_utf8(pc).len()),
{
    let p = encode_utf8(pc);
    encode_utf8_valid_utf8(pc);
    lemma_encode_utf8_proper_prefix(pc, 0);
    assert(pc.take(0) =~= Seq::<char>::empty());
    is_char_boundary_start_end_of_seq(p);
    is_char_boundary_iff_not_is_continuation_byte(p, 0);
    assert(b.subrange(s, s + p.len())[0] == b[s]);
    is_char_boundary_iff_not_is_continuation_byte(b, s);
    lemma_occurrence_offsets(b, s, pc, pc.len() as int);
    assert(pc.take(pc.len() as int) =~= pc);
}

/// The character boundaries of encoded text are its character offsets.
pub proof fn lemma_boundary_char_index(cs: Seq<char>, x: int)
    requires
        is_char_boundary(encode_utf8(cs), x),
    ensures
        exists|j: int| 0 <= j <= cs.len() && x == #[trigger] encode_utf8(cs.take(j)).len(),
    decreases cs.len(),
{
    let b = encode_utf8(cs);
    encode_utf8_valid_utf8(cs);
    if x == 0 {
        assert(cs.take(0) =~= Seq::<char>::empty());
        assert(x == encode_utf8(cs.take(0)).len());
    } else {
        assert(cs.len() > 0) by {
            if cs.len() == 0 {
                assert(b.len() == 0);
            }
        }
        encode_utf8_first_scalar(cs);
        let lf = length_of_first_scalar(b);
        assert(pop_first_scalar(b) =~= encode_utf8(cs.drop_first()));
        assert(is_char_boundary(pop_first_scalar(b), x - lf));
        lemma_boundary_char_index(cs.drop_first(), x - lf);
        let j = choose|j: int| 0 <= j <= cs.drop_first().len() && x - lf == #[trigger] encode_utf8(
            cs.drop_first().take(j),
        ).len();
        assert(cs.take(j + 1).drop_first() =~= cs.drop_first().take(j));
        assert(cs.take(j + 1)[0] == cs[0]);
        assert(x == encode_utf8(cs.take(j + 1)).len());
    }
}

/// Every character offset of encoded text is a character boundary.
pub proof fn lemma_char_index_boundary(cs: Seq<char>, j: int)
    requires
        0 <= j <= cs.len(),
    ensures
        is_char_boundary(encode_utf8(cs), encode_utf8(cs.take(j)).len() as int),
{
    let b = encode_utf8(cs);
    encode_utf8_valid_utf8(cs);
    is_char_boundary_start_end_of_seq(b);
    assert(b.subrange(0, b.len() as int) =~= b);
    lemma_occurrence_offsets(b, 0, cs, j);
}

} // verus!

verus! {

/// The offset in the searched text where its `i`-th character starts maps back
/// to where the haystack's `i`-th character starts.
pub proof fn lemma_orig_pos_char(h: Seq<char>, case_insensitive: bool, i: int)
    requires
        encode_utf8(h).len() <= usize::MAX,
        0 <= i <= h.len(),
    ensures
        text_orig_pos(h, case_insensitive, encode_utf8(search_chars(h, case_insensitive).take(i)).len() as int)
            == encode_utf8(h.take(i)).len(),
{
    if case_insensitive {
        let f = fold_text(h);
        assert(f.take(i) =~= fold_text(h.take(i)));
        match fold_mapping_of(h) {
            Some(m) => {
                lemma_fold_mapping_maps_back(h, i);
            },
            None => {
                lemma_kept_widths_offsets(h, i);
            },
        }
    }
}

/// A character boundary of the searched text maps back to a character offset
/// of the haystack, and boundaries keep their order when mapped back.
pub proof fn lemma_orig_boundary(h: Seq<char>, case_insensitive: bool, x: int, y: int)
    requires
        encode_utf8(h).len() <= usize::MAX,
        is_char_boundary(encode_utf8(search_chars(h, case_insensitive)), x),
        is_char_boundary(encode_utf8(search_chars(h, case_insensitive)), y),
        x <= y,
    ensures
        char_offset(h, text_orig_pos(h, case_insensitive, x)),
        is_char_boundary(encode_utf8(h), text_orig_pos(h, case_insensitive, x)),
        is_char_boundary(encode_utf8(h), text_orig_pos(h, case_insensitive, y)),
        0 <= text_orig_pos(h, case_insensitive, x) <= text_orig_pos(h, case_insensitive, y) <= encode_utf8(h).len(),
{
    let sc = search_chars(h, case_insensitive);
    assert(sc.len() == h.len());
    lemma_boundary_char_index(sc, x);
    lemma_boundary_char_index(sc, y);
    let i = choose|j: int| 0 <= j <= sc.len() && x == #[trigger] encode_utf8(sc.take(j)).len();
    let j = choose|j: int| 0 <= j <= sc.len() && y == #[trigger] encode_utf8(sc.take(j)).len();
    if i > j {
        crate::offsets::lemma_char_offsets_increase(sc, j, i);
    }
    lemma_orig_pos_char(h, case_insensitive, i);
    lemma_orig_pos_char(h, case_insensitive, j);
    if i < j {
        crate::offsets::lemma_char_offsets_increase(h, i, j);
    }
    lemma_char_index_boundary(h, i);
    lemma_char_index_boundary(h, j);
    lemma_encode_utf8_prefix_len(h, j);
    assert(char_offset(h, text_orig_pos(h, case_insensitive, x)));
}

} // verus!

verus! {

/// Occurrences of non-empty patterns in encoded text lie on character boundaries.
pub proof fn lemma_occurrences_on_boundaries(
    tv: Seq<(Seq<char>, u32)>,
    sc: Seq<char>,
    ms: Seq<(u32, usize, usize)>,
)
    requires
        occurrences_of(text_value_bytes(tv), encode_utf8(sc), ms),
        forall|k: int| 0 <= k < tv.len() ==> (#[trigger] tv[k]).0.len() > 0,
    ensures
        forall|k: int|
            #![trigger ms[k]]
            0 <= k < ms.len() ==> ms[k].1 <= ms[k].2 <= encode_utf8(sc).len() && is_char_boundary(
                encode_utf8(sc),
                ms[k].1 as int,
            ) && is_char_boundary(encode_utf8(sc), ms[k].2 as int),
{
    let b = encode_utf8(sc);
    let tvb = text_value_bytes(tv);
    encode_utf8_valid_utf8(sc);
    assert forall|k: int| #![trigger ms[k]] 0 <= k < ms.len() implies ms[k].1 <= ms[k].2 <= b.len()
        && is_char_boundary(b, ms[k].1 as int) && is_char_boundary(b, ms[k].2 as int) by {
        assert(is_occurrence(tvb, b, ms[k]));
        let p = choose|p: int|
            0 <= p < tvb.len() && #[trigger] tvb[p].1 == ms[k].0 && tvb[p].0 == b.subrange(
                ms[k].1 as int,
                ms[k].2 as int,
            );
        assert(tvb[p].0 == encode_utf8(tv[p].0));
        lemma_occurrence_on_boundaries(b, ms[k].1 as int, tv[p].0);
    }
}

/// Matches on boundaries of the searched text, mapped back, lie on boundaries
/// of the haystack at character offsets, and keep their order.
pub proof fn lemma_orig_triples_on_boundaries(h: Seq<char>, case_insensitive: bool, ms: Seq<(u32, usize, usize)>)
    requires
        encode_utf8(h).len() <= usize::MAX,
        forall|k: int|
            #![trigger ms[k]]
            0 <= k < ms.len() ==> ms[k].1 <= ms[k].2 && is_char_boundary(
                encode_utf8(search_chars(h, case_insensitive)),
                ms[k].1 as int,
            ) && is_char_boundary(encode_utf8(search_chars(h, case_insensitive)), ms[k].2 as int),
    ensures
        forall|k: int|
            #![trigger orig_triples(h, case_insensitive, ms)[k]]
            0 <= k < ms.len() ==> orig_triples(h, case_insensitive, ms)[k].1 <= orig_triples(
                h,
                case_insensitive,
                ms,
            )[k].2 <= encode_utf8(h).len() && is_char_boundary(
                encode_utf8(h),
                orig_triples(h, case_insensitive, ms)[k].1 as int,
            ) && is_char_boundary(encode_utf8(h), orig_triples(h, case_insensitive, ms)[k].2 as int)
                && char_offset(h, orig_triples(h, case_insensitive, ms)[k].1 as int) && char_offset(
                h,
                orig_triples(h, case_insensitive, ms)[k].2 as int,
            ),
        non_overlapping(ms) ==> forall|k: int|
            #![trigger orig_triples(h, case_insensitive, ms)[k]]
            0 <= k < ms.len() - 1 ==> orig_triples(h, case_insensitive, ms)[k].2 <= orig_triples(
                h,
                case_insensitive,
                ms,
            )[k + 1].1,
        orig_triples(h, case_insensitive, ms).len() == ms.len(),
{
    let o = orig_triples(h, case_insensitive, ms);
    assert forall|k: int| #![trigger o[k]] 0 <= k < ms.len() implies o[k].1 <= o[k].2 <= encode_utf8(h).len()
        && is_char_boundary(encode_utf8(h), o[k].1 as int) && is_char_boundary(encode_utf8(h), o[k].2 as int)
        && char_offset(h, o[k].1 as int) && char_offset(h, o[k].2 as int) by {
        assert(ms[k].1 <= ms[k].2);
        lemma_orig_boundary(h, case_insensitive, ms[k].1 as int, ms[k].2 as int);
        lemma_orig_boundary(h, case_insensitive, ms[k].2 as int, ms[k].2 as int);
    }
    if non_overlapping(ms) {
        assert forall|k: int| #![trigger o[k]] 0 <= k < ms.len() - 1 implies o[k].2 <= o[k + 1].1 by {
            assert(ms[k].2 <= ms[k + 1].1);
            assert(ms[k + 1].1 <= ms[k + 1].2);
            lemma_orig_boundary(h, case_insensitive, ms[k].2 as int, ms[k + 1].1 as int);
        }
    }
}

} // verus!
