//! What a searcher's searches report, stated over the matches of its automata.
use vstd::prelude::*;
use vstd::string::*;
use vstd::utf8::*;
use crate::boundary::whole_word;
use crate::error::Error;
use crate::options::{BoundaryMode, Match};
use crate::pack::{Triple, in_order_on_boundaries};
use crate::folding::{effective_text, first_occurrences};
use crate::options::RawMatchKind;
use crate::search::{
    CaseFoldingAC, built_from, bytes_orig_pos, main_search, overlap_search, search_bytes_of,
    search_chars, text_orig_pos,
};
use crate::select::{ByteMatchCandidate, select_spec};
use crate::utf16::clamp_u32;

verus! {

/// The bytes searched for a text haystack.
pub open spec fn text_hay(e: CaseFoldingAC, h: Seq<char>) -> Seq<u8> {
    encode_utf8(search_chars(h, e.folds()))
}

/// A match with its offsets mapped back to the original text.
pub open spec fn orig_triple(h: Seq<char>, case_insensitive: bool, m: Triple) -> Triple {
    (
        m.0,
        text_orig_pos(h, case_insensitive, m.1 as int) as usize,
        text_orig_pos(h, case_insensitive, m.2 as int) as usize,
    )
}

/// Matches with their offsets mapped back to the original text.
pub open spec fn orig_triples(h: Seq<char>, case_insensitive: bool, ms: Seq<Triple>) -> Seq<Triple> {
    ms.map_values(|m: Triple| orig_triple(h, case_insensitive, m))
}

/// The non-overlapping matches in a text haystack, in original byte offsets.
pub open spec fn main_hits(e: CaseFoldingAC, h: Seq<char>) -> Seq<Triple> {
    orig_triples(h, e.folds(), main_search(e.main_contents(), e.kind(), text_hay(e, h)))
}

/// All overlapping matches in a text haystack, in original byte offsets, for
/// the overlapping automaton given by its image.
pub open spec fn overlap_hits(
    e: CaseFoldingAC,
    contents: Option<Seq<u8>>,
    h: Seq<char>,
) -> Seq<Triple> {
    orig_triples(h, e.folds(), overlap_search(contents, text_hay(e, h)))
}

/// The matches that are whole words, as candidates, in their original order.
pub open spec fn whole_word_candidates(b: Seq<u8>, ms: Seq<Triple>, mode: BoundaryMode) -> Seq<
    ByteMatchCandidate,
>
    decreases ms.len(),
{
    if ms.len() == 0 {
        seq![]
    } else {
        let prev = whole_word_candidates(b, ms.drop_last(), mode);
        let m = ms.last();
        if whole_word(b, m.1 as int, m.2 as int, mode) {
            prev.push(ByteMatchCandidate { pattern: m.0, start: m.1, end: m.2 })
        } else {
            prev
        }
    }
}

/// The matches in a byte haystack, in original byte offsets.
pub open spec fn bytes_hits(e: CaseFoldingAC, b: Seq<u8>) -> Seq<Triple> {
    main_search(e.main_contents(), e.kind(), search_bytes_of(b, e.folds())).map_values(
        |m: Triple|
            (
                m.0,
                bytes_orig_pos(b, e.folds(), m.1 as int) as usize,
                bytes_orig_pos(b, e.folds(), m.2 as int) as usize,
            ),
    )
}

/// A match record with offsets clamped to `u32`.
pub open spec fn match_of(m: Triple) -> Match {
    Match { pattern: m.0, start: clamp_u32(m.1 as int), end: clamp_u32(m.2 as int) }
}

/// Match records for matches.
pub open spec fn matches_of(ms: Seq<Triple>) -> Seq<Match> {
    ms.map_values(|m: Triple| match_of(m))
}

} // verus!

verus! {

/// Whether `[start, end)` is a span of whole characters of the text.
pub open spec fn span_ok(b: Seq<u8>, start: int, end: int) -> bool {
    start <= end && is_char_boundary(b, start) && is_char_boundary(b, end)
}

/// The result of replacing the matches from the `i`-th on, the previous match
/// having ended at byte `last`: the text between matches is kept, each match is
/// replaced by its pattern's replacement. Fails on a span that does not fall on
/// character boundaries, or on a pattern without a replacement.
pub open spec fn replaced_from(
    b: Seq<u8>,
    ms: Seq<Triple>,
    i: int,
    last: int,
    replacements: Seq<String>,
) -> Result<Seq<char>, Error>
    decreases ms.len() - i,
{
    if i < 0 || i >= ms.len() {
        if span_ok(b, last, b.len() as int) {
            Ok(crate::text::span_chars(b, last, b.len() as int))
        } else {
            Err(Error::InvalidUtf8Span)
        }
    } else {
        let m = ms[i];
        if !span_ok(b, last, m.1 as int) {
            Err(Error::InvalidUtf8Span)
        } else if m.0 as int >= replacements.len() {
            Err(Error::MissingReplacement { pattern: m.0 })
        } else {
            match replaced_from(b, ms, i + 1, m.2 as int, replacements) {
                Ok(rest) => Ok(
                    crate::text::span_chars(b, last, m.1 as int) + replacements[m.0 as int]@ + rest,
                ),
                Err(e) => Err(e),
            }
        }
    }
}

/// The haystack with each match replaced by its pattern's replacement.
pub open spec fn replaced(haystack: &str, ms: Seq<Triple>, replacements: Seq<String>) -> Result<
    Seq<char>,
    Error,
> {
    replaced_from(haystack.spec_bytes(), ms, 0, 0, replacements)
}

/// Whether a string result agrees with an expected text result.
pub open spec fn text_result_is(r: Result<String, Error>, expected: Result<Seq<char>, Error>) -> bool {
    match r {
        Ok(s) => expected == Ok::<Seq<char>, Error>(s@),
        Err(e) => expected == Err::<Seq<char>, Error>(e),
    }
}

/// Text in front of a result.
pub open spec fn prefixed(pre: Seq<char>, r: Result<Seq<char>, Error>) -> Result<Seq<char>, Error> {
    match r {
        Ok(rest) => Ok(pre + rest),
        Err(e) => Err(e),
    }
}

} // verus!

verus! {

/// Without patterns nothing is found: a searcher built from no patterns has no
/// automaton, so its non-overlapping, overlapping and byte searches report no
/// match on any haystack, and there is nothing to choose among whole words.
pub proof fn lemma_no_patterns_find_nothing(
    e: CaseFoldingAC,
    kind: RawMatchKind,
    case_insensitive: bool,
    h: Seq<char>,
    b: Seq<u8>,
    mode: BoundaryMode,
)
    requires
        built_from(e, Seq::<String>::empty(), kind, case_insensitive),
    ensures
        e.main_contents() is None,
        e.overlap_contents() == Ok::<Option<Seq<u8>>, Seq<char>>(None),
        main_hits(e, h) == Seq::<Triple>::empty(),
        overlap_hits(e, None, h) == Seq::<Triple>::empty(),
        bytes_hits(e, b) == Seq::<Triple>::empty(),
        select_spec(whole_word_candidates(b, Seq::<Triple>::empty(), mode)) == Seq::<ByteMatchCandidate>::empty(),
{
    let ps = Seq::<String>::empty().map_values(|p: String| effective_text(p@, case_insensitive));
    assert(ps =~= Seq::<Seq<char>>::empty());
    assert(first_occurrences(ps) =~= Seq::<(Seq<char>, u32)>::empty());
    assert(main_hits(e, h) =~= Seq::<Triple>::empty());
    assert(overlap_hits(e, None, h) =~= Seq::<Triple>::empty());
    assert(bytes_hits(e, b) =~= Seq::<Triple>::empty());
    let none = whole_word_candidates(b, Seq::<Triple>::empty(), mode);
    assert(none =~= Seq::<ByteMatchCandidate>::empty());
    crate::select::lemma_select_spec_properties(none);
}

} // verus!

verus! {

/// The whole-word candidates are matches that are whole words, kept in order.
pub proof fn lemma_whole_word_candidates_from(b: Seq<u8>, ms: Seq<Triple>, mode: BoundaryMode)
    ensures
        forall|k: int|
            #![trigger whole_word_candidates(b, ms, mode)[k]]
            0 <= k < whole_word_candidates(b, ms, mode).len() ==> whole_word(
                b,
                whole_word_candidates(b, ms, mode)[k].start as int,
                whole_word_candidates(b, ms, mode)[k].end as int,
                mode,
            ) && exists|i: int|
                0 <= i < ms.len() && #[trigger] ms[i] == whole_word_candidates(b, ms, mode)[k].triple(),
    decreases ms.len(),
{
    if ms.len() > 0 {
        let prev = ms.drop_last();
        lemma_whole_word_candidates_from(b, prev, mode);
        let c = whole_word_candidates(b, ms, mode);
        let cp = whole_word_candidates(b, prev, mode);
        assert forall|k: int| #![trigger c[k]] 0 <= k < c.len() implies whole_word(
            b,
            c[k].start as int,
            c[k].end as int,
            mode,
        ) && exists|i: int| 0 <= i < ms.len() && #[trigger] ms[i] == c[k].triple() by {
            if k < cp.len() {
                assert(c[k] == cp[k]);
                let i = choose|i: int| 0 <= i < prev.len() && #[trigger] prev[i] == cp[k].triple();
                assert(ms[i] == prev[i]);
            } else {
                assert(ms[ms.len() - 1] == ms.last());
            }
        }
    }
}

} // verus!

verus! {

/// Whole-word search reports only whole words: each match chosen among the
/// whole-word candidates of some matches is one of those matches and is a
/// whole word.
pub proof fn lemma_chosen_are_whole_words(b: Seq<u8>, ms: Seq<Triple>, mode: BoundaryMode)
    ensures
        forall|k: int|
            #![trigger select_spec(whole_word_candidates(b, ms, mode))[k]]
            0 <= k < select_spec(whole_word_candidates(b, ms, mode)).len() ==> whole_word(
                b,
                select_spec(whole_word_candidates(b, ms, mode))[k].start as int,
                select_spec(whole_word_candidates(b, ms, mode))[k].end as int,
                mode,
            ) && ms.contains(select_spec(whole_word_candidates(b, ms, mode))[k].triple()),
{
    let c = whole_word_candidates(b, ms, mode);
    let g = select_spec(c);
    lemma_whole_word_candidates_from(b, ms, mode);
    crate::select::lemma_select_spec_properties(c);
    assert forall|k: int| #![trigger g[k]] 0 <= k < g.len() implies whole_word(
        b,
        g[k].start as int,
        g[k].end as int,
        mode,
    ) && ms.contains(g[k].triple()) by {
        assert(c.contains(g[k]));
        let j = choose|j: int| 0 <= j < c.len() && c[j] == g[k];
        assert(whole_word(b, c[j].start as int, c[j].end as int, mode));
        let i = choose|i: int| 0 <= i < ms.len() && #[trigger] ms[i] == c[j].triple();
    }
}

} // verus!

verus! {

/// Replacing matches in order on character boundaries, each with a
/// replacement at hand, cannot fail, from any match on.
proof fn lemma_replaced_from_ok(b: Seq<u8>, ms: Seq<Triple>, i: int, last: int, replacements: Seq<String>)
    requires
        in_order_on_boundaries(b, ms),
        forall|k: int| 0 <= k < ms.len() ==> ((#[trigger] ms[k]).0 as int) < replacements.len(),
        0 <= i <= ms.len(),
        0 <= last <= b.len(),
        is_char_boundary(b, last),
        i < ms.len() ==> last <= ms[i].1,
    ensures
        replaced_from(b, ms, i, last, replacements) is Ok,
    decreases ms.len() - i,
{
    if i < ms.len() {
        let m = ms[i];
        if i + 1 < ms.len() {
            assert(ms[i].2 <= ms[i + 1].1);
        }
        lemma_replaced_from_ok(b, ms, i + 1, m.2 as int, replacements);
    } else {
        is_char_boundary_start_end_of_seq(b);
    }
}

/// Replacing matches in order on character boundaries, each with a
/// replacement at hand, gives a text.
pub proof fn lemma_replaced_ok(haystack: &str, ms: Seq<Triple>, replacements: Seq<String>)
    requires
        in_order_on_boundaries(haystack.spec_bytes(), ms),
        forall|k: int| 0 <= k < ms.len() ==> ((#[trigger] ms[k]).0 as int) < replacements.len(),
    ensures
        replaced(haystack, ms, replacements) is Ok,
{
    is_char_boundary_start_end_of_seq(haystack.spec_bytes());
    lemma_replaced_from_ok(haystack.spec_bytes(), ms, 0, 0, replacements);
}

} // verus!

verus! {

/// Replacing matches in order on character boundaries, each by a replacement
/// whose text is exactly the matched bytes, gives text whose encoding is the
/// bytes from `last` on.
proof fn lemma_replaced_from_own(b: Seq<u8>, ms: Seq<Triple>, i: int, last: int, replacements: Seq<String>)
    requires
        in_order_on_boundaries(b, ms),
        0 <= last <= b.len(),
        is_char_boundary(b, last),
        0 <= i <= ms.len(),
        i < ms.len() ==> last <= ms[i].1,
        forall|k: int|
            0 <= k < ms.len() ==> ((#[trigger] ms[k]).0 as int) < replacements.len() && encode_utf8(
                replacements[ms[k].0 as int]@,
            ) == b.subrange(ms[k].1 as int, ms[k].2 as int),
    ensures
        replaced_from(b, ms, i, last, replacements) matches Ok(r) && encode_utf8(r) == b.subrange(
            last,
            b.len() as int,
        ),
    decreases ms.len() - i,
{
    is_char_boundary_start_end_of_seq(b);
    if i >= ms.len() {
        crate::utf16::lemma_utf16_prefix_split(b, last, b.len() as int);
        decode_utf8_encode_utf8(b.subrange(last, b.len() as int));
    } else {
        let m = ms[i];
        if i + 1 < ms.len() {
            assert(ms[i].2 <= ms[i + 1].1);
        }
        lemma_replaced_from_own(b, ms, i + 1, m.2 as int, replacements);
        let rest = replaced_from(b, ms, i + 1, m.2 as int, replacements)->Ok_0;
        crate::utf16::lemma_utf16_prefix_split(b, last, m.1 as int);
        decode_utf8_encode_utf8(b.subrange(last, m.1 as int));
        let pre = crate::text::span_chars(b, last, m.1 as int);
        let rep = replacements[m.0 as int]@;
        crate::text::lemma_encode_utf8_concat(pre, rep);
        crate::text::lemma_encode_utf8_concat(pre + rep, rest);
        assert(b.subrange(last, m.1 as int) + b.subrange(m.1 as int, m.2 as int) + b.subrange(
            m.2 as int,
            b.len() as int,
        ) =~= b.subrange(last, b.len() as int));
    }
}

/// Replacing each match by a replacement whose text is exactly the matched
/// bytes gives back the haystack.
pub proof fn lemma_replaced_by_own_text(haystack: &str, ms: Seq<Triple>, replacements: Seq<String>)
    requires
        in_order_on_boundaries(haystack.spec_bytes(), ms),
        forall|k: int|
            0 <= k < ms.len() ==> ((#[trigger] ms[k]).0 as int) < replacements.len() && encode_utf8(
                replacements[ms[k].0 as int]@,
            ) == haystack.spec_bytes().subrange(ms[k].1 as int, ms[k].2 as int),
    ensures
        replaced(haystack, ms, replacements) == Ok::<Seq<char>, Error>(haystack@),
{
    let b = haystack.spec_bytes();
    is_char_boundary_start_end_of_seq(b);
    if ms.len() > 0 {
        assert(0 <= ms[0].1);
    }
    lemma_replaced_from_own(b, ms, 0, 0, replacements);
    let r = replaced(haystack, ms, replacements)->Ok_0;
    assert(b.subrange(0, b.len() as int) =~= b);
    encode_utf8_decode_utf8(r);
    encode_utf8_decode_utf8(haystack@);
}

} // verus!

verus! {

/// Every match that is a whole word is a whole-word candidate: none is
/// dropped, whatever other matches share its start or end.
pub proof fn lemma_whole_word_candidates_complete(b: Seq<u8>, ms: Seq<Triple>, mode: BoundaryMode)
    ensures
        forall|i: int|
            #![trigger ms[i]]
            0 <= i < ms.len() && whole_word(b, ms[i].1 as int, ms[i].2 as int, mode) ==> exists|j: int|
                0 <= j < whole_word_candidates(b, ms, mode).len() && #[trigger] whole_word_candidates(
                    b,
                    ms,
                    mode,
                )[j].triple() == ms[i],
    decreases ms.len(),
{
    if ms.len() > 0 {
        let prev = ms.drop_last();
        lemma_whole_word_candidates_complete(b, prev, mode);
        let c = whole_word_candidates(b, ms, mode);
        let cp = whole_word_candidates(b, prev, mode);
        assert forall|i: int|
            #![trigger ms[i]]
            0 <= i < ms.len() && whole_word(b, ms[i].1 as int, ms[i].2 as int, mode) implies exists|j: int|
                0 <= j < c.len() && #[trigger] c[j].triple() == ms[i] by {
            if i < prev.len() {
                assert(prev[i] == ms[i]);
                let j = choose|j: int| 0 <= j < cp.len() && #[trigger] cp[j].triple() == prev[i];
                assert(c[j] == cp[j]);
            } else {
                let m = ms.last();
                assert(ms[i] == m);
                assert(c[cp.len() as int].triple() == m);
            }
        }
    }
}

} // verus!
