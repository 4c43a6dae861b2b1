//! Simple Unicode case folding of patterns and haystacks, and the map from byte
//! offsets in folded text back to byte offsets in the original text.
use vstd::prelude::*;
use vstd::string::*;
use vstd::utf8::*;
use crate::error::Error;
use crate::text::{char_len_utf8, lemma_encode_utf8_prefix_len, lemma_encode_utf8_push, push_char, utf8_width};

verus! {

broadcast use {vstd::string::group_string_axioms, vstd::utf8::group_utf8_lib};

/// What `unicode_case_mapping::case_folded` answers for a character: its simple
/// case folding (Unicode `CaseFolding.txt`, statuses C and S) as a code point,
/// or nothing when the character folds to itself.
pub uninterp spec fn unicode_simple_fold(c: char) -> Option<u32>;

/// `unicode_case_mapping::case_folded`: a character's simple case folding.
#[verifier::external_body]
pub(crate) fn case_folded(c: char) -> (r: Option<u32>)
    ensures
        r == unicode_simple_fold(c),
{
    unicode_case_mapping::case_folded(c).map(|n| n.get())
}

/// `char::from_u32`: the character with a code point, when it is a Unicode scalar value.
#[verifier::external_body]
pub(crate) fn char_from_u32(n: u32) -> (r: Option<char>)
    ensures
        r == (if is_scalar(n) {
            Some(n as char)
        } else {
            None::<char>
        }),
{
    char::from_u32(n)
}

/// The ASCII lower case of a character (other characters are unchanged).
pub open spec fn ascii_lower(c: char) -> char {
    if 'A' <= c <= 'Z' {
        ((c as u32) + 32) as char
    } else {
        c
    }
}

/// The ASCII lower case of a byte (other bytes are unchanged).
pub open spec fn ascii_lower_byte(b: u8) -> u8 {
    if 0x41 <= b <= 0x5A {
        (b + 32) as u8
    } else {
        b
    }
}

/// Simple case folding of one character: ASCII lower case for ASCII, `İ` to
/// `i`, and otherwise the Unicode simple case folding when it exists.
pub open spec fn fold_char(c: char) -> char {
    if (c as u32) < 0x80 {
        ascii_lower(c)
    } else if c as u32 == 0x130 {
        'i'
    } else {
        match unicode_simple_fold(c) {
            Some(n) => if is_scalar(n) {
                n as char
            } else {
                c
            },
            None => c,
        }
    }
}

/// Simple case folding of a character sequence, character by character.
pub open spec fn fold_text(cs: Seq<char>) -> Seq<char> {
    cs.map_values(|c: char| fold_char(c))
}

/// Folds one character: ASCII lower case, Turkic `İ` to `i`, and otherwise the
/// Unicode simple case folding. Always exactly one character.
pub fn simple_case_fold(ch: char) -> (r: char)
    ensures
        r == fold_char(ch),
{
    if (ch as u32) < 0x80 {
        if 'A' <= ch && ch <= 'Z' {
            return ((ch as u8) + 32) as char;
        }
        return ch;
    }
    if ch == '\u{0130}' {
        return 'i';
    }
    match case_folded(ch) {
        Some(n) => match char_from_u32(n) {
            Some(folded) => folded,
            None => ch,
        },
        None => ch,
    }
}

/// Folds every character of a string.
pub fn simple_fold_string(s: &str) -> (r: String)
    ensures
        r@ == fold_text(s@),
{
    let mut out = String::new();
    for ch in it: s.chars()
        invariant
            it.seq() == s@,
            out@ == fold_text(s@.take(it.index() as int)),
    {
        push_char(&mut out, simple_case_fold(ch));
        assert(fold_text(s@.take(it.index() + 1)) =~= fold_text(s@.take(it.index() as int)).push(
            fold_char(ch),
        ));
    }
    assert(s@.take(s@.len() as int) =~= s@);
    out
}

} // verus!

verus! {

/// A pattern's text as it is searched for: folded when matching ignores case.
pub open spec fn effective_text(p: Seq<char>, case_insensitive: bool) -> Seq<char> {
    if case_insensitive {
        fold_text(p)
    } else {
        p
    }
}

/// Each distinct text of the list with the index of its first occurrence, in order.
pub open spec fn first_occurrences(ps: Seq<Seq<char>>) -> Seq<(Seq<char>, u32)>
    decreases ps.len(),
{
    if ps.len() == 0 {
        seq![]
    } else {
        let prev = first_occurrences(ps.drop_last());
        if ps.drop_last().contains(ps.last()) {
            prev
        } else {
            prev.push((ps.last(), (ps.len() - 1) as u32))
        }
    }
}

/// The texts of a list of pattern-value pairs.
pub open spec fn value_texts(pv: Seq<(String, u32)>) -> Seq<(Seq<char>, u32)> {
    pv.map_values(|e: (String, u32)| (e.0@, e.1))
}

/// The pattern-value pairs that a searcher is built from: each distinct
/// (folded, when matching ignores case) pattern with the index of its first
/// occurrence. Fails when some index does not fit `u32`.
pub open spec fn pattern_values(patterns: Seq<String>, case_insensitive: bool) -> Result<
    Seq<(Seq<char>, u32)>,
    Error,
> {
    if patterns.len() > u32::MAX as int + 1 {
        Err(Error::PatternIndexDoesNotFit)
    } else {
        Ok(
            first_occurrences(
                patterns.map_values(|p: String| effective_text(p@, case_insensitive)),
            ),
        )
    }
}

/// A text occurs in the first-occurrence list exactly when it occurs in the list.
pub proof fn lemma_first_occurrences_texts(ps: Seq<Seq<char>>)
    ensures
        forall|x: Seq<char>|
            ps.contains(x) <==> exists|k: int|
                0 <= k < first_occurrences(ps).len() && #[trigger] first_occurrences(ps)[k].0
                    == x,
    decreases ps.len(),
{
    if ps.len() > 0 {
        let prev = ps.drop_last();
        lemma_first_occurrences_texts(prev);
        assert forall|x: Seq<char>|
            ps.contains(x) <==> exists|k: int|
                0 <= k < first_occurrences(ps).len() && #[trigger] first_occurrences(ps)[k].0
                    == x by {
            if ps.contains(x) {
                let i = choose|i: int| 0 <= i < ps.len() && ps[i] == x;
                if i < ps.len() - 1 {
                    assert(prev[i] == x);
                    assert(prev.contains(x));
                    let k = choose|k: int|
                        0 <= k < first_occurrences(prev).len() && #[trigger] first_occurrences(
                            prev,
                        )[k].0 == x;
                    assert(first_occurrences(ps)[k].0 == x);
                } else if !prev.contains(ps.last()) {
                    let k = first_occurrences(prev).len() as int;
                    assert(first_occurrences(ps)[k].0 == x);
                } else {
                    let k = choose|k: int|
                        0 <= k < first_occurrences(prev).len() && #[trigger] first_occurrences(
                            prev,
                        )[k].0 == ps.last();
                    assert(first_occurrences(ps)[k].0 == x);
                }
            }
            if exists|k: int|
                0 <= k < first_occurrences(ps).len() && #[trigger] first_occurrences(ps)[k].0
                    == x {
                let k = choose|k: int|
                    0 <= k < first_occurrences(ps).len() && #[trigger] first_occurrences(ps)[k].0
                        == x;
                if k < first_occurrences(prev).len() {
                    assert(first_occurrences(prev)[k].0 == x);
                    assert(prev.contains(x));
                    let i = choose|i: int| 0 <= i < prev.len() && prev[i] == x;
                    assert(ps[i] == x);
                } else {
                    assert(ps[ps.len() - 1] == x);
                }
            }
        }
    }
}

/// Whether a text is already among the pattern-value pairs.
fn has_text(values: &Vec<(String, u32)>, text: &String) -> (r: bool)
    ensures
        r == exists|k: int| 0 <= k < values@.len() && #[trigger] values@[k].0@ == text@,
{
    let mut k: usize = 0;
    while k < values.len()
        invariant
            0 <= k <= values@.len(),
            forall|j: int| 0 <= j < k ==> #[trigger] values@[j].0@ != text@,
        decreases values@.len() - k,
    {
        if values[k].0 == *text {
            return true;
        }
        k = k + 1;
    }
    false
}

/// The distinct (folded, when matching ignores case) patterns, each with the
/// index of its first occurrence.
pub fn effective_pattern_values(patterns: Vec<String>, case_insensitive: bool) -> (r: Result<
    Vec<(String, u32)>,
    Error,
>)
    ensures
        match r {
            Ok(v) => pattern_values(patterns@, case_insensitive) == Ok::<
                Seq<(Seq<char>, u32)>,
                Error,
            >(value_texts(v@)),
            Err(e) => pattern_values(patterns@, case_insensitive) == Err::<
                Seq<(Seq<char>, u32)>,
                Error,
            >(e),
        },
{
    let ghost ps = patterns@.map_values(|p: String| effective_text(p@, case_insensitive));
    let mut values: Vec<(String, u32)> = Vec::new();
    let n = patterns.len();
    let mut i: usize = 0;
    while i < n
        invariant
            n == patterns@.len(),
            ps == patterns@.map_values(|p: String| effective_text(p@, case_insensitive)),
            0 <= i <= n,
            i <= u32::MAX as int + 1,
            value_texts(values@) == first_occurrences(ps.take(i as int)),
        decreases n - i,
    {
        if i > u32::MAX as usize {
            return Err(Error::PatternIndexDoesNotFit);
        }
        let index = i as u32;
        let pattern = if case_insensitive {
            simple_fold_string(patterns[i].as_str())
        } else {
            patterns[i].clone()
        };
        proof {
            let prefix = ps.take(i as int);
            assert(ps.take(i + 1).drop_last() =~= prefix);
            assert(ps.take(i + 1).last() == pattern@);
            lemma_first_occurrences_texts(prefix);
            assert forall|k: int| 0 <= k < values@.len() implies #[trigger] values@[k].0@ == first_occurrences(prefix)[k].0 by {
                assert(value_texts(values@)[k] == (values@[k].0@, values@[k].1));
            }
        }
        if !has_text(&values, &pattern) {
            let ghost before = values@;
            values.push((pattern, index));
            proof {
                assert(value_texts(values@) =~= value_texts(before).push((pattern@, index)));
            }
        }
        i = i + 1;
    }
    proof {
        assert(ps.take(n as int) =~= ps);
    }
    Ok(values)
}

} // verus!

verus! {

/// For each byte of the folded text, the byte offset in the original text of
/// the character it comes from.
pub open spec fn fold_positions(cs: Seq<char>) -> Seq<usize>
    decreases cs.len(),
{
    if cs.len() == 0 {
        seq![]
    } else {
        let prev = cs.drop_last();
        fold_positions(prev) + Seq::new(
            utf8_width(fold_char(cs.last())),
            |j: int| encode_utf8(prev).len() as usize,
        )
    }
}

/// How byte offsets in searched text map back to the original text.
pub enum PosMapping {
    /// Offsets are the same in both.
    Identity,
    /// `folded byte offset -> original byte offset`, one entry per folded byte
    /// and one for the end.
    Mapped(Vec<usize>),
}

/// The original offset recorded for a folded offset: the entry at that index,
/// or the last entry past the end (the offset itself when there is none).
pub open spec fn mapped_pos_spec(mapping: Seq<usize>, folded_pos: int) -> int {
    if 0 <= folded_pos < mapping.len() {
        mapping[folded_pos] as int
    } else if mapping.len() > 0 {
        mapping.last() as int
    } else {
        folded_pos
    }
}

/// The original byte offset of a folded byte offset under a mapping.
pub open spec fn pos_under(mapping: PosMapping, folded_pos: int) -> int {
    match mapping {
        PosMapping::Identity => folded_pos,
        PosMapping::Mapped(m) => mapped_pos_spec(m@, folded_pos),
    }
}

/// Looks a folded offset up in a mapping.
pub fn mapped_pos(mapping: &[usize], folded_pos: usize) -> (r: usize)
    ensures
        r as int == mapped_pos_spec(mapping@, folded_pos as int),
{
    if folded_pos < mapping.len() {
        mapping[folded_pos]
    } else if mapping.len() > 0 {
        mapping[mapping.len() - 1]
    } else {
        folded_pos
    }
}

/// Whether folding keeps the UTF-8 width of every character of a text, so that
/// each character's offset is the same in the folded text.
pub open spec fn fold_keeps_widths(cs: Seq<char>) -> bool {
    forall|i: int| 0 <= i < cs.len() ==> utf8_width(fold_char(#[trigger] cs[i])) == utf8_width(cs[i])
}

/// The mapping that folding a text needs: none when folding keeps every
/// character's width, else one entry per folded byte and one for the end.
pub open spec fn fold_mapping_of(cs: Seq<char>) -> Option<Seq<usize>> {
    if fold_keeps_widths(cs) {
        None
    } else {
        Some(fold_positions(cs).push(encode_utf8(cs).len() as usize))
    }
}

/// Folding keeps the widths of ASCII text.
proof fn lemma_ascii_keeps_widths(cs: Seq<char>)
    requires
        is_ascii_chars(cs),
    ensures
        fold_keeps_widths(cs),
{
    assert forall|i: int| 0 <= i < cs.len() implies utf8_width(fold_char(#[trigger] cs[i])) == utf8_width(
        cs[i],
    ) by {
        assert('\0' <= cs[i] <= '\u{7f}');
        assert((cs[i] as u32) < 0x80);
        assert((fold_char(cs[i]) as u32) < 0x80);
    }
}

/// When folding keeps every character's width, offsets are the same in the
/// folded text.
pub proof fn lemma_kept_widths_offsets(cs: Seq<char>, i: int)
    requires
        fold_keeps_widths(cs),
        0 <= i <= cs.len(),
    ensures
        encode_utf8(fold_text(cs.take(i))).len() == encode_utf8(cs.take(i)).len(),
    decreases i,
{
    if i > 0 {
        lemma_kept_widths_offsets(cs, i - 1);
        let prev = cs.take(i - 1);
        assert(cs.take(i) =~= prev.push(cs[i - 1]));
        assert(fold_text(cs.take(i)) =~= fold_text(prev).push(fold_char(cs[i - 1])));
        lemma_encode_utf8_push(prev, cs[i - 1]);
        lemma_encode_utf8_push(fold_text(prev), fold_char(cs[i - 1]));
    } else {
        assert(cs.take(0) =~= Seq::<char>::empty());
        assert(fold_text(cs.take(0)) =~= Seq::<char>::empty());
    }
}

/// Whether folding keeps the width of every character of a string.
fn fold_keeps_char_widths(s: &str) -> (r: bool)
    ensures
        r == fold_keeps_widths(s@),
{
    for ch in it: s.chars()
        invariant
            it.seq() == s@,
            forall|i: int| 0 <= i < it.index() ==> utf8_width(fold_char(#[trigger] s@[i])) == utf8_width(s@[i]),
    {
        if char_len_utf8(simple_case_fold(ch)) != char_len_utf8(ch) {
            return false;
        }
    }
    true
}

/// Whether a mapping is the one that folding the text needs.
pub open spec fn mapping_for(mapping: PosMapping, cs: Seq<char>) -> bool {
    match fold_mapping_of(cs) {
        None => mapping is Identity,
        Some(m) => mapping matches PosMapping::Mapped(v) && v@ == m,
    }
}

/// A haystack folded for searching, with its offset mapping.
pub struct SearchCtx {
    pub folded: String,
    pub mapping: PosMapping,
}

impl SearchCtx {
    /// Folds a haystack; records an offset mapping only when folding changes the
    /// width of some character (never for ASCII text).
    pub fn new(haystack: &str) -> (r: Self)
        ensures
            r.folded@ == fold_text(haystack@),
            mapping_for(r.mapping, haystack@),
    {
        if haystack.is_ascii() {
            proof {
                lemma_ascii_keeps_widths(haystack@);
            }
            return SearchCtx { folded: simple_fold_string(haystack), mapping: PosMapping::Identity };
        }
        if fold_keeps_char_widths(haystack) {
            return SearchCtx { folded: simple_fold_string(haystack), mapping: PosMapping::Identity };
        }
        Self::build_mapped(haystack)
    }

    /// Folds a haystack character by character, recording for every folded byte
    /// the original offset of its character.
    pub fn build_mapped(original: &str) -> (r: Self)
        ensures
            r.folded@ == fold_text(original@),
            r.mapping matches PosMapping::Mapped(m) && m@ == fold_positions(original@).push(
                encode_utf8(original@).len() as usize,
            ),
    {
        let mut folded = String::new();
        let mut mapping: Vec<usize> = Vec::new();
        let total = original.as_bytes().len();
        let mut orig_pos: usize = 0;
        for ch in it: original.chars()
            invariant
                it.seq() == original@,
                total == encode_utf8(original@).len(),
                folded@ == fold_text(original@.take(it.index() as int)),
                mapping@ == fold_positions(original@.take(it.index() as int)),
                orig_pos == encode_utf8(original@.take(it.index() as int)).len(),
        {
            let ghost i = it.index() as int;
            let ghost prev = original@.take(i);
            let folded_ch = simple_case_fold(ch);
            push_char(&mut folded, folded_ch);
            let width = char_len_utf8(folded_ch);
            let mut j: usize = 0;
            let ghost before = mapping@;
            while j < width
                invariant
                    0 <= j <= width,
                    mapping@ == before + Seq::new(j as nat, |k: int| orig_pos),
                decreases width - j,
            {
                mapping.push(orig_pos);
                assert(mapping@ =~= before + Seq::new((j + 1) as nat, |k: int| orig_pos));
                j = j + 1;
            }
            proof {
                assert(original@.take(i + 1).drop_last() =~= prev);
                assert(original@.take(i + 1) =~= prev.push(ch));
                lemma_encode_utf8_push(prev, ch);
                lemma_encode_utf8_prefix_len(original@, i + 1);
                assert(fold_text(original@.take(i + 1)) =~= fold_text(prev).push(folded_ch));
                assert(mapping@ =~= fold_positions(original@.take(i + 1)));
            }
            orig_pos = orig_pos + char_len_utf8(ch);
        }
        proof {
            assert(original@.take(original@.len() as int) =~= original@);
        }
        mapping.push(total);
        SearchCtx { folded, mapping: PosMapping::Mapped(mapping) }
    }
}

} // verus!

verus! {

/// The position list has one entry per folded byte, and the entry where a
/// character's folding starts is the original offset of that character.
proof fn lemma_fold_positions(cs: Seq<char>)
    requires
        encode_utf8(cs).len() <= usize::MAX,
    ensures
        fold_positions(cs).len() == encode_utf8(fold_text(cs)).len(),
        forall|i: int|
            0 <= i < cs.len() ==> fold_positions(cs)[encode_utf8(fold_text(#[trigger] cs.take(i))).len() as int]
                == encode_utf8(cs.take(i)).len(),
    decreases cs.len(),
{
    if cs.len() > 0 {
        let prev = cs.drop_last();
        let c = cs.last();
        assert(prev.push(c) =~= cs);
        lemma_encode_utf8_push(prev, c);
        lemma_encode_utf8_push(fold_text(prev), fold_char(c));
        assert(fold_text(cs) =~= fold_text(prev).push(fold_char(c)));
        lemma_fold_positions(prev);
        let fp = fold_positions(prev);
        let w = utf8_width(fold_char(c));
        assert(w >= 1);
        assert forall|i: int| 0 <= i < cs.len() implies fold_positions(cs)[encode_utf8(
            fold_text(#[trigger] cs.take(i)),
        ).len() as int] == encode_utf8(cs.take(i)).len() by {
            if i < prev.len() {
                assert(cs.take(i) =~= prev.take(i));
                crate::text::lemma_encode_utf8_proper_prefix(fold_text(prev), i);
                assert(fold_text(prev).take(i) =~= fold_text(prev.take(i)));
                assert(prev.take(i) == prev.take(i));
            } else {
                assert(cs.take(i) =~= prev);
            }
        }
    }
}

/// Offsets in folded text map back to the original text: where the folding of
/// the `i`-th character starts maps to where that character starts, and the end
/// of the folded text maps to the end of the original.
pub proof fn lemma_fold_mapping_maps_back(cs: Seq<char>, i: int)
    requires
        0 <= i <= cs.len(),
        encode_utf8(cs).len() <= usize::MAX,
    ensures
        mapped_pos_spec(
            fold_positions(cs).push(encode_utf8(cs).len() as usize),
            encode_utf8(fold_text(cs.take(i))).len() as int,
        ) == encode_utf8(cs.take(i)).len(),
{
    lemma_fold_positions(cs);
    if i == cs.len() {
        assert(cs.take(i) =~= cs);
    } else {
        crate::text::lemma_encode_utf8_proper_prefix(fold_text(cs), i);
        assert(fold_text(cs).take(i) =~= fold_text(cs.take(i)));
    }
}

} // verus!

verus! {

/// Non-empty patterns give non-empty texts to search for.
pub proof fn lemma_pattern_texts_nonempty(patterns: Seq<String>, case_insensitive: bool)
    requires
        forall|k: int| 0 <= k < patterns.len() ==> (#[trigger] patterns[k])@.len() > 0,
    ensures
        pattern_values(patterns, case_insensitive) matches Ok(tv) ==> forall|k: int|
            0 <= k < tv.len() ==> (#[trigger] tv[k]).0.len() > 0,
{
    let ps = patterns.map_values(|p: String| effective_text(p@, case_insensitive));
    lemma_first_occurrences_texts(ps);
    if pattern_values(patterns, case_insensitive) is Ok {
        let tv = first_occurrences(ps);
        assert forall|k: int| 0 <= k < tv.len() implies (#[trigger] tv[k]).0.len() > 0 by {
            assert(ps.contains(tv[k].0));
            let i = choose|i: int| 0 <= i < ps.len() && ps[i] == tv[k].0;
            assert(ps[i] == effective_text(patterns[i]@, case_insensitive));
        }
    }
}

} // verus!

verus! {

/// Each first occurrence records the index of an equal text in the list, and
/// no earlier text is equal to it.
pub proof fn lemma_first_occurrences_indices(ps: Seq<Seq<char>>)
    requires
        ps.len() <= u32::MAX as int + 1,
    ensures
        forall|k: int|
            0 <= k < first_occurrences(ps).len() ==> (#[trigger] first_occurrences(ps)[k]).1 < ps.len()
                && ps[first_occurrences(ps)[k].1 as int] == first_occurrences(ps)[k].0,
        forall|k: int, i: int|
            #![trigger first_occurrences(ps)[k], ps[i]]
            0 <= k < first_occurrences(ps).len() && 0 <= i < first_occurrences(ps)[k].1 ==> ps[i]
                != first_occurrences(ps)[k].0,
    decreases ps.len(),
{
    if ps.len() > 0 {
        let prev = ps.drop_last();
        lemma_first_occurrences_indices(prev);
        let fo = first_occurrences(ps);
        let fp = first_occurrences(prev);
        assert forall|k: int| 0 <= k < fo.len() implies (#[trigger] fo[k]).1 < ps.len() && ps[fo[k].1 as int]
            == fo[k].0 by {
            if k < fp.len() {
                assert(fo[k] == fp[k]);
                assert(prev[fp[k].1 as int] == ps[fp[k].1 as int]);
            } else {
                assert(fo[k] == (ps.last(), (ps.len() - 1) as u32));
            }
        }
        assert forall|k: int, i: int|
            #![trigger fo[k], ps[i]]
            0 <= k < fo.len() && 0 <= i < fo[k].1 implies ps[i] != fo[k].0 by {
            assert(ps[i] == prev[i]);
            if k < fp.len() {
                assert(fo[k] == fp[k]);
            } else {
                assert(fo[k] == (ps.last(), (ps.len() - 1) as u32));
                assert(!prev.contains(ps.last()));
                if ps[i] == fo[k].0 {
                    assert(prev.contains(ps.last()));
                }
            }
        }
    }
}

} // verus!

verus! {

/// What folding does to one character: ASCII capitals become the small
/// letters 32 code points on, other ASCII characters stay; `İ` becomes `i`;
/// every other character becomes its Unicode simple case folding when that
/// folding exists and is a scalar value, and stays otherwise.
pub proof fn lemma_fold_char_is_simple_case_folding(c: char)
    ensures
        'A' <= c <= 'Z' ==> fold_char(c) as u32 == c as u32 + 32,
        (c as u32) < 0x80 && !('A' <= c <= 'Z') ==> fold_char(c) == c,
        c as u32 == 0x130 ==> fold_char(c) == 'i',
        (c as u32) >= 0x80 && c as u32 != 0x130 ==> (unicode_simple_fold(c) matches Some(n) ==> (is_scalar(n)
            ==> fold_char(c) as u32 == n) && (!is_scalar(n) ==> fold_char(c) == c)),
        (c as u32) >= 0x80 && c as u32 != 0x130 && unicode_simple_fold(c) is None ==> fold_char(c) == c,
{
    if 'A' <= c <= 'Z' {
        assert(((c as u32 + 32) as char) as u32 == c as u32 + 32);
    }
    if (c as u32) >= 0x80 && c as u32 != 0x130 {
        if let Some(n) = unicode_simple_fold(c) {
            if is_scalar(n) {
                assert((n as char) as u32 == n);
            }
        }
    }
}

} // verus!
