//! The underlying double-array Aho-Corasick automata of the `daachorse` crate:
//! what the library relies on when it builds, searches, serialises and
//! deserialises them.
use vstd::prelude::*;
use vstd::utf8::*;
use daachorse::{DoubleArrayAhoCorasick, DoubleArrayAhoCorasickBuilder};
use daachorse::errors::DaachorseError;
use crate::options::{RawMatchKind, kind_byte};

verus! {

#[verifier::external_type_specification]
#[verifier::external_body]
#[verifier::reject_recursive_types(V)]
pub struct ExDoubleArrayAhoCorasick<V>(DoubleArrayAhoCorasick<V>);

#[verifier::external_type_specification]
#[verifier::external_body]
pub struct ExDaachorseError(DaachorseError);

/// The match kind an automaton was built with: 0 standard, 1 leftmost-longest, 2 leftmost-first.
pub uninterp spec fn automaton_kind(a: DoubleArrayAhoCorasick<u32>) -> u8;

/// The bytes that `serialize` writes for an automaton. They record all the
/// automaton's search state, so the automaton's searches are functions of them.
pub uninterp spec fn automaton_image(a: DoubleArrayAhoCorasick<u32>) -> Seq<u8>;

/// The serialised image of the automaton that the builder makes from these
/// pattern-value pairs (patterns as bytes, in order) with this match kind.
pub uninterp spec fn built_image(patterns: Seq<(Seq<u8>, u32)>, kind: u8) -> Seq<u8>;

/// Whether the builder succeeds on these pattern-value pairs with this match kind.
pub uninterp spec fn builds(patterns: Seq<(Seq<u8>, u32)>, kind: u8) -> bool;

/// Whether an image is that of an automaton the builder made: some automaton
/// has it, and the builder succeeds on some pattern-value pairs and kind and
/// gives exactly it. Only such automata are searched: an automaton read from
/// other bytes may hold match lengths that its searches cannot use.
pub open spec fn library_image(image: Seq<u8>) -> bool {
    exists|b: DoubleArrayAhoCorasick<u32>, patterns: Seq<(Seq<u8>, u32)>, kind: u8|
        #![trigger automaton_image(b), built_image(patterns, kind)]
        automaton_image(b) == image && automaton_kind(b) == kind && builds(patterns, kind)
            && built_image(patterns, kind) == image
}

/// What `find_iter` reports on a standard automaton with this image, for an
/// image the builder made:
/// `(value, start, end)` of each non-overlapping match, in order.
pub uninterp spec fn standard_matches(image: Seq<u8>, haystack: Seq<u8>) -> Seq<(u32, usize, usize)>;

/// What `find_overlapping_iter` reports on a standard automaton with this
/// image, for an image the builder made: `(value, start, end)` of every occurrence.
pub uninterp spec fn overlapping_matches(image: Seq<u8>, haystack: Seq<u8>) -> Seq<(u32, usize, usize)>;

/// What `leftmost_find_iter` reports on a leftmost automaton with this image,
/// for an image the builder made:
/// `(value, start, end)` of each non-overlapping match, in order.
pub uninterp spec fn leftmost_matches(image: Seq<u8>, haystack: Seq<u8>) -> Seq<(u32, usize, usize)>;

/// Whether `(value, start, end)` is an occurrence of one of the patterns in the haystack.
pub open spec fn is_occurrence(
    patterns: Seq<(Seq<u8>, u32)>,
    haystack: Seq<u8>,
    m: (u32, usize, usize),
) -> bool {
    &&& m.1 <= m.2 <= haystack.len()
    &&& exists|k: int|
        0 <= k < patterns.len() && #[trigger] patterns[k].1 == m.0 && patterns[k].0
            == haystack.subrange(m.1 as int, m.2 as int)
}

/// Whether each match ends no later than the next one starts.
pub open spec fn non_overlapping(ms: Seq<(u32, usize, usize)>) -> bool {
    forall|k: int| 0 <= k < ms.len() - 1 ==> #[trigger] ms[k].2 <= ms[k + 1].1
}

/// Whether every match is an occurrence of one of the patterns.
pub open spec fn occurrences_of(
    patterns: Seq<(Seq<u8>, u32)>,
    haystack: Seq<u8>,
    ms: Seq<(u32, usize, usize)>,
) -> bool {
    forall|k: int| 0 <= k < ms.len() ==> is_occurrence(patterns, haystack, #[trigger] ms[k])
}

/// What the searches of an automaton built from these pattern-value pairs with
/// this kind report, on every haystack: occurrences of the patterns, and for
/// the non-overlapping searches, matches that do not overlap; the overlapping
/// search reports every occurrence; a leftmost search finds a match whenever a
/// pattern occurs, and its first match starts no later than any occurrence.
pub open spec fn searches_sound(patterns: Seq<(Seq<u8>, u32)>, kind: u8) -> bool {
    if kind == 0 {
        &&& forall|h: Seq<u8>|
            #![trigger standard_matches(built_image(patterns, kind), h)]
            #![trigger overlapping_matches(built_image(patterns, kind), h)]
            occurrences_of(patterns, h, standard_matches(built_image(patterns, kind), h))
                && non_overlapping(standard_matches(built_image(patterns, kind), h))
                && occurrences_of(patterns, h, overlapping_matches(built_image(patterns, kind), h))
        &&& forall|h: Seq<u8>, m: (u32, usize, usize)|
            #![trigger overlapping_matches(built_image(patterns, kind), h), is_occurrence(patterns, h, m)]
            is_occurrence(patterns, h, m) ==> overlapping_matches(built_image(patterns, kind), h).contains(m)
    } else {
        &&& forall|h: Seq<u8>|
            #![trigger leftmost_matches(built_image(patterns, kind), h)]
            occurrences_of(patterns, h, leftmost_matches(built_image(patterns, kind), h))
                && non_overlapping(leftmost_matches(built_image(patterns, kind), h))
        &&& forall|h: Seq<u8>, m: (u32, usize, usize)|
            #![trigger leftmost_matches(built_image(patterns, kind), h), is_occurrence(patterns, h, m)]
            is_occurrence(patterns, h, m) ==> leftmost_matches(built_image(patterns, kind), h).len() > 0
                && leftmost_matches(built_image(patterns, kind), h)[0].1 <= m.1
    }
}

/// The pattern-value pairs of a list of patterns, each pattern as its UTF-8 bytes.
pub open spec fn pattern_value_bytes(pv: Seq<(String, u32)>) -> Seq<(Seq<u8>, u32)> {
    pv.map_values(|e: (String, u32)| (encode_utf8(e.0@), e.1))
}

/// A match reported by an automaton: the pattern's value and the byte span.
#[derive(Clone, Copy, Debug, PartialEq, Eq, Structural)]
pub struct RawMatch {
    pub pattern: u32,
    pub start: usize,
    pub end: usize,
}

/// The pattern index of a raw match.
#[derive(Clone, Copy, Debug, PartialEq, Eq, Structural)]
pub struct RawPattern(pub u32);

impl RawPattern {
    /// The pattern index as a `u32`.
    pub fn as_u32(self) -> (r: u32)
        ensures
            r == self.0,
    {
        self.0
    }
}

impl RawMatch {
    /// The match as `(pattern, start, end)`.
    pub open spec fn triple(self) -> (u32, usize, usize) {
        (self.pattern, self.start, self.end)
    }

    pub fn pattern(self) -> (r: RawPattern)
        ensures
            r.0 == self.pattern,
    {
        RawPattern(self.pattern)
    }

    pub fn start(self) -> (r: usize)
        ensures
            r == self.start,
    {
        self.start
    }

    pub fn end(self) -> (r: usize)
        ensures
            r == self.end,
    {
        self.end
    }
}

/// Builds a raw match.
pub fn raw_match(pattern: u32, start: usize, end: usize) -> (r: RawMatch)
    ensures
        r == (RawMatch { pattern, start, end }),
{
    RawMatch { pattern, start, end }
}

/// The triples of a sequence of raw matches.
pub open spec fn raw_triples(ms: Seq<RawMatch>) -> Seq<(u32, usize, usize)> {
    ms.map_values(|m: RawMatch| m.triple())
}

/// `DoubleArrayAhoCorasickBuilder::new().match_kind(..).build_with_values(..)`:
/// builds an automaton of the given kind over the patterns' UTF-8 bytes with
/// their values. The builder is deterministic, so the automaton's image is a
/// function of the pattern-value pairs and the kind; its searches report
/// occurrences of those patterns, the non-overlapping ones without overlaps,
/// the overlapping search reports every occurrence (the crate documents
/// `find_overlapping_iter` as yielding, at each position, the patterns ending
/// there), and a leftmost search starts with the leftmost occurrence (it
/// documents `leftmost_find_iter` as greedy from the start of the haystack).
/// The crate fails when a pattern, the pattern set or the automaton exceeds its
/// size limits; when that happens is named, not stated.
#[verifier::external_body]
pub(crate) fn build_automaton(pattern_values: &[(String, u32)], kind: RawMatchKind) -> (r: Result<
    DoubleArrayAhoCorasick<u32>,
    DaachorseError,
>)
    ensures
        r matches Ok(a) ==> automaton_image(a) == built_image(pattern_value_bytes(pattern_values@), kind_byte(kind))
            && automaton_kind(a) == kind_byte(kind),
        r is Ok <==> builds(pattern_value_bytes(pattern_values@), kind_byte(kind)),
        r is Ok ==> searches_sound(pattern_value_bytes(pattern_values@), kind_byte(kind)),
{
    let kind = match kind {
        RawMatchKind::Standard => daachorse::MatchKind::Standard,
        RawMatchKind::LeftmostLongest => daachorse::MatchKind::LeftmostLongest,
        RawMatchKind::LeftmostFirst => daachorse::MatchKind::LeftmostFirst,
    };
    DoubleArrayAhoCorasickBuilder::new().match_kind(kind).build_with_values(
        pattern_values.iter().map(|(pattern, value)| (pattern.as_bytes(), *value)),
    )
}

/// `DaachorseError`'s `Display` text (its content is not stated).
#[verifier::external_body]
pub(crate) fn daachorse_error_text(error: &DaachorseError) -> String {
    error.to_string()
}

/// `DoubleArrayAhoCorasick::match_kind`: the kind the automaton was built with.
#[verifier::external_body]
pub(crate) fn automaton_match_kind(a: &DoubleArrayAhoCorasick<u32>) -> (r: RawMatchKind)
    ensures
        kind_byte(r) == automaton_kind(*a),
{
    match a.match_kind() {
        daachorse::MatchKind::Standard => RawMatchKind::Standard,
        daachorse::MatchKind::LeftmostLongest => RawMatchKind::LeftmostLongest,
        daachorse::MatchKind::LeftmostFirst => RawMatchKind::LeftmostFirst,
    }
}

/// `DoubleArrayAhoCorasick::find_iter`, collected: the non-overlapping matches
/// of a standard automaton, as its image determines them, each ending no later
/// than the next starts. The crate panics on a leftmost automaton, and an
/// automaton read from bytes the builder did not make may hold match lengths
/// that make the search panic or report a start after its end; `requires`
/// leaves both out.
#[verifier::external_body]
pub(crate) fn find_all(a: &DoubleArrayAhoCorasick<u32>, haystack: &[u8]) -> (r: Vec<RawMatch>)
    requires
        automaton_kind(*a) == 0,
        library_image(automaton_image(*a)),
    ensures
        raw_triples(r@) == standard_matches(automaton_image(*a), haystack@),
        non_overlapping(raw_triples(r@)),
{
    a.find_iter(haystack).map(|m| raw_match(m.value(), m.start(), m.end())).collect()
}

/// `DoubleArrayAhoCorasick::find_overlapping_iter`, collected: every occurrence
/// of a standard automaton's patterns, as its image determines them. The crate
/// panics on a leftmost automaton, and an automaton read from bytes the builder
/// did not make may make the search panic; `requires` leaves both out.
#[verifier::external_body]
pub(crate) fn find_all_overlapping(a: &DoubleArrayAhoCorasick<u32>, haystack: &[u8]) -> (r: Vec<
    RawMatch,
>)
    requires
        automaton_kind(*a) == 0,
        library_image(automaton_image(*a)),
    ensures
        raw_triples(r@) == overlapping_matches(automaton_image(*a), haystack@),
{
    a.find_overlapping_iter(haystack).map(|m| raw_match(m.value(), m.start(), m.end())).collect()
}

/// `DoubleArrayAhoCorasick::leftmost_find_iter`, collected: the non-overlapping
/// leftmost matches of a leftmost automaton, as its image determines them, each
/// ending no later than the next starts. The crate panics on a standard
/// automaton, and an automaton read from bytes the builder did not make may
/// hold match lengths that make the search panic or report a start after its
/// end; `requires` leaves both out.
#[verifier::external_body]
pub(crate) fn find_all_leftmost(a: &DoubleArrayAhoCorasick<u32>, haystack: &[u8]) -> (r: Vec<RawMatch>)
    requires
        automaton_kind(*a) == 1 || automaton_kind(*a) == 2,
        library_image(automaton_image(*a)),
    ensures
        raw_triples(r@) == leftmost_matches(automaton_image(*a), haystack@),
        non_overlapping(raw_triples(r@)),
{
    a.leftmost_find_iter(haystack).map(|m| raw_match(m.value(), m.start(), m.end())).collect()
}

/// `DoubleArrayAhoCorasick::serialize`: the automaton's serialised image, which
/// is never empty (it always records at least the state count).
#[verifier::external_body]
pub(crate) fn serialize_automaton(a: &DoubleArrayAhoCorasick<u32>) -> (r: Vec<u8>)
    ensures
        r@ == automaton_image(*a),
        r@.len() > 0,
{
    a.serialize()
}

/// Whether `source` begins with the serialised image of `b`.
pub open spec fn image_prefix(b: DoubleArrayAhoCorasick<u32>, source: Seq<u8>) -> bool {
    automaton_image(b).len() <= source.len() && source.subrange(0, automaton_image(b).len() as int)
        == automaton_image(b)
}

/// `DoubleArrayAhoCorasick::deserialize`: reads an automaton from the front of
/// `source` and hands back the bytes after it. When `source` begins with the
/// image that `serialize` wrote for an automaton, it reads that automaton's
/// fields back as they were written: an automaton with the same image and
/// kind, and the rest is what follows that image. For other bytes it may fail
/// or read some automaton; which is not stated.
#[verifier::external_body]
pub(crate) fn deserialize_automaton(source: &[u8]) -> (r: Result<
    (DoubleArrayAhoCorasick<u32>, &[u8]),
    DaachorseError,
>)
    ensures
        r matches Ok((a, rest)) ==> {
            &&& rest@.len() <= source@.len()
            &&& rest@ == source@.subrange(source@.len() - rest@.len(), source@.len() as int)
            &&& forall|b: DoubleArrayAhoCorasick<u32>|
                #![trigger automaton_image(b)]
                image_prefix(b, source@) ==> automaton_image(a) == automaton_image(b)
                    && automaton_kind(a) == automaton_kind(b) && rest@ == source@.subrange(
                    automaton_image(b).len() as int,
                    source@.len() as int,
                )
        },
        r is Err ==> forall|b: DoubleArrayAhoCorasick<u32>|
            #![trigger automaton_image(b)]
            !image_prefix(b, source@),
{
    DoubleArrayAhoCorasick::<u32>::deserialize(source)
}

} // verus!
