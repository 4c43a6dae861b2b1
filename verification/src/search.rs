//! A case-folding searcher: one automaton for non-overlapping search, one for
//! overlapping search, and the folding of haystacks before they are searched.
use vstd::prelude::*;
use vstd::string::*;
use vstd::utf8::*;
use daachorse::DoubleArrayAhoCorasick;
use crate::automaton::{
    RawMatch, automaton_image, automaton_match_kind, automaton_kind, build_automaton, built_image,
    daachorse_error_text, deserialize_automaton, find_all, find_all_leftmost, find_all_overlapping,
    builds, image_prefix, is_occurrence, library_image, leftmost_matches, non_overlapping, occurrences_of, overlapping_matches,
    pattern_value_bytes, raw_triples, searches_sound, serialize_automaton, standard_matches,
};
use crate::error::Error;
use crate::folding::{
    PosMapping, SearchCtx, ascii_lower_byte, effective_pattern_values, effective_text, first_occurrences,
    lemma_first_occurrences_indices, lemma_first_occurrences_texts, pattern_values, fold_mapping_of, fold_text,
    mapped_pos, mapped_pos_spec, pos_under, value_texts,
};
use crate::options::{RawMatchKind, kind_byte};

verus! {

broadcast use {vstd::string::group_string_axioms, vstd::utf8::group_utf8_lib};

/// A haystack ready to be searched: as it is, or folded with an offset mapping.
pub enum PreparedSearch<'a> {
    Direct(&'a str),
    Folded { text: String, mapping: PosMapping },
}

impl<'a> PreparedSearch<'a> {
    /// The text that is searched.
    pub open spec fn text_view(&self) -> Seq<char> {
        match self {
            PreparedSearch::Direct(s) => s@,
            PreparedSearch::Folded { text, .. } => text@,
        }
    }

    /// The original byte offset of a byte offset in the searched text.
    pub open spec fn orig_spec(&self, folded_pos: int) -> int {
        match self {
            PreparedSearch::Direct(_) => folded_pos,
            PreparedSearch::Folded { mapping, .. } => pos_under(*mapping, folded_pos),
        }
    }

    /// The text that is searched.
    pub fn search_text(&self) -> (r: &str)
        ensures
            r@ == self.text_view(),
    {
        match self {
            PreparedSearch::Direct(s) => s,
            PreparedSearch::Folded { text, .. } => text.as_str(),
        }
    }

    /// Maps a byte offset in the searched text back to the original text.
    pub fn orig_pos(&self, folded_pos: usize) -> (r: usize)
        ensures
            r as int == self.orig_spec(folded_pos as int),
    {
        match self {
            PreparedSearch::Direct(_) => folded_pos,
            PreparedSearch::Folded { mapping, .. } => match mapping {
                PosMapping::Identity => folded_pos,
                PosMapping::Mapped(m) => mapped_pos(m.as_slice(), folded_pos),
            },
        }
    }
}

/// Bytes ready to be searched: as they are, or folded with an offset mapping.
pub enum PreparedBytes<'a> {
    Direct(&'a [u8]),
    Folded { bytes: Vec<u8>, mapping: PosMapping },
}

impl<'a> PreparedBytes<'a> {
    /// The bytes that are searched.
    pub open spec fn bytes_view(&self) -> Seq<u8> {
        match self {
            PreparedBytes::Direct(b) => b@,
            PreparedBytes::Folded { bytes, .. } => bytes@,
        }
    }

    /// The original byte offset of a byte offset in the searched bytes.
    pub open spec fn orig_spec(&self, folded_pos: int) -> int {
        match self {
            PreparedBytes::Direct(_) => folded_pos,
            PreparedBytes::Folded { mapping, .. } => pos_under(*mapping, folded_pos),
        }
    }

    /// The bytes that are searched.
    pub fn search_bytes(&self) -> (r: &[u8])
        ensures
            r@ == self.bytes_view(),
    {
        match self {
            PreparedBytes::Direct(b) => b,
            PreparedBytes::Folded { bytes, .. } => bytes.as_slice(),
        }
    }

    /// Maps a byte offset in the searched bytes back to the original bytes.
    pub fn orig_pos(&self, folded_pos: usize) -> (r: usize)
        ensures
            r as int == self.orig_spec(folded_pos as int),
    {
        match self {
            PreparedBytes::Direct(_) => folded_pos,
            PreparedBytes::Folded { mapping, .. } => match mapping {
                PosMapping::Identity => folded_pos,
                PosMapping::Mapped(m) => mapped_pos(m.as_slice(), folded_pos),
            },
        }
    }
}

/// The characters searched for a haystack.
pub open spec fn search_chars(h: Seq<char>, case_insensitive: bool) -> Seq<char> {
    if case_insensitive {
        fold_text(h)
    } else {
        h
    }
}

/// The original byte offset of an offset in the searched text of a haystack.
pub open spec fn text_orig_pos(h: Seq<char>, case_insensitive: bool, p: int) -> int {
    if case_insensitive {
        match fold_mapping_of(h) {
            None => p,
            Some(m) => mapped_pos_spec(m, p),
        }
    } else {
        p
    }
}

/// The bytes searched for a byte haystack: as they are when case matters; when
/// it does not, valid UTF-8 is decoded and folded, and other bytes are lowered as ASCII.
pub open spec fn search_bytes_of(b: Seq<u8>, case_insensitive: bool) -> Seq<u8> {
    if !case_insensitive {
        b
    } else if valid_utf8(b) {
        encode_utf8(fold_text(decode_utf8(b)))
    } else {
        b.map_values(|x: u8| ascii_lower_byte(x))
    }
}

/// The original byte offset of an offset in the searched bytes of a byte haystack.
pub open spec fn bytes_orig_pos(b: Seq<u8>, case_insensitive: bool, p: int) -> int {
    if case_insensitive && valid_utf8(b) {
        text_orig_pos(decode_utf8(b), true, p)
    } else {
        p
    }
}

/// The automaton used for overlapping search.
#[allow(inconsistent_fields)]
pub enum OverlapAutomaton {
    /// The main automaton is standard and serves overlapping search itself.
    Native,
    /// A standard automaton read from a prepared automaton.
    Prepared { automaton: Option<DoubleArrayAhoCorasick<u32>> },
    /// A standard automaton built from the patterns alongside a leftmost main
    /// automaton, or the reason building it failed.
    Fallback { automaton: Result<Option<DoubleArrayAhoCorasick<u32>>, String> },
}

/// The serialised images of a searcher's automata.
pub struct PreparedAutomata {
    pub main: Vec<u8>,
    pub overlap: Option<Vec<u8>>,
}

/// What identifies an automaton's searches: its serialised image, if there is an automaton.
pub open spec fn contents_of(a: Option<DoubleArrayAhoCorasick<u32>>) -> Option<Seq<u8>> {
    match a {
        Some(x) => Some(automaton_image(x)),
        None => None,
    }
}

/// The serialised image of an automaton, or nothing when there is none.
pub open spec fn image_of(a: Option<DoubleArrayAhoCorasick<u32>>) -> Seq<u8> {
    match a {
        Some(x) => automaton_image(x),
        None => seq![],
    }
}

/// The matches of the non-overlapping search over `hay` (none without an automaton).
pub open spec fn main_search(contents: Option<Seq<u8>>, kind: RawMatchKind, hay: Seq<u8>) -> Seq<
    (u32, usize, usize),
> {
    match contents {
        None => seq![],
        Some(i) => if kind == RawMatchKind::Standard {
            standard_matches(i, hay)
        } else {
            leftmost_matches(i, hay)
        },
    }
}

/// The matches of the overlapping search over `hay` (none without an automaton).
pub open spec fn overlap_search(contents: Option<Seq<u8>>, hay: Seq<u8>) -> Seq<(u32, usize, usize)> {
    match contents {
        None => seq![],
        Some(i) => overlapping_matches(i, hay),
    }
}

/// The pattern-value pairs with each text as its UTF-8 bytes.
pub open spec fn text_value_bytes(tv: Seq<(Seq<char>, u32)>) -> Seq<(Seq<u8>, u32)> {
    tv.map_values(|e: (Seq<char>, u32)| (encode_utf8(e.0), e.1))
}

/// The automaton that a list of pattern-value pairs gives with a match kind,
/// by its image: none when the list is empty.
pub open spec fn contents_for(tv: Seq<(Seq<char>, u32)>, kind: RawMatchKind) -> Option<Seq<u8>> {
    if tv.len() == 0 {
        None
    } else {
        Some(built_image(text_value_bytes(tv), kind_byte(kind)))
    }
}

/// An automaton with its match kind, folding and overlapping-search automaton.
pub struct CaseFoldingAC {
    raw: Option<DoubleArrayAhoCorasick<u32>>,
    match_kind: RawMatchKind,
    overlap: OverlapAutomaton,
    case_insensitive: bool,
}

impl CaseFoldingAC {
    /// The main automaton is standard exactly when the recorded kind is, there
    /// is a separate overlapping automaton exactly when that kind is leftmost,
    /// and it is standard; every automaton is one the builder made.
    #[verifier::type_invariant]
    closed spec fn wf(&self) -> bool {
        &&& (self.raw matches Some(a) ==> automaton_kind(a) <= 2 && (automaton_kind(a) == 0
            <==> self.match_kind == RawMatchKind::Standard) && library_image(automaton_image(a)))
        &&& (self.match_kind == RawMatchKind::Standard <==> self.overlap is Native)
        &&& (self.overlap matches OverlapAutomaton::Prepared { automaton: Some(a) }
            ==> automaton_kind(a) == 0 && library_image(automaton_image(a)))
        &&& (self.overlap matches OverlapAutomaton::Fallback { automaton: Ok(Some(a)) }
            ==> automaton_kind(a) == 0 && library_image(automaton_image(a)))
    }

    /// The searcher's invariant: the main automaton is standard exactly when the
    /// searcher's kind is, and a leftmost searcher has its own overlapping
    /// automaton, which is standard.
    pub closed spec fn valid(&self) -> bool {
        self.wf()
    }

    /// A valid searcher's standard automaton serves overlapping search itself.
    pub proof fn lemma_standard_overlap(&self)
        requires
            self.valid(),
        ensures
            self.kind() == RawMatchKind::Standard ==> self.overlap_contents() == Ok::<
                Option<Seq<u8>>,
                Seq<char>,
            >(self.main_contents()),
            self.kind() == RawMatchKind::Standard ==> self.overlap_image() == Ok::<
                Option<Seq<u8>>,
                Seq<char>,
            >(None),
            self.overlap_image() is Err <==> self.overlap_contents() is Err,
            self.kind() != RawMatchKind::Standard ==> self.overlap_image() is Err || (
            self.overlap_image() matches Ok(Some(i)) && (self.overlap_contents() matches Ok(p) && (
            p is None ==> i.len() == 0) && (p is Some ==> p == Some(i) && exists|b: DoubleArrayAhoCorasick<u32>|
                #![trigger automaton_image(b)]
                automaton_image(b) == i && automaton_kind(b) == 0))),
            self.main_contents() is None ==> self.main_image().len() == 0,
            self.main_contents() is Some ==> library_image(self.main_image()),
            self.overlap_image() matches Ok(Some(i)) ==> i.len() == 0 || library_image(i),
            self.main_contents() is Some ==> self.main_contents() == Some(self.main_image()) && exists|b: DoubleArrayAhoCorasick<u32>|
                #![trigger automaton_image(b)]
                automaton_image(b) == self.main_image() && automaton_kind(b) <= 2 && (automaton_kind(b)
                    == 0 <==> self.kind() == RawMatchKind::Standard),
    {
        match self.raw {
            Some(a) => {
                assert(automaton_image(a) == self.main_image());
            },
            None => {},
        }
        match self.overlap {
            OverlapAutomaton::Prepared { automaton: Some(a) } => {
                assert(automaton_image(a) == image_of(Some(a)));
            },
            OverlapAutomaton::Fallback { automaton: Ok(Some(a)) } => {
                assert(automaton_image(a) == image_of(Some(a)));
            },
            _ => {},
        }
    }

    /// The match kind of the non-overlapping search.
    pub closed spec fn kind(&self) -> RawMatchKind {
        self.match_kind
    }

    /// Whether haystacks are folded before they are searched.
    pub closed spec fn folds(&self) -> bool {
        self.case_insensitive
    }

    /// The main automaton, by its image, if there is one.
    pub closed spec fn main_contents(&self) -> Option<Seq<u8>> {
        contents_of(self.raw)
    }

    /// The automaton for overlapping search, by its image, if there is one, or
    /// why building it failed.
    pub closed spec fn overlap_contents(&self) -> Result<Option<Seq<u8>>, Seq<char>> {
        match self.overlap {
            OverlapAutomaton::Native => Ok(contents_of(self.raw)),
            OverlapAutomaton::Prepared { automaton } => Ok(contents_of(automaton)),
            OverlapAutomaton::Fallback { automaton } => match automaton {
                Ok(a) => Ok(contents_of(a)),
                Err(reason) => Err(reason@),
            },
        }
    }

    /// The serialised image of the main automaton (empty when there is none).
    pub closed spec fn main_image(&self) -> Seq<u8> {
        image_of(self.raw)
    }

    /// The serialised image of the separate overlapping automaton: none for a
    /// standard searcher, or why it could not be built.
    pub closed spec fn overlap_image(&self) -> Result<Option<Seq<u8>>, Seq<char>> {
        match self.overlap {
            OverlapAutomaton::Native => Ok(None),
            OverlapAutomaton::Prepared { automaton } => Ok(Some(image_of(automaton))),
            OverlapAutomaton::Fallback { automaton } => match automaton {
                Ok(a) => Ok(Some(image_of(a))),
                Err(reason) => Err(reason@),
            },
        }
    }
}

/// Builds an automaton of the given kind over pattern-value pairs (none for an
/// empty list), or gives the crate's reason for failing.
pub fn build_raw_automaton(pattern_values: &[(String, u32)], match_kind: RawMatchKind) -> (r: Result<
    Option<DoubleArrayAhoCorasick<u32>>,
    String,
>)
    ensures
        r matches Ok(a) ==> contents_of(a) == contents_for(value_texts(pattern_values@), match_kind) && (
        a matches Some(x) ==> automaton_kind(x) == kind_byte(match_kind) && library_image(automaton_image(x))),
        pattern_values@.len() > 0 ==> (r is Ok <==> builds(
            text_value_bytes(value_texts(pattern_values@)),
            kind_byte(match_kind),
        )),
        r is Ok && pattern_values@.len() > 0 ==> searches_sound(
            text_value_bytes(value_texts(pattern_values@)),
            kind_byte(match_kind),
        ),
        pattern_values@.len() == 0 ==> r is Ok,
{
    if pattern_values.len() == 0 {
        return Ok(None);
    }
    match build_automaton(pattern_values, match_kind) {
        Ok(a) => {
            proof {
                assert(pattern_value_bytes(pattern_values@) =~= text_value_bytes(
                    value_texts(pattern_values@),
                ));
                assert(library_image(automaton_image(a)));
            }
            Ok(Some(a))
        },
        Err(error) => {
            proof {
                assert(pattern_value_bytes(pattern_values@) =~= text_value_bytes(
                    value_texts(pattern_values@),
                ));
            }
            Err(daachorse_error_text(&error))
        },
    }
}

/// Serialises an automaton, or gives nothing when there is none.
pub fn serialize_raw_automaton(raw: Option<&DoubleArrayAhoCorasick<u32>>) -> (r: Vec<u8>)
    ensures
        r@ == (match raw {
            Some(a) => automaton_image(*a),
            None => seq![],
        }),
        raw is Some ==> r@.len() > 0,
{
    match raw {
        Some(a) => serialize_automaton(a),
        None => Vec::new(),
    }
}

/// Reads an automaton that fills the whole slice; an empty slice stands for no automaton.
pub fn deserialize_raw_automaton(bytes: &[u8]) -> (r: Result<
    Option<DoubleArrayAhoCorasick<u32>>,
    Error,
>)
    ensures
        bytes@.len() == 0 ==> r == Ok::<Option<DoubleArrayAhoCorasick<u32>>, Error>(None),
        r is Err ==> r->Err_0 is InvalidPreparedAutomaton,
        forall|b: DoubleArrayAhoCorasick<u32>|
            #![trigger automaton_image(b)]
            automaton_image(b) == bytes@ && bytes@.len() > 0 ==> (r matches Ok(Some(a))
                && automaton_image(a) == automaton_image(b) && automaton_kind(a) == automaton_kind(b)),
{
    if bytes.len() == 0 {
        return Ok(None);
    }
    match deserialize_automaton(bytes) {
        Ok((raw, rest)) => {
            if rest.len() != 0 {
                proof {
                    assert forall|b: DoubleArrayAhoCorasick<u32>|
                        #![trigger automaton_image(b)]
                        automaton_image(b) == bytes@ implies false by {
                        assert(bytes@.subrange(0, bytes@.len() as int) =~= bytes@);
                        assert(image_prefix(b, bytes@));
                        assert(bytes@.subrange(bytes@.len() as int, bytes@.len() as int).len() == 0);
                    }
                }
                return Err(Error::InvalidPreparedAutomaton(String::from_str("trailing automaton bytes")));
            }
            proof {
                assert forall|b: DoubleArrayAhoCorasick<u32>|
                    #![trigger automaton_image(b)]
                    automaton_image(b) == bytes@ implies automaton_image(raw) == automaton_image(b) && automaton_kind(raw) == automaton_kind(b) by {
                    assert(bytes@.subrange(0, bytes@.len() as int) =~= bytes@);
                    assert(image_prefix(b, bytes@));
                }
            }
            Ok(Some(raw))
        },
        Err(error) => {
            proof {
                assert forall|b: DoubleArrayAhoCorasick<u32>|
                    #![trigger automaton_image(b)]
                    automaton_image(b) == bytes@ implies false by {
                    assert(bytes@.subrange(0, bytes@.len() as int) =~= bytes@);
                    assert(image_prefix(b, bytes@));
                }
            }
            Err(Error::InvalidPreparedAutomaton(daachorse_error_text(&error)))
        },
    }
}

} // verus!

verus! {

/// Whether this is exactly the image of some automaton that is standard when
/// the given kind is, and leftmost when it is not.
pub open spec fn image_of_kind(image: Seq<u8>, kind: u8) -> bool {
    exists|b: DoubleArrayAhoCorasick<u32>|
        #![trigger automaton_image(b)]
        automaton_image(b) == image && automaton_kind(b) <= 2 && (automaton_kind(b) == 0 <==> kind
            == 0)
}

/// Whether an automaton read from an image is the one the image records:
/// none for an empty image, and for the image of an automaton, one with that image.
pub open spec fn contents_from_image(contents: Option<Seq<u8>>, image: Seq<u8>) -> bool {
    &&& (image.len() == 0 ==> contents is None)
    &&& forall|b: DoubleArrayAhoCorasick<u32>|
        #![trigger automaton_image(b)]
        automaton_image(b) == image && image.len() > 0 ==> contents == Some(image)
}

/// Whether the overlapping automaton is the one the given image records.
pub open spec fn overlap_from_image(
    pats: Result<Option<Seq<u8>>, Seq<char>>,
    image: Option<Seq<u8>>,
) -> bool {
    match (pats, image) {
        (Ok(p), Some(i)) => contents_from_image(p, i),
        _ => false,
    }
}

/// Whether an image is empty or that of an automaton of the given kind's class.
pub open spec fn image_acceptable(image: Seq<u8>, kind: u8) -> bool {
    image.len() == 0 || image_of_kind(image, kind)
}

/// Whether an overlapping image is present and empty or that of a standard automaton.
pub open spec fn overlap_acceptable(image: Option<Seq<u8>>) -> bool {
    match image {
        Some(i) => image_acceptable(i, 0),
        None => false,
    }
}

/// The bytes of an optional slice.
pub open spec fn opt_bytes(b: Option<&[u8]>) -> Option<Seq<u8>> {
    match b {
        Some(x) => Some(x@),
        None => None,
    }
}

/// Whether a searcher is the one built from these patterns with this kind and
/// folding: its automata are those built from the distinct (folded) patterns
/// with the indices of their first occurrences; a leftmost searcher's
/// overlapping automaton is the standard one built from them, unless building
/// it failed. Their searches report occurrences of those patterns.
pub open spec fn built_from(
    ac: CaseFoldingAC,
    patterns: Seq<String>,
    match_kind: RawMatchKind,
    case_insensitive: bool,
) -> bool {
    &&& pattern_values(patterns, case_insensitive) matches Ok(tv)
    &&& ac.kind() == match_kind
    &&& ac.folds() == case_insensitive
    &&& ac.main_contents() == contents_for(tv, match_kind)
    &&& (match_kind == RawMatchKind::Standard ==> ac.overlap_contents() == Ok::<
        Option<Seq<u8>>,
        Seq<char>,
    >(contents_for(tv, RawMatchKind::Standard)))
    &&& (match_kind != RawMatchKind::Standard ==> (ac.overlap_contents() is Err
        || ac.overlap_contents() == Ok::<Option<Seq<u8>>, Seq<char>>(contents_for(tv, RawMatchKind::Standard))))
    &&& (tv.len() == 0 ==> ac.overlap_contents() is Ok)
    &&& (tv.len() > 0 ==> builds(text_value_bytes(tv), kind_byte(match_kind)))
    &&& (tv.len() > 0 && match_kind != RawMatchKind::Standard ==> (ac.overlap_contents() is Ok <==> builds(
        text_value_bytes(tv),
        0,
    )))
    &&& (tv.len() > 0 ==> searches_sound(text_value_bytes(tv), kind_byte(match_kind)))
    &&& (tv.len() > 0 && ac.overlap_contents() is Ok ==> searches_sound(text_value_bytes(tv), 0))
}

/// What a searcher built from patterns reports on any bytes: each match, of the
/// non-overlapping and of the overlapping search, is an occurrence of one of
/// its distinct (folded) patterns with that pattern's index, and the
/// non-overlapping matches do not overlap.
pub proof fn lemma_built_searches_sound(
    ac: CaseFoldingAC,
    patterns: Seq<String>,
    match_kind: RawMatchKind,
    case_insensitive: bool,
    hay: Seq<u8>,
)
    requires
        built_from(ac, patterns, match_kind, case_insensitive),
    ensures
        pattern_values(patterns, case_insensitive) is Ok,
        occurrences_of(
            text_value_bytes(pattern_values(patterns, case_insensitive)->Ok_0),
            hay,
            main_search(ac.main_contents(), match_kind, hay),
        ),
        non_overlapping(main_search(ac.main_contents(), match_kind, hay)),
        ac.overlap_contents() matches Ok(c) ==> occurrences_of(
            text_value_bytes(pattern_values(patterns, case_insensitive)->Ok_0),
            hay,
            overlap_search(c, hay),
        ),
{
    let tv = pattern_values(patterns, case_insensitive)->Ok_0;
    let tvb = text_value_bytes(tv);
    if tv.len() > 0 {
        if match_kind == RawMatchKind::Standard {
            assert(occurrences_of(tvb, hay, standard_matches(built_image(tvb, 0), hay)));
            assert(occurrences_of(tvb, hay, overlapping_matches(built_image(tvb, 0), hay)));
        } else {
            assert(occurrences_of(tvb, hay, leftmost_matches(built_image(tvb, kind_byte(match_kind)), hay)));
            if ac.overlap_contents() is Ok {
                assert(occurrences_of(tvb, hay, overlapping_matches(built_image(tvb, 0), hay)));
            }
        }
    }
}

/// The index that a search reports names the pattern it found: for a searcher
/// built from patterns, each match of the non-overlapping and of the
/// overlapping search carries the index of a pattern whose (folded, when
/// matching ignores case) text is exactly the matched bytes, and of the first
/// such pattern in the list.
pub proof fn lemma_reported_index_names_pattern(
    ac: CaseFoldingAC,
    patterns: Seq<String>,
    match_kind: RawMatchKind,
    case_insensitive: bool,
    hay: Seq<u8>,
)
    requires
        built_from(ac, patterns, match_kind, case_insensitive),
    ensures
        forall|k: int|
            #![trigger main_search(ac.main_contents(), match_kind, hay)[k]]
            0 <= k < main_search(ac.main_contents(), match_kind, hay).len() ==> names_pattern(
                patterns,
                case_insensitive,
                hay,
                main_search(ac.main_contents(), match_kind, hay)[k],
            ),
        ac.overlap_contents() matches Ok(c) ==> forall|k: int|
            #![trigger overlap_search(c, hay)[k]]
            0 <= k < overlap_search(c, hay).len() ==> names_pattern(
                patterns,
                case_insensitive,
                hay,
                overlap_search(c, hay)[k],
            ),
{
    lemma_built_searches_sound(ac, patterns, match_kind, case_insensitive, hay);
    let ps = patterns.map_values(|p: String| effective_text(p@, case_insensitive));
    let tv = first_occurrences(ps);
    let tvb = text_value_bytes(tv);
    lemma_first_occurrences_indices(ps);
    lemma_first_occurrences_texts(ps);
    assert forall|m: (u32, usize, usize)| #[trigger] is_occurrence(tvb, hay, m) implies names_pattern(
        patterns,
        case_insensitive,
        hay,
        m,
    ) by {
        let p = choose|p: int|
            0 <= p < tvb.len() && #[trigger] tvb[p].1 == m.0 && tvb[p].0 == hay.subrange(m.1 as int, m.2 as int);
        assert(tvb[p] == (encode_utf8(tv[p].0), tv[p].1));
        let v = tv[p].1 as int;
        assert(ps[v] == tv[p].0);
        assert(ps[v] == effective_text(patterns[v]@, case_insensitive));
        assert forall|i: int| 0 <= i < v implies effective_text(#[trigger] patterns[i]@, case_insensitive)
            != effective_text(patterns[v]@, case_insensitive) by {
            assert(ps[i] != tv[p].0);
            assert(ps[i] == effective_text(patterns[i]@, case_insensitive));
        }
    }
}

/// Whether a match names a pattern: its index is that of the first pattern
/// whose (folded, when matching ignores case) text is exactly the matched bytes.
pub open spec fn names_pattern(
    patterns: Seq<String>,
    case_insensitive: bool,
    hay: Seq<u8>,
    m: (u32, usize, usize),
) -> bool {
    &&& (m.0 as int) < patterns.len()
    &&& m.1 <= m.2 <= hay.len()
    &&& encode_utf8(effective_text(patterns[m.0 as int]@, case_insensitive)) == hay.subrange(m.1 as int, m.2 as int)
    &&& forall|i: int|
        0 <= i < m.0 ==> effective_text(#[trigger] patterns[i]@, case_insensitive) != effective_text(
            patterns[m.0 as int]@,
            case_insensitive,
        )
}

/// Why building a searcher from these patterns with this kind fails: a pattern
/// index that does not fit `u32`, or the automaton builder refusing the
/// (distinct, folded) non-empty pattern set.
pub open spec fn build_failure(
    e: Error,
    patterns: Seq<String>,
    match_kind: RawMatchKind,
    case_insensitive: bool,
) -> bool {
    ||| (pattern_values(patterns, case_insensitive) is Err && e == Error::PatternIndexDoesNotFit)
    ||| (pattern_values(patterns, case_insensitive) matches Ok(tv) && tv.len() > 0 && e is BuildAutomaton
        && !builds(text_value_bytes(tv), kind_byte(match_kind)))
}

impl CaseFoldingAC {
    /// Builds the searcher: folds (when matching ignores case) and deduplicates
    /// the patterns, builds the main automaton of the given kind and, for a
    /// leftmost kind, a standard automaton for overlapping search.
    pub fn build(patterns: Vec<String>, match_kind: RawMatchKind, case_insensitive: bool, _dfa: bool)
        -> (r: Result<Self, Error>)
        ensures
            match r {
                Ok(ac) => built_from(ac, patterns@, match_kind, case_insensitive) && ac.valid(),
                Err(e) => build_failure(e, patterns@, match_kind, case_insensitive),
            },
    {
        let pattern_values = effective_pattern_values(patterns, case_insensitive)?;
        let raw = match build_raw_automaton(pattern_values.as_slice(), match_kind) {
            Ok(raw) => raw,
            Err(reason) => {
                return Err(Error::BuildAutomaton(reason));
            },
        };
        let overlap = if matches!(match_kind, RawMatchKind::Standard) {
            OverlapAutomaton::Native
        } else {
            OverlapAutomaton::Fallback {
                automaton: build_raw_automaton(pattern_values.as_slice(), RawMatchKind::Standard),
            }
        };
        Ok(CaseFoldingAC { raw, match_kind, overlap, case_insensitive })
    }

    /// Rebuilds the searcher from serialised automata. An empty image stands for
    /// no automaton. A main automaton that is standard where the recorded kind
    /// is leftmost, or the other way round, and an overlapping automaton that is
    /// not standard, are refused, since searching them would fail; a leftmost
    /// main automaton of the other leftmost kind searches with its own kind.
    pub fn from_prepared(
        match_kind: RawMatchKind,
        case_insensitive: bool,
        main: &[u8],
        overlap: Option<&[u8]>,
    ) -> (r: Result<Self, Error>)
        requires
            main@.len() == 0 || library_image(main@),
            overlap matches Some(o) ==> o@.len() == 0 || library_image(o@),
        ensures
            r is Err ==> r->Err_0 is InvalidPreparedAutomaton,
            r matches Ok(ac) ==> {
                &&& ac.valid()
                &&& ac.kind() == match_kind
                &&& ac.folds() == case_insensitive
                &&& contents_from_image(ac.main_contents(), main@)
                &&& (match_kind != RawMatchKind::Standard ==> overlap_from_image(
                    ac.overlap_contents(),
                    opt_bytes(overlap),
                ))
            },
            image_acceptable(main@, kind_byte(match_kind)) && (match_kind != RawMatchKind::Standard
                ==> overlap_acceptable(opt_bytes(overlap))) ==> r is Ok,
    {
        let raw = deserialize_raw_automaton(main)?;
        let kind_ok = match &raw {
            Some(a) => {
                let own = automaton_match_kind(a);
                matches!(own, RawMatchKind::Standard) == matches!(match_kind, RawMatchKind::Standard)
            },
            None => true,
        };
        if !kind_ok {
            return Err(Error::InvalidPreparedAutomaton(String::from_str("automaton match kind mismatch")));
        }
        let overlap = if matches!(match_kind, RawMatchKind::Standard) {
            OverlapAutomaton::Native
        } else {
            let overlap = match overlap {
                Some(overlap) => overlap,
                None => {
                    return Err(Error::InvalidPreparedAutomaton(String::from_str("missing overlapping automaton")));
                },
            };
            let automaton = deserialize_raw_automaton(overlap)?;
            let standard = match &automaton {
                Some(a) => automaton_match_kind(a) == RawMatchKind::Standard,
                None => true,
            };
            if !standard {
                return Err(Error::InvalidPreparedAutomaton(String::from_str("overlapping automaton is not standard")));
            }
            OverlapAutomaton::Prepared { automaton }
        };
        Ok(CaseFoldingAC { raw, match_kind, overlap, case_insensitive })
    }

    /// Serialises the automata: the main one (empty when there is none) and,
    /// for a leftmost searcher, the overlapping one.
    pub fn prepared_automata(&self) -> (r: Result<PreparedAutomata, Error>)
        ensures
            self.valid(),
            match r {
                Ok(p) => {
                    &&& p.main@ == self.main_image()
                    &&& (self.main_contents() is Some ==> p.main@.len() > 0)
                    &&& match self.overlap_image() {
                        Ok(None) => p.overlap is None,
                        Ok(Some(i)) => p.overlap matches Some(v) && v@ == i && (self.overlap_contents()
                            matches Ok(Some(_)) ==> v@.len() > 0),
                        Err(_) => false,
                    }
                },
                Err(e) => self.overlap_image() matches Err(reason) && e matches Error::BuildOverlappingAutomaton(s) && s@ == reason,
            },
    {
        proof {
            use_type_invariant(self);
        }
        let main = serialize_raw_automaton(self.raw.as_ref());
        let overlap = match &self.overlap {
            OverlapAutomaton::Native => None,
            OverlapAutomaton::Prepared { automaton } => Some(serialize_raw_automaton(automaton.as_ref())),
            OverlapAutomaton::Fallback { automaton } => match automaton {
                Ok(automaton) => Some(serialize_raw_automaton(automaton.as_ref())),
                Err(reason) => {
                    return Err(Error::BuildOverlappingAutomaton(reason.clone()));
                },
            },
        };
        Ok(PreparedAutomata { main, overlap })
    }

    /// The match kind of the non-overlapping search.
    pub fn match_kind(&self) -> (r: RawMatchKind)
        ensures
            r == self.kind(),
    {
        self.match_kind
    }

    /// Whether haystacks are folded before they are searched.
    pub fn case_insensitive(&self) -> (r: bool)
        ensures
            r == self.folds(),
    {
        self.case_insensitive
    }

    /// Makes a haystack ready for search: folded (with an offset mapping when
    /// folding changes its byte length) when matching ignores case.
    pub fn prepare<'a>(&self, text: &'a str) -> (r: PreparedSearch<'a>)
        ensures
            r.text_view() == search_chars(text@, self.folds()),
            forall|p: int| #[trigger] r.orig_spec(p) == text_orig_pos(text@, self.folds(), p),
    {
        if !self.case_insensitive {
            return PreparedSearch::Direct(text);
        }
        let ctx = SearchCtx::new(text);
        PreparedSearch::Folded { text: ctx.folded, mapping: ctx.mapping }
    }

    /// Makes a byte haystack ready for search: when matching ignores case, valid
    /// UTF-8 is decoded and folded, and other bytes are lowered as ASCII.
    pub fn prepare_bytes<'a>(&self, bytes: &'a [u8]) -> (r: PreparedBytes<'a>)
        ensures
            r.bytes_view() == search_bytes_of(bytes@, self.folds()),
            forall|p: int| #[trigger] r.orig_spec(p) == bytes_orig_pos(bytes@, self.folds(), p),
    {
        if !self.case_insensitive {
            return PreparedBytes::Direct(bytes);
        }
        match crate::utf16::decode_utf8_bytes(bytes) {
            Some(text) => {
                proof {
                    encode_utf8_decode_utf8(text@);
                }
                let ctx = SearchCtx::new(text);
                let folded = vstd::slice::slice_to_vec(ctx.folded.as_str().as_bytes());
                PreparedBytes::Folded { bytes: folded, mapping: ctx.mapping }
            },
            None => {
                let mut lowered: Vec<u8> = Vec::new();
                let n = bytes.len();
                let mut i: usize = 0;
                while i < n
                    invariant
                        n == bytes@.len(),
                        0 <= i <= n,
                        lowered@ == bytes@.take(i as int).map_values(|x: u8| ascii_lower_byte(x)),
                    decreases n - i,
                {
                    let b = bytes[i];
                    let lower = if 0x41 <= b && b <= 0x5A {
                        b + 32
                    } else {
                        b
                    };
                    lowered.push(lower);
                    assert(lowered@ =~= bytes@.take(i + 1).map_values(|x: u8| ascii_lower_byte(x)));
                    i = i + 1;
                }
                assert(bytes@.take(n as int) =~= bytes@);
                PreparedBytes::Folded { bytes: lowered, mapping: PosMapping::Identity }
            },
        }
    }

    /// The non-overlapping matches in prepared text.
    pub fn find_iter(&self, prep: &PreparedSearch<'_>) -> (r: Vec<RawMatch>)
        ensures
            raw_triples(r@) == main_search(self.main_contents(), self.kind(), encode_utf8(prep.text_view())),
            non_overlapping(raw_triples(r@)),
    {
        let text = prep.search_text();
        find_iter_raw(self, text.as_bytes())
    }

    /// The non-overlapping matches in prepared bytes.
    pub fn find_iter_bytes(&self, prep: &PreparedBytes<'_>) -> (r: Vec<RawMatch>)
        ensures
            raw_triples(r@) == main_search(self.main_contents(), self.kind(), prep.bytes_view()),
            non_overlapping(raw_triples(r@)),
    {
        find_iter_raw(self, prep.search_bytes())
    }

    /// Whether prepared text has a match.
    pub fn is_match_str(&self, prep: &PreparedSearch<'_>) -> (r: bool)
        ensures
            r == (main_search(self.main_contents(), self.kind(), encode_utf8(prep.text_view())).len()
                > 0),
    {
        let text = prep.search_text();
        is_match_raw(self, text.as_bytes())
    }

    /// Whether prepared bytes have a match.
    pub fn is_match_bytes_prep(&self, prep: &PreparedBytes<'_>) -> (r: bool)
        ensures
            r == (main_search(self.main_contents(), self.kind(), prep.bytes_view()).len() > 0),
    {
        is_match_raw(self, prep.search_bytes())
    }

    /// All overlapping matches in prepared text, or why the overlapping
    /// automaton is missing.
    pub fn overlapping_find_iter(&self, prep: &PreparedSearch<'_>) -> (r: Result<Vec<RawMatch>, Error>)
        ensures
            match r {
                Ok(v) => self.overlap_contents() matches Ok(p) && raw_triples(v@) == overlap_search(
                    p,
                    encode_utf8(prep.text_view()),
                ),
                Err(e) => self.overlap_contents() matches Err(reason) && e matches Error::BuildOverlappingAutomaton(s) && s@ == reason,
            },
    {
        let automaton = self.overlapping_ac()?;
        let text = prep.search_text();
        Ok(overlapping_iter_raw(automaton, text.as_bytes()))
    }

    /// The standard automaton that serves overlapping search: the main one for
    /// a standard searcher, else the separate one, or why it could not be built.
    fn overlapping_ac(&self) -> (r: Result<Option<&DoubleArrayAhoCorasick<u32>>, Error>)
        ensures
            match r {
                Ok(a) => self.overlap_contents() == Ok::<Option<Seq<u8>>, Seq<char>>(contents_of_ref(a))
                    && (a matches Some(x) ==> automaton_kind(*x) == 0 && library_image(automaton_image(*x))),
                Err(e) => self.overlap_contents() matches Err(reason) && e matches Error::BuildOverlappingAutomaton(s) && s@ == reason,
            },
    {
        proof {
            use_type_invariant(self);
        }
        match &self.overlap {
            OverlapAutomaton::Native => Ok(self.raw.as_ref()),
            OverlapAutomaton::Prepared { automaton } => Ok(automaton.as_ref()),
            OverlapAutomaton::Fallback { automaton } => match automaton {
                Ok(automaton) => Ok(automaton.as_ref()),
                Err(reason) => Err(Error::BuildOverlappingAutomaton(reason.clone())),
            },
        }
    }
}

/// What identifies the searches of a borrowed automaton: its image, if there is one.
pub open spec fn contents_of_ref(a: Option<&DoubleArrayAhoCorasick<u32>>) -> Option<Seq<u8>> {
    match a {
        Some(x) => Some(automaton_image(*x)),
        None => None,
    }
}

/// All overlapping matches of a standard automaton in `haystack` (none without one).
fn overlapping_iter_raw(raw: Option<&DoubleArrayAhoCorasick<u32>>, haystack: &[u8]) -> (r: Vec<RawMatch>)
    requires
        raw matches Some(a) ==> automaton_kind(*a) == 0 && library_image(automaton_image(*a)),
    ensures
        raw_triples(r@) == overlap_search(contents_of_ref(raw), haystack@),
{
    match raw {
        Some(a) => find_all_overlapping(a, haystack),
        None => {
            let v: Vec<RawMatch> = Vec::new();
            assert(raw_triples(v@) =~= Seq::<(u32, usize, usize)>::empty());
            v
        },
    }
}

/// The non-overlapping matches of the main automaton in `haystack`.
fn find_iter_raw(ac: &CaseFoldingAC, haystack: &[u8]) -> (r: Vec<RawMatch>)
    ensures
        raw_triples(r@) == main_search(ac.main_contents(), ac.kind(), haystack@),
        non_overlapping(raw_triples(r@)),
{
    proof {
        use_type_invariant(ac);
    }
    match &ac.raw {
        None => {
            let v: Vec<RawMatch> = Vec::new();
            assert(raw_triples(v@) =~= Seq::<(u32, usize, usize)>::empty());
            v
        },
        Some(raw) => {
            if matches!(ac.match_kind, RawMatchKind::Standard) {
                find_all(raw, haystack)
            } else {
                find_all_leftmost(raw, haystack)
            }
        },
    }
}

/// Whether the main automaton matches anywhere in `haystack`.
fn is_match_raw(ac: &CaseFoldingAC, haystack: &[u8]) -> (r: bool)
    ensures
        r == (main_search(ac.main_contents(), ac.kind(), haystack@).len() > 0),
{
    let matches = find_iter_raw(ac, haystack);
    matches.len() > 0
}

} // verus!
