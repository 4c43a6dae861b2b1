//! The searcher over text and byte haystacks: building, preparing and
//! restoring it, and its searches.
use vstd::prelude::*;
use vstd::string::*;
use vstd::utf8::*;
use daachorse::DoubleArrayAhoCorasick;
use crate::automaton::{
    RawMatch, automaton_image, automaton_kind, built_image, is_occurrence, leftmost_matches, library_image, overlapping_matches,
    raw_triples,
    searches_sound,
};
use crate::boundary::{is_whole_word, whole_word};
use crate::error::Error;
use crate::folding::{
    effective_text, lemma_first_occurrences_indices, lemma_first_occurrences_texts, lemma_pattern_texts_nonempty,
    pattern_values, unicode_simple_fold,
};
use crate::offsets::{
    candidate_offsets, char_offset, overlapping_packed, pack_with_lookup, sorted_unique_offsets,
    utf16_offset_values,
};
use crate::options::{BoundaryMode, Match, Options, RawMatchKind, kind_byte, resolve_match_kind, resolved_kind};
use crate::pack::{
    Triple, candidate_triples, in_order_on_boundaries, lemma_pack_for_text_exact, pack_candidates_plain,
    pack_for_text, pack_leftmost_longest_whole_word_matches, pack_plain, pack_utf16_exact, push_plain, push_utf16,
    utf16_walk,
};
use crate::positions::{lemma_occurrences_on_boundaries, lemma_orig_triples_on_boundaries};
use crate::prepared::{
    PREPARED_FLAG_ASCII_BOUNDARIES, PREPARED_FLAG_CASE_INSENSITIVE, PREPARED_FLAG_WHOLE_WORDS, PREPARED_HEADER_LEN,
    PREPARED_KNOWN_FLAGS, PREPARED_VERSION, PreparedLayout, encode_prepared, flags_byte, invalid_prepared, magic, parse_prepared,
    prepared_flags, raw_match_kind_byte, raw_match_kind_from_byte, read_bytes, read_u32_le, read_u8,
    skip_reserved, write_u32_le,
};
use crate::results::{
    bytes_hits, lemma_whole_word_candidates_from, main_hits, matches_of, orig_triples, overlap_hits, prefixed,
    replaced, replaced_from, span_ok, text_hay, text_result_is, whole_word_candidates,
};
use crate::search::{
    CaseFoldingAC, PreparedSearch, build_failure, built_from, bytes_orig_pos, contents_from_image,
    image_acceptable, lemma_built_searches_sound, lemma_reported_index_names_pattern, main_search, names_pattern,
    overlap_from_image, overlap_search,
    search_bytes_of, search_chars, text_orig_pos, text_value_bytes,
};
use crate::select::{ByteMatchCandidate, select_leftmost_longest_whole_word_matches, select_spec};
use crate::stream::append_bytes;
use crate::text::{span_chars, str_get};
use crate::utf16::{clamp_u32, u32_from_usize, utf16_len};

verus! {

broadcast use {vstd::string::group_string_axioms, vstd::utf8::group_utf8_lib};

/// The automaton semantics a searcher uses for its options: standard when
/// whole-word filtering is on (it works from all overlapping matches), else the
/// requested leftmost semantics.
pub open spec fn effective_kind(options: Options) -> RawMatchKind {
    if options.whole_words {
        RawMatchKind::Standard
    } else {
        resolved_kind(options.match_kind)
    }
}

/// The boundary mode the options ask for.
pub open spec fn boundary_of(options: Options) -> BoundaryMode {
    if options.unicode_boundaries {
        BoundaryMode::Unicode
    } else {
        BoundaryMode::Ascii
    }
}

/// The bytes of an optional image (nothing for none).
pub open spec fn image_or_empty(image: Option<Seq<u8>>) -> Seq<u8> {
    match image {
        Some(i) => i,
        None => seq![],
    }
}

/// A multi-pattern searcher.
pub struct AhoCorasick {
    search: CaseFoldingAC,
    whole_words: bool,
    boundary_mode: BoundaryMode,
    pattern_count: u32,
}

impl AhoCorasick {
    /// The underlying case-folding searcher.
    pub closed spec fn engine(&self) -> CaseFoldingAC {
        self.search
    }

    /// The number of patterns recorded (clamped to `u32`).
    pub closed spec fn count(&self) -> u32 {
        self.pattern_count
    }

    /// Whether only whole-word matches are reported.
    pub closed spec fn words(&self) -> bool {
        self.whole_words
    }

    /// Which characters are word characters.
    pub closed spec fn boundary(&self) -> BoundaryMode {
        self.boundary_mode
    }
}

/// Whether a searcher is the one built from these patterns and options.
pub open spec fn searcher_built_from(ac: AhoCorasick, patterns: Seq<String>, options: Options) -> bool {
    &&& ac.count() == clamp_u32(patterns.len() as int)
    &&& ac.words() == options.whole_words
    &&& ac.boundary() == boundary_of(options)
    &&& built_from(ac.engine(), patterns, effective_kind(options), options.case_insensitive)
}

/// Whether `bytes` are the prepared form of a searcher: its header fields
/// followed by the images of its automata.
pub open spec fn prepared_image_of(ac: AhoCorasick, bytes: Seq<u8>) -> bool {
    &&& ac.engine().overlap_image() matches Ok(ov)
    &&& bytes.len() <= usize::MAX
    &&& ac.engine().main_image().len() <= u32::MAX
    &&& image_or_empty(ov).len() <= u32::MAX
    &&& (ac.engine().main_contents() is Some ==> ac.engine().main_image().len() > 0)
    &&& (ac.engine().kind() != RawMatchKind::Standard && (ac.engine().overlap_contents() matches Ok(
        Some(_),
    )) ==> image_or_empty(ov).len() > 0)
    &&& bytes == encode_prepared(
        ac.count(),
        kind_byte(ac.engine().kind()),
        flags_byte(ac.engine().folds(), ac.words(), ac.boundary()),
        ac.engine().main_image(),
        image_or_empty(ov),
    )
}

/// Whether the automaton images a prepared automaton frames are each empty or
/// an image the builder made, as those that preparing a searcher writes are.
pub open spec fn prepared_images_built(layout: PreparedLayout) -> bool {
    &&& (layout.main.len() == 0 || library_image(layout.main))
    &&& (layout.overlap.len() == 0 || library_image(layout.overlap))
}

/// Why writing a searcher's prepared form fails: its overlapping automaton
/// could not be built, or an automaton image is too large for the header's
/// `u32` lengths.
pub open spec fn prepare_failure(ac: AhoCorasick, e: Error) -> bool {
    match ac.engine().overlap_image() {
        Err(reason) => e matches Error::BuildOverlappingAutomaton(s) && s@ == reason,
        Ok(ov) => e matches Error::InvalidPreparedAutomaton(s) && (if ac.engine().main_image().len() > u32::MAX {
            s@ == "main automaton too large"@
        } else {
            image_or_empty(ov).len() > u32::MAX && s@ == "overlap automaton too large"@
        }),
    }
}

/// The match kind that a recorded kind byte stands for.
pub open spec fn kind_of_byte(b: u8) -> RawMatchKind {
    if b == 0 {
        RawMatchKind::Standard
    } else if b == 1 {
        RawMatchKind::LeftmostLongest
    } else {
        RawMatchKind::LeftmostFirst
    }
}

/// Whether a searcher is the one restored from a prepared automaton's layout:
/// its count, kind and flags are those recorded, and its automata are read
/// from the recorded images.
pub open spec fn restored_from(bytes: Seq<u8>, ac: AhoCorasick) -> bool {
    &&& parse_prepared(bytes) matches Ok(layout)
    &&& ac.count() == layout.pattern_count
    &&& ac.engine().kind() == kind_of_byte(layout.kind)
    &&& ac.engine().folds() == (layout.flags & 1 != 0)
    &&& ac.words() == (layout.flags & 2 != 0)
    &&& ac.boundary() == (if layout.flags & 4 == 0 {
        BoundaryMode::Unicode
    } else {
        BoundaryMode::Ascii
    })
    &&& contents_from_image(ac.engine().main_contents(), layout.main)
    &&& (layout.kind != 0 ==> overlap_from_image(ac.engine().overlap_contents(), Some(layout.overlap)))
}

/// Writes a prepared automaton: the header fields, then the two images.
pub(crate) fn write_prepared(pattern_count: u32, kind: u8, flags: u8, main: &[u8], overlap: &[u8]) -> (r: Vec<u8>)
    requires
        main@.len() <= u32::MAX,
        overlap@.len() <= u32::MAX,
    ensures
        r@ == encode_prepared(pattern_count, kind, flags, main@, overlap@),
{
    let mut bytes: Vec<u8> = Vec::with_capacity(
        PREPARED_HEADER_LEN.saturating_add(main.len()).saturating_add(overlap.len()),
    );
    bytes.push(0x53u8);
    bytes.push(0x54u8);
    bytes.push(0x4cu8);
    bytes.push(0x41u8);
    bytes.push(0x48u8);
    bytes.push(0x4fu8);
    bytes.push(0u8);
    bytes.push(0u8);
    assert(bytes@ =~= magic());
    write_u32_le(&mut bytes, PREPARED_VERSION);
    write_u32_le(&mut bytes, pattern_count);
    let ghost head = bytes@;
    bytes.push(kind);
    bytes.push(flags);
    bytes.push(0u8);
    bytes.push(0u8);
    assert(bytes@ =~= head + seq![kind, flags, 0u8, 0u8]);
    write_u32_le(&mut bytes, main.len() as u32);
    write_u32_le(&mut bytes, overlap.len() as u32);
    append_bytes(&mut bytes, main);
    append_bytes(&mut bytes, overlap);
    bytes
}

impl AhoCorasick {
    /// Builds a searcher. With whole-word filtering, the automaton is standard
    /// and matches are chosen leftmost-longest among whole-word candidates.
    pub fn new(patterns: Vec<String>, options: Options) -> (r: Result<Self, Error>)
        ensures
            match r {
                Ok(ac) => searcher_built_from(ac, patterns@, options) && ac.engine().valid() && preparable(ac),
                Err(e) => build_failure(e, patterns@, effective_kind(options), options.case_insensitive),
            },
    {
        let pattern_count = u32_from_usize(patterns.len());
        let effective_kind = if options.whole_words {
            RawMatchKind::Standard
        } else {
            resolve_match_kind(options.match_kind)
        };
        let search = CaseFoldingAC::build(patterns, effective_kind, options.case_insensitive, options.dfa)?;
        Ok(AhoCorasick {
            search,
            whole_words: options.whole_words,
            boundary_mode: if options.unicode_boundaries {
                BoundaryMode::Unicode
            } else {
                BoundaryMode::Ascii
            },
            pattern_count,
        })
    }

    /// Builds a searcher and returns its prepared (serialised) form.
    pub fn prepare(patterns: Vec<String>, options: Options) -> (r: Result<Vec<u8>, Error>)
        ensures
            r matches Ok(bytes) ==> exists|ac: AhoCorasick|
                searcher_built_from(ac, patterns@, options) && ac.engine().valid() && preparable(ac)
                    && #[trigger] prepared_image_of(ac, bytes@),
            r matches Err(e) ==> build_failure(e, patterns@, effective_kind(options), options.case_insensitive)
                || exists|ac: AhoCorasick|
                searcher_built_from(ac, patterns@, options) && ac.engine().valid() && #[trigger] prepare_failure(ac, e),
    {
        let ac = Self::new(patterns, options)?;
        ac.to_prepared()
    }

    /// The prepared (serialised) form of this searcher. Fails when the
    /// overlapping automaton could not be built, or when an automaton image is
    /// too large for the header's `u32` lengths.
    pub fn to_prepared(&self) -> (r: Result<Vec<u8>, Error>)
        ensures
            self.engine().valid(),
            match r {
                Ok(bytes) => prepared_image_of(*self, bytes@),
                Err(e) => prepare_failure(*self, e),
            },
    {
        let prepared = self.search.prepared_automata()?;
        if prepared.main.len() > u32::MAX as usize {
            return Err(invalid_prepared("main automaton too large"));
        }
        let main_len = prepared.main.len() as u32;
        let overlap_len_usize: usize = match &prepared.overlap {
            Some(overlap) => overlap.len(),
            None => 0,
        };
        if overlap_len_usize > u32::MAX as usize {
            return Err(invalid_prepared("overlap automaton too large"));
        }
        let overlap_len = overlap_len_usize as u32;
        let empty: Vec<u8> = Vec::new();
        let overlap_bytes: &[u8] = match &prepared.overlap {
            Some(overlap) => overlap.as_slice(),
            None => empty.as_slice(),
        };
        let bytes = write_prepared(
            self.pattern_count,
            raw_match_kind_byte(self.search.match_kind()),
            prepared_flags(self.search.case_insensitive(), self.whole_words, self.boundary_mode),
            prepared.main.as_slice(),
            overlap_bytes,
        );
        proof {
            self.search.lemma_standard_overlap();
            assert(bytes@.len() == bytes.len());
        }
        Ok(bytes)
    }

    /// Restores a searcher from its prepared form. Every way the framing can be
    /// malformed is refused with its own reason; the automaton images must then
    /// deserialise to automata of the recorded kind (the overlapping one standard).
    pub fn from_prepared(bytes: &[u8]) -> (r: Result<Self, Error>)
        requires
            parse_prepared(bytes@) matches Ok(layout) ==> prepared_images_built(layout),
        ensures
            match parse_prepared(bytes@) {
                Err(reason) => r matches Err(Error::InvalidPreparedAutomaton(s)) && s@ == reason,
                Ok(layout) => {
                    &&& (r matches Ok(ac) ==> restored_from(bytes@, ac) && ac.engine().valid() && preparable(ac))
                    &&& (r is Err ==> r->Err_0 is InvalidPreparedAutomaton)
                    &&& (image_acceptable(layout.main, layout.kind) && (layout.kind != 0
                        ==> image_acceptable(layout.overlap, 0)) ==> r is Ok)
                },
            },
    {
        let n = bytes.len();
        if n < 8 {
            return Err(invalid_prepared("missing magic"));
        }
        if bytes[0] != 0x53 || bytes[1] != 0x54 || bytes[2] != 0x4c || bytes[3] != 0x41 || bytes[4]
            != 0x48 || bytes[5] != 0x4f || bytes[6] != 0 || bytes[7] != 0 {
            proof {
                assert(bytes@.subrange(0, 8) != magic()) by {
                    if bytes@.subrange(0, 8) == magic() {
                        assert(bytes@.subrange(0, 8)[0] == bytes@[0]);
                        assert(bytes@.subrange(0, 8)[1] == bytes@[1]);
                        assert(bytes@.subrange(0, 8)[2] == bytes@[2]);
                        assert(bytes@.subrange(0, 8)[3] == bytes@[3]);
                        assert(bytes@.subrange(0, 8)[4] == bytes@[4]);
                        assert(bytes@.subrange(0, 8)[5] == bytes@[5]);
                        assert(bytes@.subrange(0, 8)[6] == bytes@[6]);
                        assert(bytes@.subrange(0, 8)[7] == bytes@[7]);
                    }
                }
            }
            return Err(invalid_prepared("magic mismatch"));
        }
        assert(bytes@.subrange(0, 8) =~= magic());
        let mut cursor: usize = 8;
        let version = read_u32_le(bytes, &mut cursor, "missing version")?;
        if version != PREPARED_VERSION {
            return Err(invalid_prepared("unsupported version"));
        }
        let pattern_count = read_u32_le(bytes, &mut cursor, "missing pattern count")?;
        let kind_byte_value = read_u8(bytes, &mut cursor, "missing match kind")?;
        let match_kind = raw_match_kind_from_byte(kind_byte_value)?;
        let flags = read_u8(bytes, &mut cursor, "missing flags")?;
        let unknown = flags & !PREPARED_KNOWN_FLAGS;
        assert(unknown != 0 <==> flags >= 8) by (bit_vector)
            requires
                unknown == flags & !7u8,
        ;
        if unknown != 0 {
            return Err(invalid_prepared("unknown flags"));
        }
        skip_reserved(bytes, &mut cursor)?;
        let main_len = read_u32_le(bytes, &mut cursor, "missing main length")?;
        let overlap_len = read_u32_le(bytes, &mut cursor, "missing overlap length")?;
        let main = read_bytes(bytes, &mut cursor, main_len as usize, "missing main bytes")?;
        let overlap = read_bytes(bytes, &mut cursor, overlap_len as usize, "missing overlap bytes")?;
        if cursor != n {
            return Err(invalid_prepared("trailing bytes"));
        }
        let case_insensitive = flags & PREPARED_FLAG_CASE_INSENSITIVE != 0;
        let whole_words = flags & PREPARED_FLAG_WHOLE_WORDS != 0;
        let boundary_mode = if flags & PREPARED_FLAG_ASCII_BOUNDARIES == 0 {
            BoundaryMode::Unicode
        } else {
            BoundaryMode::Ascii
        };
        let overlap = if matches!(match_kind, RawMatchKind::Standard) {
            if overlap.len() != 0 {
                return Err(invalid_prepared("standard automaton includes overlap bytes"));
            }
            None
        } else {
            if overlap.len() == 0 && main.len() != 0 {
                return Err(invalid_prepared("non-standard automaton is missing overlap bytes"));
            }
            Some(overlap)
        };
        let search = CaseFoldingAC::from_prepared(match_kind, case_insensitive, main, overlap)?;
        Ok(AhoCorasick { search, whole_words, boundary_mode, pattern_count })
    }

    /// The number of patterns the searcher was built from (clamped to `u32`).
    pub fn pattern_count(&self) -> (r: u32)
        ensures
            r == self.count(),
    {
        self.pattern_count
    }
}

} // verus!

verus! {

/// Whether two searchers have the same counts, options and automaton contents.
pub open spec fn same_searcher(a: AhoCorasick, b: AhoCorasick) -> bool {
    &&& a.count() == b.count()
    &&& a.words() == b.words()
    &&& a.boundary() == b.boundary()
    &&& a.engine().kind() == b.engine().kind()
    &&& a.engine().folds() == b.engine().folds()
    &&& a.engine().main_contents() == b.engine().main_contents()
    &&& a.engine().overlap_contents() == b.engine().overlap_contents()
}

/// Whether a searcher's prepared form can record it: a leftmost searcher with
/// a main automaton needs a non-empty overlapping automaton, since the format
/// takes an empty overlapping image beside a main one as missing (a searcher
/// whose overlapping automaton failed to build has no prepared form at all).
/// Searchers built from patterns and searchers restored from prepared bytes
/// all are.
pub open spec fn preparable(ac: AhoCorasick) -> bool {
    ||| ac.engine().kind() == RawMatchKind::Standard
    ||| ac.engine().main_contents() is None
    ||| ac.engine().overlap_contents() matches Ok(Some(_))
    ||| ac.engine().overlap_contents() is Err
}

proof fn lemma_flag_bits(f: u8)
    requires
        f < 8,
    ensures
        (f & 1 != 0) <==> f % 2 == 1,
        (f & 2 != 0) <==> (f / 2) % 2 == 1,
        (f & 4 == 0) <==> f < 4,
{
    assert((f & 1 != 0) <==> f % 2 == 1) by (bit_vector)
        requires
            f < 8,
    ;
    assert((f & 2 != 0) <==> (f / 2) % 2 == 1) by (bit_vector)
        requires
            f < 8,
    ;
    assert((f & 4 == 0) <==> f < 4) by (bit_vector)
        requires
            f < 8,
    ;
}

/// The prepared form of a searcher is accepted when it is read back: its
/// framing parses, and its images are those of automata of the recorded kinds.
pub proof fn lemma_prepared_form_accepted(ac: AhoCorasick, bytes: Seq<u8>)
    requires
        ac.engine().valid(),
        prepared_image_of(ac, bytes),
        preparable(ac),
    ensures
        parse_prepared(bytes) matches Ok(layout) && image_acceptable(layout.main, layout.kind) && (
        layout.kind != 0 ==> image_acceptable(layout.overlap, 0)),
{
    let e = ac.engine();
    e.lemma_standard_overlap();
    let ov = match e.overlap_image() {
        Ok(ov) => ov,
        Err(_) => None,
    };
    let kb = kind_byte(e.kind());
    let fb = flags_byte(e.folds(), ac.words(), ac.boundary());
    crate::prepared::lemma_prepared_roundtrip(ac.count(), kb, fb, e.main_image(), image_or_empty(ov));
}

/// Restoring a searcher from its prepared form gives back the same searcher:
/// the same count, options, match kind, folding and automaton contents.
pub proof fn lemma_prepared_restores(ac: AhoCorasick, bytes: Seq<u8>, restored: AhoCorasick)
    requires
        ac.engine().valid(),
        restored.engine().valid(),
        prepared_image_of(ac, bytes),
        preparable(ac),
        restored_from(bytes, restored),
    ensures
        same_searcher(restored, ac),
{
    let e = ac.engine();
    e.lemma_standard_overlap();
    restored.engine().lemma_standard_overlap();
    let ov = match e.overlap_image() {
        Ok(ov) => ov,
        Err(_) => None,
    };
    let kb = kind_byte(e.kind());
    let fb = flags_byte(e.folds(), ac.words(), ac.boundary());
    crate::prepared::lemma_prepared_roundtrip(ac.count(), kb, fb, e.main_image(), image_or_empty(ov));
    lemma_flag_bits(fb);
}

/// Searchers with the same counts, options and automaton contents (such as a
/// searcher and the one restored from its prepared form) find the same: the
/// same non-overlapping matches in every text and every byte haystack, and the
/// same overlapping and whole-word matches in every text.
pub proof fn lemma_same_searcher_same_results(a: AhoCorasick, b: AhoCorasick, haystack: &str, bytes: Seq<u8>)
    requires
        same_searcher(a, b),
    ensures
        main_hits(a.engine(), haystack@) == main_hits(b.engine(), haystack@),
        bytes_hits(a.engine(), bytes) == bytes_hits(b.engine(), bytes),
        forall|p: Option<Seq<u8>>|
            #[trigger] overlap_hits(a.engine(), p, haystack@) == overlap_hits(b.engine(), p, haystack@),
        forall|p: Option<Seq<u8>>|
            #[trigger] whole_word_candidates(haystack.spec_bytes(), overlap_hits(a.engine(), p, haystack@), a.boundary())
                == whole_word_candidates(haystack.spec_bytes(), overlap_hits(b.engine(), p, haystack@), b.boundary()),
{
}

} // verus!

verus! {

/// Whole-word candidates of a prefix are never more than those of the whole.
pub proof fn lemma_whole_word_candidates_prefix(b: Seq<u8>, ms: Seq<Triple>, mode: BoundaryMode, i: int)
    requires
        0 <= i <= ms.len(),
    ensures
        whole_word_candidates(b, ms.take(i), mode).len() <= whole_word_candidates(b, ms, mode).len(),
    decreases ms.len(),
{
    if i == ms.len() {
        assert(ms.take(i) =~= ms);
    } else {
        lemma_whole_word_candidates_prefix(b, ms.drop_last(), mode, i);
        assert(ms.drop_last().take(i) =~= ms.take(i));
    }
}

/// Whether a prepared text is the prepared form of a haystack for a searcher.
pub open spec fn prepared_for(e: CaseFoldingAC, haystack: &str, prep: PreparedSearch) -> bool {
    &&& prep.text_view() == search_chars(haystack@, e.folds())
    &&& forall|p: int| #[trigger] prep.orig_spec(p) == text_orig_pos(haystack@, e.folds(), p)
}

impl AhoCorasick {
    /// The whole-word candidates among raw matches of a prepared haystack.
    fn whole_word_candidates_in(&self, haystack: &str, prep: &PreparedSearch, matches: &Vec<RawMatch>)
        -> (r: Vec<ByteMatchCandidate>)
        requires
            prepared_for(self.engine(), haystack, *prep),
        ensures
            r@ == whole_word_candidates(
                haystack.spec_bytes(),
                orig_triples(haystack@, self.engine().folds(), raw_triples(matches@)),
                self.boundary(),
            ),
    {
        let ghost ms = orig_triples(haystack@, self.engine().folds(), raw_triples(matches@));
        let mut candidates: Vec<ByteMatchCandidate> = Vec::new();
        let n = matches.len();
        let mut i: usize = 0;
        while i < n
            invariant
                n == matches@.len(),
                0 <= i <= n,
                prepared_for(self.engine(), haystack, *prep),
                ms == orig_triples(haystack@, self.engine().folds(), raw_triples(matches@)),
                candidates@ == whole_word_candidates(haystack.spec_bytes(), ms.take(i as int), self.boundary()),
            decreases n - i,
        {
            let m = matches[i];
            let os = prep.orig_pos(m.start());
            let oe = prep.orig_pos(m.end());
            proof {
                assert(ms.take(i + 1).drop_last() =~= ms.take(i as int));
                assert(ms[i as int] == (m.pattern, os, oe));
            }
            if is_whole_word(haystack, os, oe, self.boundary_mode) {
                candidates.push(ByteMatchCandidate { pattern: m.pattern().as_u32(), start: os, end: oe });
            }
            i = i + 1;
        }
        proof {
            assert(ms.take(n as int) =~= ms);
        }
        candidates
    }

    /// Whether the haystack has a match (a whole-word match, with whole-word filtering).
    pub fn is_match(&self, haystack: &str) -> (r: Result<bool, Error>)
        ensures
            !self.words() ==> r == Ok::<bool, Error>(
                main_search(self.engine().main_contents(), self.engine().kind(), text_hay(self.engine(), haystack@)).len() > 0,
            ),
            self.words() ==> match self.engine().overlap_contents() {
                Ok(p) => r == Ok::<bool, Error>(
                    whole_word_candidates(haystack.spec_bytes(), overlap_hits(self.engine(), p, haystack@), self.boundary()).len() > 0,
                ),
                Err(reason) => r matches Err(Error::BuildOverlappingAutomaton(s)) && s@ == reason,
            },
    {
        if !self.whole_words {
            let prep = self.search.prepare(haystack);
            return Ok(self.search.is_match_str(&prep));
        }
        let prep = self.search.prepare(haystack);
        let matches = self.search.overlapping_find_iter(&prep)?;
        let ghost p = match self.engine().overlap_contents() {
            Ok(p) => p,
            Err(_) => None,
        };
        let ghost ms = overlap_hits(self.engine(), p, haystack@);
        proof {
            assert(ms == orig_triples(haystack@, self.engine().folds(), raw_triples(matches@)));
        }
        let n = matches.len();
        let mut i: usize = 0;
        while i < n
            invariant
                n == matches@.len(),
                0 <= i <= n,
                prepared_for(self.engine(), haystack, prep),
                ms == orig_triples(haystack@, self.engine().folds(), raw_triples(matches@)),
                whole_word_candidates(haystack.spec_bytes(), ms.take(i as int), self.boundary()).len() == 0,
                self.words(),
                self.engine().overlap_contents() == Ok::<Option<Seq<u8>>, Seq<char>>(p),
                ms == overlap_hits(self.engine(), p, haystack@),
            decreases n - i,
        {
            let m = matches[i];
            let os = prep.orig_pos(m.start());
            let oe = prep.orig_pos(m.end());
            proof {
                assert(ms.take(i + 1).drop_last() =~= ms.take(i as int));
                assert(ms[i as int] == (m.pattern, os, oe));
            }
            if is_whole_word(haystack, os, oe, self.boundary_mode) {
                proof {
                    lemma_whole_word_candidates_prefix(haystack.spec_bytes(), ms, self.boundary(), i + 1);
                }
                return Ok(true);
            }
            i = i + 1;
        }
        proof {
            assert(ms.take(n as int) =~= ms);
        }
        Ok(false)
    }
}

} // verus!

verus! {

impl AhoCorasick {
    /// The non-overlapping matches packed in UTF-16 offsets (byte offsets on ASCII text).
    fn find_iter_simple(&self, haystack: &str) -> (r: Vec<u32>)
        ensures
            r@ == pack_for_text(haystack, main_hits(self.engine(), haystack@)),
    {
        let prep = self.search.prepare(haystack);
        let matches = self.search.find_iter(&prep);
        let ghost ms = main_hits(self.engine(), haystack@);
        let n = matches.len();
        let mut packed: Vec<u32> = Vec::new();
        if haystack.is_ascii() {
            let mut i: usize = 0;
            while i < n
                invariant
                    n == matches@.len(),
                    0 <= i <= n,
                    prepared_for(self.engine(), haystack, prep),
                    ms == orig_triples(haystack@, self.engine().folds(), raw_triples(matches@)),
                    packed@ == pack_plain(ms.take(i as int)),
                decreases n - i,
            {
                let m = matches[i];
                let os = prep.orig_pos(m.start());
                let oe = prep.orig_pos(m.end());
                push_plain(&mut packed, m.pattern().as_u32(), os, oe);
                proof {
                    assert(ms.take(i + 1).drop_last() =~= ms.take(i as int));
                    assert(ms[i as int] == (m.pattern, os, oe));
                }
                i = i + 1;
            }
            proof {
                assert(ms.take(n as int) =~= ms);
            }
            return packed;
        }
        let bytes = haystack.as_bytes();
        let mut last_byte: usize = 0;
        let mut last_utf16: u32 = 0;
        let mut i: usize = 0;
        while i < n
            invariant
                n == matches@.len(),
                0 <= i <= n,
                bytes@ == haystack.spec_bytes(),
                prepared_for(self.engine(), haystack, prep),
                ms == orig_triples(haystack@, self.engine().folds(), raw_triples(matches@)),
                utf16_walk(bytes@, ms.take(i as int)) == (packed@, last_byte as int, last_utf16),
            decreases n - i,
        {
            let m = matches[i];
            let os = prep.orig_pos(m.start());
            let oe = prep.orig_pos(m.end());
            push_utf16(bytes, &mut packed, &mut last_byte, &mut last_utf16, m.pattern().as_u32(), os, oe);
            proof {
                assert(ms.take(i + 1).drop_last() =~= ms.take(i as int));
                assert(ms[i as int] == (m.pattern, os, oe));
            }
            i = i + 1;
        }
        proof {
            assert(ms.take(n as int) =~= ms);
        }
        packed
    }

    /// The matches packed as `[pattern, start, end]` triples in UTF-16 offsets
    /// (the leftmost-longest whole-word matches, with whole-word filtering).
    pub fn find_iter_packed(&self, haystack: &str) -> (r: Result<Vec<u32>, Error>)
        ensures
            !self.words() ==> (r matches Ok(v) && v@ == pack_for_text(haystack, main_hits(self.engine(), haystack@))),
            self.words() ==> match self.engine().overlap_contents() {
                Ok(p) => r matches Ok(v) && v@ == pack_for_text(
                    haystack,
                    candidate_triples(select_spec(whole_word_candidates(
                        haystack.spec_bytes(),
                        overlap_hits(self.engine(), p, haystack@),
                        self.boundary(),
                    ))),
                ),
                Err(reason) => r matches Err(Error::BuildOverlappingAutomaton(s)) && s@ == reason,
            },
    {
        if !self.whole_words {
            return Ok(self.find_iter_simple(haystack));
        }
        let prep = self.search.prepare(haystack);
        let matches = self.search.overlapping_find_iter(&prep)?;
        let candidates = self.whole_word_candidates_in(haystack, &prep, &matches);
        Ok(pack_leftmost_longest_whole_word_matches(haystack, candidates))
    }

    /// Like `find_iter_packed`, but with UTF-8 byte offsets.
    pub fn find_iter_packed_bytes(&self, haystack: &str) -> (r: Result<Vec<u32>, Error>)
        ensures
            !self.words() ==> (r matches Ok(v) && v@ == pack_plain(main_hits(self.engine(), haystack@))),
            self.words() ==> match self.engine().overlap_contents() {
                Ok(p) => r matches Ok(v) && v@ == pack_plain(
                    candidate_triples(select_spec(whole_word_candidates(
                        haystack.spec_bytes(),
                        overlap_hits(self.engine(), p, haystack@),
                        self.boundary(),
                    ))),
                ),
                Err(reason) => r matches Err(Error::BuildOverlappingAutomaton(s)) && s@ == reason,
            },
    {
        let prep = self.search.prepare(haystack);
        if !self.whole_words {
            let matches = self.search.find_iter(&prep);
            let ghost ms = main_hits(self.engine(), haystack@);
            let mut packed: Vec<u32> = Vec::new();
            let n = matches.len();
            let mut i: usize = 0;
            while i < n
                invariant
                    n == matches@.len(),
                    0 <= i <= n,
                    prepared_for(self.engine(), haystack, prep),
                    ms == orig_triples(haystack@, self.engine().folds(), raw_triples(matches@)),
                    packed@ == pack_plain(ms.take(i as int)),
                decreases n - i,
            {
                let m = matches[i];
                let os = prep.orig_pos(m.start());
                let oe = prep.orig_pos(m.end());
                push_plain(&mut packed, m.pattern().as_u32(), os, oe);
                proof {
                    assert(ms.take(i + 1).drop_last() =~= ms.take(i as int));
                    assert(ms[i as int] == (m.pattern, os, oe));
                }
                i = i + 1;
            }
            proof {
                assert(ms.take(n as int) =~= ms);
            }
            return Ok(packed);
        }
        let matches = self.search.overlapping_find_iter(&prep)?;
        let candidates = self.whole_word_candidates_in(haystack, &prep, &matches);
        let selected = select_leftmost_longest_whole_word_matches(candidates);
        Ok(pack_candidates_plain(&selected))
    }

    /// All overlapping matches (whole words only, with whole-word filtering),
    /// packed with UTF-8 byte offsets.
    pub fn find_overlapping_iter_packed_bytes(&self, haystack: &str) -> (r: Result<Vec<u32>, Error>)
        ensures
            match self.engine().overlap_contents() {
                Ok(p) => r matches Ok(v) && v@ == pack_plain(if self.words() {
                    candidate_triples(whole_word_candidates(
                        haystack.spec_bytes(),
                        overlap_hits(self.engine(), p, haystack@),
                        self.boundary(),
                    ))
                } else {
                    overlap_hits(self.engine(), p, haystack@)
                }),
                Err(reason) => r matches Err(Error::BuildOverlappingAutomaton(s)) && s@ == reason,
            },
    {
        let prep = self.search.prepare(haystack);
        let matches = self.search.overlapping_find_iter(&prep)?;
        if self.whole_words {
            let candidates = self.whole_word_candidates_in(haystack, &prep, &matches);
            return Ok(pack_candidates_plain(&candidates));
        }
        let ghost p = match self.engine().overlap_contents() {
            Ok(p) => p,
            Err(_) => None,
        };
        let ghost ms = overlap_hits(self.engine(), p, haystack@);
        let mut packed: Vec<u32> = Vec::new();
        let n = matches.len();
        let mut i: usize = 0;
        while i < n
            invariant
                n == matches@.len(),
                0 <= i <= n,
                prepared_for(self.engine(), haystack, prep),
                ms == orig_triples(haystack@, self.engine().folds(), raw_triples(matches@)),
                packed@ == pack_plain(ms.take(i as int)),
            decreases n - i,
        {
            let m = matches[i];
            let os = prep.orig_pos(m.start());
            let oe = prep.orig_pos(m.end());
            push_plain(&mut packed, m.pattern().as_u32(), os, oe);
            proof {
                assert(ms.take(i + 1).drop_last() =~= ms.take(i as int));
                assert(ms[i as int] == (m.pattern, os, oe));
            }
            i = i + 1;
        }
        proof {
            assert(ms.take(n as int) =~= ms);
        }
        Ok(packed)
    }
}

} // verus!

verus! {

/// Converts a `u32` to `usize` (always possible on supported targets).
pub fn usize_from_u32(value: u32) -> (r: Option<usize>)
    ensures
        r == Some(value as usize),
{
    Some(value as usize)
}

/// `text[start..end]`, or the invalid-span error when that is not a span of whole characters.
pub fn str_span(text: &str, start: usize, end: usize) -> (r: Result<&str, Error>)
    ensures
        match r {
            Ok(t) => span_ok(text.spec_bytes(), start as int, end as int) && t@ == span_chars(
                text.spec_bytes(),
                start as int,
                end as int,
            ),
            Err(e) => !span_ok(text.spec_bytes(), start as int, end as int) && e == Error::InvalidUtf8Span,
        },
{
    match str_get(text, start, end) {
        Some(t) => {
            proof {
                encode_utf8_decode_utf8(t@);
            }
            Ok(t)
        },
        None => Err(Error::InvalidUtf8Span),
    }
}

/// The replacement for a pattern index.
pub fn replacement_for(replacements: &[String], pattern: u32) -> (r: Result<&str, Error>)
    ensures
        match r {
            Ok(s) => (pattern as int) < replacements@.len() && s@ == replacements@[pattern as int]@,
            Err(e) => (pattern as int) >= replacements@.len() && e == (Error::MissingReplacement { pattern }),
        },
{
    let index = match usize_from_u32(pattern) {
        Some(index) => index,
        None => {
            return Err(Error::PatternIndexDoesNotFit);
        },
    };
    if index < replacements.len() {
        Ok(replacements[index].as_str())
    } else {
        Err(Error::MissingReplacement { pattern })
    }
}

/// Builds the replaced text for matches given in original byte offsets.
fn replace_matches(haystack: &str, ms: &Vec<ByteMatchCandidate>, replacements: &[String]) -> (r: Result<String, Error>)
    ensures
        text_result_is(r, replaced(haystack, candidate_triples(ms@), replacements@)),
{
    let ghost b = haystack.spec_bytes();
    let ghost ts = candidate_triples(ms@);
    let mut result = String::new();
    let mut last: usize = 0;
    let n = ms.len();
    let mut i: usize = 0;
    while i < n
        invariant
            n == ms@.len(),
            0 <= i <= n,
            b == haystack.spec_bytes(),
            ts == candidate_triples(ms@),
            replaced(haystack, ts, replacements@) == prefixed(result@, replaced_from(b, ts, i as int, last as int, replacements@)),
        decreases n - i,
    {
        let m = ms[i];
        let span = str_span(haystack, last, m.start)?;
        let replacement = replacement_for(replacements, m.pattern)?;
        let ghost before = result@;
        result.append(span);
        result.append(replacement);
        proof {
            assert(ts[i as int] == m.triple());
            let rest = replaced_from(b, ts, i + 1, m.end as int, replacements@);
            match rest {
                Ok(x) => {
                    assert(before + (span@ + replacement@ + x) =~= result@ + x);
                },
                Err(_) => {},
            }
        }
        last = m.end;
        i = i + 1;
    }
    let len = haystack.as_bytes().len();
    let tail = str_span(haystack, last, len)?;
    result.append(tail);
    Ok(result)
}

impl AhoCorasick {
    /// The haystack with every match replaced by the replacement at its pattern's
    /// index. There must be one replacement per pattern.
    pub fn replace_all(&self, haystack: &str, replacements: &[String]) -> (r: Result<String, Error>)
        ensures
            replacements@.len() != self.count() ==> r == Err::<String, Error>(
                Error::ReplacementCountMismatch { expected: self.count(), actual: replacements@.len() as usize },
            ),
            replacements@.len() == self.count() && !self.words() ==> text_result_is(
                r,
                replaced(haystack, main_hits(self.engine(), haystack@), replacements@),
            ),
            replacements@.len() == self.count() && self.words() ==> match self.engine().overlap_contents() {
                Ok(p) => text_result_is(
                    r,
                    replaced(
                        haystack,
                        candidate_triples(select_spec(whole_word_candidates(
                            haystack.spec_bytes(),
                            overlap_hits(self.engine(), p, haystack@),
                            self.boundary(),
                        ))),
                        replacements@,
                    ),
                ),
                Err(reason) => r matches Err(Error::BuildOverlappingAutomaton(s)) && s@ == reason,
            },
    {
        let expected_replacements = match usize_from_u32(self.pattern_count) {
            Some(expected) => expected,
            None => {
                return Err(Error::PatternCountDoesNotFit);
            },
        };
        if replacements.len() != expected_replacements {
            return Err(Error::ReplacementCountMismatch {
                expected: self.pattern_count,
                actual: replacements.len(),
            });
        }
        let prep = self.search.prepare(haystack);
        if !self.whole_words {
            let matches = self.search.find_iter(&prep);
            let selected = self.orig_candidates_in(haystack, &prep, &matches);
            return replace_matches(haystack, &selected, replacements);
        }
        let matches = self.search.overlapping_find_iter(&prep)?;
        let candidates = self.whole_word_candidates_in(haystack, &prep, &matches);
        let selected = select_leftmost_longest_whole_word_matches(candidates);
        replace_matches(haystack, &selected, replacements)
    }
}

} // verus!

verus! {

impl AhoCorasick {
    /// The matches in a byte haystack, with byte offsets (clamped to `u32`).
    pub fn find_iter_buf(&self, haystack: &[u8]) -> (r: Vec<Match>)
        ensures
            r@ == matches_of(bytes_hits(self.engine(), haystack@)),
    {
        let prep = self.search.prepare_bytes(haystack);
        let matches = self.search.find_iter_bytes(&prep);
        let ghost ms = bytes_hits(self.engine(), haystack@);
        let mut out: Vec<Match> = Vec::new();
        let n = matches.len();
        let mut i: usize = 0;
        while i < n
            invariant
                n == matches@.len(),
                0 <= i <= n,
                prep.bytes_view() == search_bytes_of(haystack@, self.engine().folds()),
                forall|p: int| #[trigger] prep.orig_spec(p) == bytes_orig_pos(haystack@, self.engine().folds(), p),
                raw_triples(matches@) == main_search(self.engine().main_contents(), self.engine().kind(), prep.bytes_view()),
                ms == bytes_hits(self.engine(), haystack@),
                out@ == matches_of(ms.take(i as int)),
            decreases n - i,
        {
            let m = matches[i];
            let os = prep.orig_pos(m.start());
            let oe = prep.orig_pos(m.end());
            out.push(Match { pattern: m.pattern().as_u32(), start: u32_from_usize(os), end: u32_from_usize(oe) });
            proof {
                assert(raw_triples(matches@)[i as int] == m.triple());
                assert(ms[i as int] == (m.pattern, os, oe));
                assert(out@ =~= matches_of(ms.take(i + 1)));
            }
            i = i + 1;
        }
        proof {
            assert(ms.take(n as int) =~= ms);
        }
        out
    }

    /// The matches in a byte haystack, packed as triples with byte offsets.
    pub fn find_iter_packed_buf(&self, haystack: &[u8]) -> (r: Vec<u32>)
        ensures
            r@ == pack_plain(bytes_hits(self.engine(), haystack@)),
    {
        let prep = self.search.prepare_bytes(haystack);
        let matches = self.search.find_iter_bytes(&prep);
        let ghost ms = bytes_hits(self.engine(), haystack@);
        let mut packed: Vec<u32> = Vec::new();
        let n = matches.len();
        let mut i: usize = 0;
        while i < n
            invariant
                n == matches@.len(),
                0 <= i <= n,
                prep.bytes_view() == search_bytes_of(haystack@, self.engine().folds()),
                forall|p: int| #[trigger] prep.orig_spec(p) == bytes_orig_pos(haystack@, self.engine().folds(), p),
                raw_triples(matches@) == main_search(self.engine().main_contents(), self.engine().kind(), prep.bytes_view()),
                ms == bytes_hits(self.engine(), haystack@),
                packed@ == pack_plain(ms.take(i as int)),
            decreases n - i,
        {
            let m = matches[i];
            let os = prep.orig_pos(m.start());
            let oe = prep.orig_pos(m.end());
            push_plain(&mut packed, m.pattern().as_u32(), os, oe);
            proof {
                assert(raw_triples(matches@)[i as int] == m.triple());
                assert(ms[i as int] == (m.pattern, os, oe));
                assert(ms.take(i + 1).drop_last() =~= ms.take(i as int));
            }
            i = i + 1;
        }
        proof {
            assert(ms.take(n as int) =~= ms);
        }
        packed
    }

    /// Whether a byte haystack has a match.
    pub fn is_match_buf(&self, haystack: &[u8]) -> (r: bool)
        ensures
            r == (main_search(
                self.engine().main_contents(),
                self.engine().kind(),
                search_bytes_of(haystack@, self.engine().folds()),
            ).len() > 0),
    {
        let prep = self.search.prepare_bytes(haystack);
        self.search.is_match_bytes_prep(&prep)
    }

    /// The matches in one chunk of bytes, searched on its own.
    pub fn find_in_chunk(&self, chunk: &[u8]) -> (r: Vec<Match>)
        ensures
            r@ == matches_of(bytes_hits(self.engine(), chunk@)),
    {
        self.find_iter_buf(chunk)
    }
}

} // verus!

verus! {

impl AhoCorasick {
    /// Raw matches of a prepared haystack as candidates in original byte offsets.
    fn orig_candidates_in(&self, haystack: &str, prep: &PreparedSearch, matches: &Vec<RawMatch>) -> (r: Vec<ByteMatchCandidate>)
        requires
            prepared_for(self.engine(), haystack, *prep),
        ensures
            candidate_triples(r@) == orig_triples(haystack@, self.engine().folds(), raw_triples(matches@)),
    {
        let ghost ms = orig_triples(haystack@, self.engine().folds(), raw_triples(matches@));
        let mut out: Vec<ByteMatchCandidate> = Vec::new();
        let n = matches.len();
        let mut i: usize = 0;
        while i < n
            invariant
                n == matches@.len(),
                0 <= i <= n,
                prepared_for(self.engine(), haystack, *prep),
                ms == orig_triples(haystack@, self.engine().folds(), raw_triples(matches@)),
                candidate_triples(out@) == ms.take(i as int),
                out@.len() == i,
            decreases n - i,
        {
            let m = matches[i];
            let os = prep.orig_pos(m.start());
            let oe = prep.orig_pos(m.end());
            let ghost old_out = out@;
            out.push(ByteMatchCandidate { pattern: m.pattern().as_u32(), start: os, end: oe });
            proof {
                assert(ms[i as int] == (m.pattern, os, oe));
                assert forall|k: int| 0 <= k < i implies #[trigger] candidate_triples(out@)[k] == ms.take(i + 1)[k] by {
                    assert(out@[k] == old_out[k]);
                    assert(candidate_triples(old_out)[k] == ms.take(i as int)[k]);
                }
                assert(candidate_triples(out@) =~= ms.take(i + 1));
            }
            i = i + 1;
        }
        proof {
            assert(ms.take(n as int) =~= ms);
        }
        out
    }

    /// All overlapping matches (whole words only, with whole-word filtering),
    /// packed in UTF-16 offsets (byte offsets on ASCII text). An offset that is
    /// not reached at a character boundary while walking the text reads as 0.
    pub fn find_overlapping_iter_packed(&self, haystack: &str) -> (r: Result<Vec<u32>, Error>)
        ensures
            match self.engine().overlap_contents() {
                Ok(p) => r matches Ok(v) && v@ == overlapping_packed(haystack, if self.words() {
                    candidate_triples(whole_word_candidates(
                        haystack.spec_bytes(),
                        overlap_hits(self.engine(), p, haystack@),
                        self.boundary(),
                    ))
                } else {
                    overlap_hits(self.engine(), p, haystack@)
                }),
                Err(reason) => r matches Err(Error::BuildOverlappingAutomaton(s)) && s@ == reason,
            },
    {
        let prep = self.search.prepare(haystack);
        let matches = self.search.overlapping_find_iter(&prep)?;
        let raw = if self.whole_words {
            self.whole_word_candidates_in(haystack, &prep, &matches)
        } else {
            self.orig_candidates_in(haystack, &prep, &matches)
        };
        if haystack.is_ascii() {
            return Ok(pack_candidates_plain(&raw));
        }
        if raw.len() == 0 {
            proof {
                assert(candidate_triples(raw@).len() == 0);
            }
            return Ok(Vec::new());
        }
        let offsets = candidate_offsets(&raw);
        let unique = sorted_unique_offsets(&offsets);
        let values = utf16_offset_values(haystack, &unique);
        Ok(pack_with_lookup(&unique, &values, &raw))
    }
}

} // verus!

verus! {

/// The non-overlapping matches of a searcher built from non-empty patterns lie
/// in order on character boundaries of the haystack.
proof fn lemma_main_hits_in_order(ac: AhoCorasick, patterns: Seq<String>, options: Options, haystack: &str)
    requires
        searcher_built_from(ac, patterns, options),
        forall|k: int| 0 <= k < patterns.len() ==> (#[trigger] patterns[k])@.len() > 0,
        haystack.spec_bytes().len() <= usize::MAX,
    ensures
        in_order_on_boundaries(haystack.spec_bytes(), main_hits(ac.engine(), haystack@)),
{
    let e = ac.engine();
    let h = haystack@;
    let ci = options.case_insensitive;
    let hay = text_hay(e, h);
    encode_utf8_valid_utf8(h);
    lemma_pattern_texts_nonempty(patterns, ci);
    lemma_built_searches_sound(e, patterns, effective_kind(options), ci, hay);
    let ms = main_search(e.main_contents(), e.kind(), hay);
    lemma_occurrences_on_boundaries(pattern_values(patterns, ci)->Ok_0, search_chars(h, ci), ms);
    lemma_orig_triples_on_boundaries(h, ci, ms);
}

/// The overlapping matches of a searcher built from non-empty patterns lie on
/// character boundaries of the haystack, at character offsets.
proof fn lemma_overlap_hits_at_chars(
    ac: AhoCorasick,
    patterns: Seq<String>,
    options: Options,
    haystack: &str,
    p: Option<Seq<u8>>,
)
    requires
        searcher_built_from(ac, patterns, options),
        forall|k: int| 0 <= k < patterns.len() ==> (#[trigger] patterns[k])@.len() > 0,
        haystack.spec_bytes().len() <= usize::MAX,
        ac.engine().overlap_contents() == Ok::<Option<Seq<u8>>, Seq<char>>(p),
    ensures
        forall|k: int|
            #![trigger overlap_hits(ac.engine(), p, haystack@)[k]]
            0 <= k < overlap_hits(ac.engine(), p, haystack@).len() ==> {
                let m = overlap_hits(ac.engine(), p, haystack@)[k];
                &&& m.1 <= m.2 <= haystack.spec_bytes().len()
                &&& is_char_boundary(haystack.spec_bytes(), m.1 as int)
                &&& is_char_boundary(haystack.spec_bytes(), m.2 as int)
                &&& char_offset(haystack@, m.1 as int)
                &&& char_offset(haystack@, m.2 as int)
            },
{
    let e = ac.engine();
    let h = haystack@;
    let ci = options.case_insensitive;
    let hay = text_hay(e, h);
    lemma_pattern_texts_nonempty(patterns, ci);
    lemma_built_searches_sound(e, patterns, effective_kind(options), ci, hay);
    let os = overlap_search(p, hay);
    lemma_occurrences_on_boundaries(pattern_values(patterns, ci)->Ok_0, search_chars(h, ci), os);
    lemma_orig_triples_on_boundaries(h, ci, os);
}

/// The whole-word matches chosen by a searcher built from non-empty patterns
/// lie in order on character boundaries of the haystack, and each carries the index of one of the patterns.
#[verifier::spinoff_prover]
#[verifier::rlimit(40)]
proof fn lemma_chosen_in_order(
    ac: AhoCorasick,
    patterns: Seq<String>,
    options: Options,
    haystack: &str,
    p: Option<Seq<u8>>,
)
    requires
        searcher_built_from(ac, patterns, options),
        forall|k: int| 0 <= k < patterns.len() ==> (#[trigger] patterns[k])@.len() > 0,
        haystack.spec_bytes().len() <= usize::MAX,
        ac.engine().overlap_contents() == Ok::<Option<Seq<u8>>, Seq<char>>(p),
    ensures
        in_order_on_boundaries(
            haystack.spec_bytes(),
            candidate_triples(
                select_spec(
                    whole_word_candidates(haystack.spec_bytes(), overlap_hits(ac.engine(), p, haystack@), ac.boundary()),
                ),
            ),
        ),
        forall|k: int|
            #![trigger candidate_triples(
                select_spec(
                    whole_word_candidates(haystack.spec_bytes(), overlap_hits(ac.engine(), p, haystack@), ac.boundary()),
                ),
            )[k]]
            0 <= k < candidate_triples(
                select_spec(
                    whole_word_candidates(haystack.spec_bytes(), overlap_hits(ac.engine(), p, haystack@), ac.boundary()),
                ),
            ).len() ==> (candidate_triples(
                select_spec(
                    whole_word_candidates(haystack.spec_bytes(), overlap_hits(ac.engine(), p, haystack@), ac.boundary()),
                ),
            )[k].0 as int) < patterns.len(),
        !options.case_insensitive ==> forall|k: int|
            #![trigger candidate_triples(
                select_spec(
                    whole_word_candidates(haystack.spec_bytes(), overlap_hits(ac.engine(), p, haystack@), ac.boundary()),
                ),
            )[k]]
            0 <= k < candidate_triples(
                select_spec(
                    whole_word_candidates(haystack.spec_bytes(), overlap_hits(ac.engine(), p, haystack@), ac.boundary()),
                ),
            ).len() ==> {
                let m = candidate_triples(
                    select_spec(
                        whole_word_candidates(haystack.spec_bytes(), overlap_hits(ac.engine(), p, haystack@), ac.boundary()),
                    ),
                )[k];
                encode_utf8(patterns[m.0 as int]@) == haystack.spec_bytes().subrange(m.1 as int, m.2 as int)
            },
{
    let e = ac.engine();
    let h = haystack@;
    let b = haystack.spec_bytes();
    let ci = options.case_insensitive;
    let hay = text_hay(e, h);
    let os = overlap_search(p, hay);
    let oh = overlap_hits(e, p, h);
    lemma_overlap_hits_at_chars(ac, patterns, options, haystack, p);
    lemma_reported_index_names_pattern(e, patterns, effective_kind(options), ci, hay);
    let ww = whole_word_candidates(b, oh, ac.boundary());
    lemma_whole_word_candidates_from(b, oh, ac.boundary());
    let sel = select_spec(ww);
    crate::select::lemma_select_spec_properties(ww);
    let st = candidate_triples(sel);
    assert forall|k: int| 0 <= k < st.len() implies (#[trigger] st[k]).1 <= st[k].2 <= b.len()
        && is_char_boundary(b, st[k].1 as int) && is_char_boundary(b, st[k].2 as int) && (st[k].0 as int)
        < patterns.len() && (!ci ==> encode_utf8(patterns[st[k].0 as int]@) == b.subrange(st[k].1 as int, st[k].2 as int)) by {
        assert(ww.contains(sel[k]));
        let j = choose|j: int| 0 <= j < ww.len() && ww[j] == sel[k];
        let i = choose|i: int| 0 <= i < oh.len() && #[trigger] oh[i] == ww[j].triple();
        assert(oh[i] == orig_triples(h, ci, os)[i]);
        assert(names_pattern(patterns, ci, hay, os[i]));
        assert(st[k] == sel[k].triple());
        if !ci {
            assert(hay == b);
            assert(oh[i] == os[i]);
            assert(encode_utf8(patterns[st[k].0 as int]@) == b.subrange(st[k].1 as int, st[k].2 as int));
        }
    }
    assert forall|k: int| 0 <= k < st.len() - 1 implies (#[trigger] st[k]).2 <= st[k + 1].1 by {
        assert(st[k] == sel[k].triple());
        assert(st[k + 1] == sel[k + 1].triple());
    }
    encode_utf8_valid_utf8(h);
}

/// Replacing never fails once the replacement count is right: for a searcher
/// built from non-empty patterns (no more than `u32::MAX` of them), every
/// match lies on character boundaries of the haystack and has a replacement,
/// so `replace_all` gives a text.
pub proof fn lemma_replace_all_succeeds(
    ac: AhoCorasick,
    patterns: Seq<String>,
    options: Options,
    haystack: &str,
    replacements: Seq<String>,
)
    requires
        searcher_built_from(ac, patterns, options),
        forall|k: int| 0 <= k < patterns.len() ==> (#[trigger] patterns[k])@.len() > 0,
        patterns.len() <= u32::MAX,
        haystack.spec_bytes().len() <= usize::MAX,
        replacements.len() == ac.count(),
    ensures
        !ac.words() ==> replaced(haystack, main_hits(ac.engine(), haystack@), replacements) is Ok,
        ac.words() ==> (ac.engine().overlap_contents() matches Ok(p) ==> replaced(
            haystack,
            candidate_triples(
                select_spec(
                    whole_word_candidates(haystack.spec_bytes(), overlap_hits(ac.engine(), p, haystack@), ac.boundary()),
                ),
            ),
            replacements,
        ) is Ok),
{
    let e = ac.engine();
    let h = haystack@;
    let ci = options.case_insensitive;
    let hay = text_hay(e, h);
    lemma_main_hits_in_order(ac, patterns, options, haystack);
    lemma_reported_index_names_pattern(e, patterns, effective_kind(options), ci, hay);
    let ms = main_search(e.main_contents(), e.kind(), hay);
    let mh = main_hits(e, h);
    assert forall|k: int| 0 <= k < mh.len() implies ((#[trigger] mh[k]).0 as int) < replacements.len() by {
        assert(mh[k].0 == ms[k].0);
        assert(names_pattern(patterns, ci, hay, ms[k]));
    }
    crate::results::lemma_replaced_ok(haystack, mh, replacements);
    if e.overlap_contents() is Ok {
        let p = e.overlap_contents()->Ok_0;
        lemma_chosen_in_order(ac, patterns, options, haystack, p);
        crate::results::lemma_replaced_ok(
            haystack,
            candidate_triples(select_spec(whole_word_candidates(haystack.spec_bytes(), overlap_hits(e, p, h), ac.boundary()))),
            replacements,
        );
    }
}

/// Text searches report exact UTF-16 offsets: for a searcher built from
/// non-empty patterns, on a haystack whose UTF-16 length fits `u32`, each offset that the non-overlapping,
/// whole-word and overlapping text searches report is the number of UTF-16
/// code units of the haystack before it.
pub proof fn lemma_text_offsets_exact(ac: AhoCorasick, patterns: Seq<String>, options: Options, haystack: &str)
    requires
        searcher_built_from(ac, patterns, options),
        forall|k: int| 0 <= k < patterns.len() ==> (#[trigger] patterns[k])@.len() > 0,
        haystack.spec_bytes().len() <= usize::MAX,
        utf16_len(haystack@) <= u32::MAX,
    ensures
        pack_for_text(haystack, main_hits(ac.engine(), haystack@)) == pack_utf16_exact(
            haystack.spec_bytes(),
            main_hits(ac.engine(), haystack@),
        ),
        ac.engine().overlap_contents() matches Ok(p) ==> {
            let ww = whole_word_candidates(haystack.spec_bytes(), overlap_hits(ac.engine(), p, haystack@), ac.boundary());
            &&& pack_for_text(haystack, candidate_triples(select_spec(ww))) == pack_utf16_exact(
                haystack.spec_bytes(),
                candidate_triples(select_spec(ww)),
            )
            &&& overlapping_packed(haystack, overlap_hits(ac.engine(), p, haystack@)) == pack_utf16_exact(
                haystack.spec_bytes(),
                overlap_hits(ac.engine(), p, haystack@),
            )
            &&& overlapping_packed(haystack, candidate_triples(ww)) == pack_utf16_exact(
                haystack.spec_bytes(),
                candidate_triples(ww),
            )
        },
{
    let e = ac.engine();
    let h = haystack@;
    let b = haystack.spec_bytes();
    lemma_main_hits_in_order(ac, patterns, options, haystack);
    lemma_pack_for_text_exact(haystack, main_hits(e, h));
    if e.overlap_contents() is Ok {
        let p = e.overlap_contents()->Ok_0;
        let oh = overlap_hits(e, p, h);
        lemma_overlap_hits_at_chars(ac, patterns, options, haystack, p);
        crate::offsets::lemma_overlapping_packed_exact(haystack, oh);
        let ww = whole_word_candidates(b, oh, ac.boundary());
        lemma_whole_word_candidates_from(b, oh, ac.boundary());
        let wt = candidate_triples(ww);
        assert forall|k: int| #![trigger wt[k]] 0 <= k < wt.len() implies char_offset(h, wt[k].1 as int)
            && char_offset(h, wt[k].2 as int) && wt[k].1 <= wt[k].2 <= b.len() && is_char_boundary(
            b,
            wt[k].1 as int,
        ) && is_char_boundary(b, wt[k].2 as int) by {
            assert(wt[k] == ww[k].triple());
            let i = choose|i: int| 0 <= i < oh.len() && #[trigger] oh[i] == ww[k].triple();
            assert(oh[i] == wt[k]);
        }
        crate::offsets::lemma_overlapping_packed_exact(haystack, wt);
        lemma_chosen_in_order(ac, patterns, options, haystack, p);
        let st = candidate_triples(select_spec(ww));
        lemma_pack_for_text_exact(haystack, st);
    }
}

} // verus!

verus! {

/// `is_match` answers whether the text search finds anything: a haystack has
/// a match (a whole-word match, with whole-word filtering) exactly when
/// `find_iter_packed` reports at least one.
pub proof fn lemma_is_match_agrees_with_find(ac: AhoCorasick, haystack: &str)
    ensures
        !ac.words() ==> (main_search(
            ac.engine().main_contents(),
            ac.engine().kind(),
            text_hay(ac.engine(), haystack@),
        ).len() > 0 <==> pack_for_text(haystack, main_hits(ac.engine(), haystack@)).len() > 0),
        ac.words() ==> (ac.engine().overlap_contents() matches Ok(p) ==> (whole_word_candidates(
            haystack.spec_bytes(),
            overlap_hits(ac.engine(), p, haystack@),
            ac.boundary(),
        ).len() > 0 <==> pack_for_text(
            haystack,
            candidate_triples(
                select_spec(
                    whole_word_candidates(haystack.spec_bytes(), overlap_hits(ac.engine(), p, haystack@), ac.boundary()),
                ),
            ),
        ).len() > 0)),
{
    let e = ac.engine();
    let b = haystack.spec_bytes();
    crate::pack::lemma_pack_lengths(b, main_hits(e, haystack@));
    if e.overlap_contents() is Ok {
        let p = e.overlap_contents()->Ok_0;
        let ww = whole_word_candidates(b, overlap_hits(e, p, haystack@), ac.boundary());
        crate::select::lemma_select_spec_properties(ww);
        crate::pack::lemma_pack_lengths(b, candidate_triples(select_spec(ww)));
    }
}

} // verus!

verus! {

/// Preparing a restored searcher gives back the bytes it was restored from,
/// when those bytes record the images of automata: the other direction of the
/// prepared round trip.
pub proof fn lemma_restored_prepares_same_bytes(bytes: Seq<u8>, restored: AhoCorasick)
    requires
        restored.engine().valid(),
        restored_from(bytes, restored),
        parse_prepared(bytes) matches Ok(layout) && image_acceptable(layout.main, layout.kind) && (
        layout.kind != 0 ==> image_acceptable(layout.overlap, 0)),
    ensures
        prepared_image_of(restored, bytes),
{
    let layout = parse_prepared(bytes)->Ok_0;
    let e = restored.engine();
    e.lemma_standard_overlap();
    crate::prepared::lemma_parse_encode(bytes);
    lemma_flag_bits(layout.flags);
    if layout.main.len() == 0 {
        assert(e.main_image() =~= layout.main);
    } else {
        let b = choose|b: DoubleArrayAhoCorasick<u32>|
            #![trigger automaton_image(b)]
            automaton_image(b) == layout.main && automaton_kind(b) <= 2 && (automaton_kind(b) == 0 <==> layout.kind == 0);
        assert(automaton_image(b) == layout.main);
    }
    if layout.kind != 0 {
        if layout.overlap.len() == 0 {
        } else {
            let b = choose|b: DoubleArrayAhoCorasick<u32>|
                #![trigger automaton_image(b)]
                automaton_image(b) == layout.overlap && automaton_kind(b) <= 2 && (automaton_kind(b) == 0 <==> 0u8 == 0);
            assert(automaton_image(b) == layout.overlap);
        }
        let ov = e.overlap_image()->Ok_0;
        assert(image_or_empty(ov) =~= layout.overlap);
    }
    assert(flags_byte(e.folds(), restored.words(), restored.boundary()) == layout.flags);
}

} // verus!

verus! {

/// What preparing writes is loaded again: the prepared form of a searcher
/// built from patterns parses, records only images the builder made (so
/// `from_prepared` may be given it), and records images of automata of the
/// recorded kinds (so `from_prepared` restores a searcher from it).
pub proof fn lemma_prepared_bytes_load(patterns: Seq<String>, options: Options, bytes: Seq<u8>)
    requires
        exists|ac: AhoCorasick|
            searcher_built_from(ac, patterns, options) && ac.engine().valid() && preparable(ac)
                && #[trigger] prepared_image_of(ac, bytes),
    ensures
        parse_prepared(bytes) matches Ok(layout) && prepared_images_built(layout) && image_acceptable(
            layout.main,
            layout.kind,
        ) && (layout.kind != 0 ==> image_acceptable(layout.overlap, 0)),
{
    let ac = choose|ac: AhoCorasick|
        searcher_built_from(ac, patterns, options) && ac.engine().valid() && preparable(ac)
            && #[trigger] prepared_image_of(ac, bytes);
    let e = ac.engine();
    e.lemma_standard_overlap();
    lemma_prepared_form_accepted(ac, bytes);
    let ov = e.overlap_image()->Ok_0;
    let kb = kind_byte(e.kind());
    let fb = flags_byte(e.folds(), ac.words(), ac.boundary());
    crate::prepared::lemma_prepared_roundtrip(ac.count(), kb, fb, e.main_image(), image_or_empty(ov));
}

/// The prepared round trip: the searcher that `from_prepared` restores from
/// what `prepare` wrote for some patterns and options is the searcher that
/// `new` builds from the same patterns and options (same count, options, kind,
/// folding and automaton contents, so the same results on every haystack),
/// and preparing it again writes the same bytes.
pub proof fn lemma_prepare_load_roundtrip(
    patterns: Seq<String>,
    options: Options,
    bytes: Seq<u8>,
    built: AhoCorasick,
    restored: AhoCorasick,
)
    requires
        exists|ac: AhoCorasick|
            searcher_built_from(ac, patterns, options) && ac.engine().valid() && preparable(ac)
                && #[trigger] prepared_image_of(ac, bytes),
        searcher_built_from(built, patterns, options),
        built.engine().valid(),
        restored_from(bytes, restored),
        restored.engine().valid(),
    ensures
        same_searcher(restored, built),
        prepared_image_of(restored, bytes),
{
    let ac = choose|ac: AhoCorasick|
        searcher_built_from(ac, patterns, options) && ac.engine().valid() && preparable(ac)
            && #[trigger] prepared_image_of(ac, bytes);
    lemma_prepared_bytes_load(patterns, options, bytes);
    lemma_prepared_restores(ac, bytes, restored);
    lemma_restored_prepares_same_bytes(bytes, restored);
    ac.engine().lemma_standard_overlap();
    built.engine().lemma_standard_overlap();
    assert(same_searcher(ac, built));
}

} // verus!

verus! {

/// Whole-word filtering keeps exactly the whole-word overlapping matches: a
/// searcher with whole-word filtering reports, in overlapping search, the
/// whole-word matches among those that a searcher built from the same patterns
/// and options without it reports (when that one has an overlapping automaton).
pub proof fn lemma_whole_words_filter_overlapping(
    plain: AhoCorasick,
    words: AhoCorasick,
    patterns: Seq<String>,
    options: Options,
    haystack: &str,
)
    requires
        !options.whole_words,
        searcher_built_from(plain, patterns, options),
        searcher_built_from(words, patterns, Options { whole_words: true, ..options }),
    ensures
        plain.engine().overlap_contents() matches Ok(p) ==> {
            &&& words.engine().overlap_contents() == Ok::<Option<Seq<u8>>, Seq<char>>(p)
            &&& candidate_triples(
                whole_word_candidates(haystack.spec_bytes(), overlap_hits(words.engine(), p, haystack@), words.boundary()),
            ) == candidate_triples(
                whole_word_candidates(haystack.spec_bytes(), overlap_hits(plain.engine(), p, haystack@), plain.boundary()),
            )
        },
        !plain.words(),
        words.words(),
{
}

} // verus!

verus! {

/// `is_match` answers whether a pattern occurs: without whole-word filtering,
/// the search of a searcher built from patterns finds a match in a haystack
/// exactly when the text of some pattern (folded, when matching ignores case)
/// occurs in the haystack as it is searched (folded likewise, and its length
/// fitting `usize`).
pub proof fn lemma_is_match_when_a_pattern_occurs(
    ac: AhoCorasick,
    patterns: Seq<String>,
    options: Options,
    haystack: &str,
)
    requires
        searcher_built_from(ac, patterns, options),
        !options.whole_words,
        text_hay(ac.engine(), haystack@).len() <= usize::MAX,
    ensures
        main_search(ac.engine().main_contents(), ac.engine().kind(), text_hay(ac.engine(), haystack@)).len() > 0
            <==> exists|k: int, s: int, t: int|
            #![trigger text_hay(ac.engine(), haystack@).subrange(s, t), patterns[k]]
            0 <= k < patterns.len() && 0 <= s <= t <= text_hay(ac.engine(), haystack@).len() && text_hay(
                ac.engine(),
                haystack@,
            ).subrange(s, t) == encode_utf8(effective_text(patterns[k]@, options.case_insensitive)),
{
    let e = ac.engine();
    let ci = options.case_insensitive;
    let hay = text_hay(e, haystack@);
    let kind = effective_kind(options);
    let ps = patterns.map_values(|p: String| effective_text(p@, ci));
    let tv = pattern_values(patterns, ci)->Ok_0;
    let tvb = text_value_bytes(tv);
    lemma_first_occurrences_texts(ps);
    lemma_first_occurrences_indices(ps);
    lemma_built_searches_sound(e, patterns, kind, ci, hay);
    let ms = main_search(e.main_contents(), e.kind(), hay);
    if ms.len() > 0 {
        let m = ms[0];
        assert(is_occurrence(tvb, hay, m));
        let q = choose|q: int|
            0 <= q < tvb.len() && #[trigger] tvb[q].1 == m.0 && tvb[q].0 == hay.subrange(m.1 as int, m.2 as int);
        assert(tvb[q] == (encode_utf8(tv[q].0), tv[q].1));
        let v = tv[q].1 as int;
        assert(ps[v] == tv[q].0);
        assert(hay.subrange(m.1 as int, m.2 as int) == encode_utf8(effective_text(patterns[v]@, ci)));
    }
    if exists|k: int, s: int, t: int|
        #![trigger hay.subrange(s, t), patterns[k]]
        0 <= k < patterns.len() && 0 <= s <= t <= hay.len() && hay.subrange(s, t) == encode_utf8(
            effective_text(patterns[k]@, ci),
        ) {
        let (k, s, t) = choose|k: int, s: int, t: int|
            #![trigger hay.subrange(s, t), patterns[k]]
            0 <= k < patterns.len() && 0 <= s <= t <= hay.len() && hay.subrange(s, t) == encode_utf8(
                effective_text(patterns[k]@, ci),
            );
        assert(ps[k] == effective_text(patterns[k]@, ci));
        assert(ps.contains(ps[k]));
        let q = choose|q: int| 0 <= q < tv.len() && #[trigger] tv[q].0 == ps[k];
        assert(tvb[q] == (encode_utf8(tv[q].0), tv[q].1));
        let occ: (u32, usize, usize) = (tv[q].1, s as usize, t as usize);
        assert(tvb[q].0 == hay.subrange(occ.1 as int, occ.2 as int));
        assert(occ.1 <= occ.2 <= hay.len());
        assert(tvb[q].1 == occ.0);
        assert(is_occurrence(tvb, hay, occ));
        let kb = kind_byte(kind);
        assert(searches_sound(tvb, kb));
        assert(leftmost_matches(built_image(tvb, kb), hay).len() > 0);
    }
}

} // verus!

verus! {

/// Overlapping search reports every occurrence: for a searcher built from
/// patterns that has an overlapping automaton, each place where the text of a
/// pattern (folded, when matching ignores case) occurs in the haystack as it
/// is searched is reported, with the index of the first pattern with that text.
pub proof fn lemma_overlapping_reports_every_occurrence(
    ac: AhoCorasick,
    patterns: Seq<String>,
    options: Options,
    haystack: &str,
    k: int,
    s: int,
    t: int,
)
    requires
        searcher_built_from(ac, patterns, options),
        ac.engine().overlap_contents() is Ok,
        text_hay(ac.engine(), haystack@).len() <= usize::MAX,
        0 <= k < patterns.len(),
        0 <= s <= t <= text_hay(ac.engine(), haystack@).len(),
        text_hay(ac.engine(), haystack@).subrange(s, t) == encode_utf8(
            effective_text(patterns[k]@, options.case_insensitive),
        ),
    ensures
        exists|v: int|
            0 <= v <= k && effective_text(#[trigger] patterns[v]@, options.case_insensitive) == effective_text(
                patterns[k]@,
                options.case_insensitive,
            ) && overlap_search(ac.engine().overlap_contents()->Ok_0, text_hay(ac.engine(), haystack@)).contains(
                (v as u32, s as usize, t as usize),
            ) && forall|i: int|
                0 <= i < v ==> effective_text(#[trigger] patterns[i]@, options.case_insensitive) != effective_text(
                    patterns[k]@,
                    options.case_insensitive,
                ),
{
    let e = ac.engine();
    let ci = options.case_insensitive;
    let hay = text_hay(e, haystack@);
    let kind = effective_kind(options);
    let ps = patterns.map_values(|p: String| effective_text(p@, ci));
    let tv = pattern_values(patterns, ci)->Ok_0;
    let tvb = text_value_bytes(tv);
    lemma_first_occurrences_texts(ps);
    lemma_first_occurrences_indices(ps);
    assert(ps[k] == effective_text(patterns[k]@, ci));
    assert(ps.contains(ps[k]));
    let q = choose|q: int| 0 <= q < tv.len() && #[trigger] tv[q].0 == ps[k];
    assert(tvb[q] == (encode_utf8(tv[q].0), tv[q].1));
    let v = tv[q].1 as int;
    assert(ps[v] == tv[q].0);
    assert(v <= k) by {
        if v > k {
            assert(ps[k] != tv[q].0);
        }
    }
    let occ: (u32, usize, usize) = (tv[q].1, s as usize, t as usize);
    assert(tvb[q].0 == hay.subrange(occ.1 as int, occ.2 as int));
    assert(occ.1 <= occ.2 <= hay.len());
    assert(tvb[q].1 == occ.0);
    assert(is_occurrence(tvb, hay, occ));
    assert(searches_sound(tvb, 0));
    assert(e.overlap_contents() == Ok::<Option<Seq<u8>>, Seq<char>>(Some(built_image(tvb, 0))));
    assert(overlapping_matches(built_image(tvb, 0), hay).contains(occ));
    assert forall|i: int| 0 <= i < v implies effective_text(#[trigger] patterns[i]@, ci) != effective_text(
        patterns[k]@,
        ci,
    ) by {
        assert(ps[i] != tv[q].0);
        assert(ps[i] == effective_text(patterns[i]@, ci));
    }
}

} // verus!

verus! {

/// Searching the bytes of a text finds what searching the text finds: for
/// UTF-8 bytes the byte search folds and maps offsets back as the text search
/// does, so `find_iter_buf` and `find_iter_packed_buf` on a text's bytes report
/// the matches that `find_iter_packed_bytes` reports on the text (without
/// whole-word filtering).
pub proof fn lemma_byte_search_of_text(ac: AhoCorasick, haystack: &str)
    ensures
        bytes_hits(ac.engine(), haystack.spec_bytes()) == main_hits(ac.engine(), haystack@),
{
    let e = ac.engine();
    let h = haystack@;
    let b = haystack.spec_bytes();
    encode_utf8_valid_utf8(h);
    encode_utf8_decode_utf8(h);
    assert(b == encode_utf8(h));
    assert(decode_utf8(b) == h);
    assert(search_bytes_of(b, e.folds()) == text_hay(e, h));
    assert(bytes_hits(e, b) =~= main_hits(e, h));
}

/// Packed triples are the match records laid out flat: three numbers per
/// match, its pattern, start and end.
pub proof fn lemma_packed_are_match_records(ms: Seq<Triple>)
    ensures
        pack_plain(ms).len() == 3 * ms.len(),
        forall|i: int|
            #![trigger matches_of(ms)[i]]
            0 <= i < ms.len() ==> pack_plain(ms)[3 * i] == matches_of(ms)[i].pattern && pack_plain(ms)[3 * i + 1]
                == matches_of(ms)[i].start && pack_plain(ms)[3 * i + 2] == matches_of(ms)[i].end,
    decreases ms.len(),
{
    if ms.len() > 0 {
        let prev = ms.drop_last();
        lemma_packed_are_match_records(prev);
        assert forall|i: int|
            #![trigger matches_of(ms)[i]]
            0 <= i < ms.len() implies pack_plain(ms)[3 * i] == matches_of(ms)[i].pattern && pack_plain(ms)[3 * i
                + 1] == matches_of(ms)[i].start && pack_plain(ms)[3 * i + 2] == matches_of(ms)[i].end by {
            if i < prev.len() {
                assert(matches_of(prev)[i] == matches_of(ms)[i]);
            }
        }
    }
}

} // verus!

verus! {

/// Replacing each pattern by itself leaves the text as it was: for a
/// case-keeping searcher built from non-empty patterns (no more than
/// `u32::MAX` of them), `replace_all` with the patterns as replacements gives
/// back the haystack, with or without whole-word filtering.
pub proof fn lemma_replace_with_patterns_keeps_text(
    ac: AhoCorasick,
    patterns: Seq<String>,
    options: Options,
    haystack: &str,
)
    requires
        searcher_built_from(ac, patterns, options),
        !options.case_insensitive,
        forall|k: int| 0 <= k < patterns.len() ==> (#[trigger] patterns[k])@.len() > 0,
        patterns.len() <= u32::MAX,
        haystack.spec_bytes().len() <= usize::MAX,
    ensures
        patterns.len() == ac.count(),
        !ac.words() ==> replaced(haystack, main_hits(ac.engine(), haystack@), patterns) == Ok::<
            Seq<char>,
            Error,
        >(haystack@),
        ac.words() ==> (ac.engine().overlap_contents() matches Ok(p) ==> replaced(
            haystack,
            candidate_triples(
                select_spec(
                    whole_word_candidates(haystack.spec_bytes(), overlap_hits(ac.engine(), p, haystack@), ac.boundary()),
                ),
            ),
            patterns,
        ) == Ok::<Seq<char>, Error>(haystack@)),
{
    let e = ac.engine();
    let h = haystack@;
    let b = haystack.spec_bytes();
    let hay = text_hay(e, h);
    assert(hay == b);
    lemma_main_hits_in_order(ac, patterns, options, haystack);
    lemma_reported_index_names_pattern(e, patterns, effective_kind(options), false, hay);
    let ms = main_search(e.main_contents(), e.kind(), hay);
    let mh = main_hits(e, h);
    assert forall|k: int| 0 <= k < mh.len() implies ((#[trigger] mh[k]).0 as int) < patterns.len() && encode_utf8(
        patterns[mh[k].0 as int]@,
    ) == b.subrange(mh[k].1 as int, mh[k].2 as int) by {
        assert(mh[k] == ms[k]);
        assert(names_pattern(patterns, false, hay, ms[k]));
    }
    crate::results::lemma_replaced_by_own_text(haystack, mh, patterns);
    if e.overlap_contents() is Ok {
        let p = e.overlap_contents()->Ok_0;
        lemma_chosen_in_order(ac, patterns, options, haystack, p);
        crate::results::lemma_replaced_by_own_text(
            haystack,
            candidate_triples(select_spec(whole_word_candidates(b, overlap_hits(e, p, h), ac.boundary()))),
            patterns,
        );
    }
}

} // verus!

verus! {

/// A searcher finds each of its patterns in the pattern's own text: without
/// whole-word filtering, searching a haystack that is exactly the text of one
/// of the patterns finds a match, whether or not matching ignores case (a
/// pattern is searched for as the haystack is searched, folded alike).
pub proof fn lemma_pattern_text_is_found(
    ac: AhoCorasick,
    patterns: Seq<String>,
    options: Options,
    haystack: &str,
    k: int,
)
    requires
        searcher_built_from(ac, patterns, options),
        !options.whole_words,
        text_hay(ac.engine(), haystack@).len() <= usize::MAX,
        0 <= k < patterns.len(),
        haystack@ == patterns[k]@,
    ensures
        main_search(ac.engine().main_contents(), ac.engine().kind(), text_hay(ac.engine(), haystack@)).len() > 0,
{
    let hay = text_hay(ac.engine(), haystack@);
    assert(hay.subrange(0, hay.len() as int) =~= hay);
    assert(hay.subrange(0, hay.len() as int) == encode_utf8(
        effective_text(patterns[k]@, options.case_insensitive),
    ));
    lemma_is_match_when_a_pattern_occurs(ac, patterns, options, haystack);
}

/// Matching that ignores case finds a pattern where the haystack holds it with
/// some characters in another case: without whole-word filtering, a haystack of
/// the pattern's length in which each character is the pattern's, or the ASCII
/// capital of a small ASCII letter of it, or a non-ASCII character (other than
/// `İ`) whose Unicode simple case folding is a non-ASCII character of the
/// pattern that folds to itself, has a match.
pub proof fn lemma_case_insensitive_finds_case_variants(
    ac: AhoCorasick,
    patterns: Seq<String>,
    options: Options,
    haystack: &str,
    k: int,
)
    requires
        searcher_built_from(ac, patterns, options),
        options.case_insensitive,
        !options.whole_words,
        text_hay(ac.engine(), haystack@).len() <= usize::MAX,
        0 <= k < patterns.len(),
        haystack@.len() == patterns[k]@.len(),
        forall|i: int|
            #![trigger haystack@[i]]
            0 <= i < haystack@.len() ==> {
                let h = haystack@[i];
                let p = patterns[k]@[i];
                ||| h == p
                ||| ('a' <= p <= 'z' && h as u32 + 32 == p as u32)
                ||| (h as u32 >= 0x80 && h as u32 != 0x130 && unicode_simple_fold(h) == Some(p as u32)
                    && p as u32 >= 0x80 && p as u32 != 0x130 && unicode_simple_fold(p) is None)
            },
    ensures
        main_search(ac.engine().main_contents(), ac.engine().kind(), text_hay(ac.engine(), haystack@)).len() > 0,
{
    let h = haystack@;
    let p = patterns[k]@;
    assert forall|i: int| 0 <= i < h.len() implies crate::folding::fold_char(#[trigger] h[i])
        == crate::folding::fold_char(p[i]) by {
        crate::folding::lemma_fold_char_is_simple_case_folding(h[i]);
        crate::folding::lemma_fold_char_is_simple_case_folding(p[i]);
        char_is_scalar(p[i]);
        if h[i] != p[i] && 'a' <= p[i] <= 'z' && h[i] as u32 + 32 == p[i] as u32 {
            assert('A' <= h[i] <= 'Z');
        }
    }
    assert(crate::folding::fold_text(h) =~= crate::folding::fold_text(p));
    let hay = text_hay(ac.engine(), h);
    assert(hay.subrange(0, hay.len() as int) =~= hay);
    lemma_is_match_when_a_pattern_occurs(ac, patterns, options, haystack);
}

} // verus!

verus! {

/// Whole-word overlapping search reports exactly the overlapping matches that
/// are whole words: each reported match is an overlapping match and a whole
/// word, and every overlapping match that is a whole word is reported, however
/// it shares its start or end with others.
pub proof fn lemma_whole_word_overlapping_is_complete(ac: AhoCorasick, haystack: &str, p: Option<Seq<u8>>)
    ensures
        forall|i: int|
            #![trigger overlap_hits(ac.engine(), p, haystack@)[i]]
            0 <= i < overlap_hits(ac.engine(), p, haystack@).len() && whole_word(
                haystack.spec_bytes(),
                overlap_hits(ac.engine(), p, haystack@)[i].1 as int,
                overlap_hits(ac.engine(), p, haystack@)[i].2 as int,
                ac.boundary(),
            ) ==> candidate_triples(
                whole_word_candidates(haystack.spec_bytes(), overlap_hits(ac.engine(), p, haystack@), ac.boundary()),
            ).contains(overlap_hits(ac.engine(), p, haystack@)[i]),
        forall|j: int|
            #![trigger candidate_triples(
                whole_word_candidates(haystack.spec_bytes(), overlap_hits(ac.engine(), p, haystack@), ac.boundary()),
            )[j]]
            0 <= j < candidate_triples(
                whole_word_candidates(haystack.spec_bytes(), overlap_hits(ac.engine(), p, haystack@), ac.boundary()),
            ).len() ==> {
                let m = candidate_triples(
                    whole_word_candidates(haystack.spec_bytes(), overlap_hits(ac.engine(), p, haystack@), ac.boundary()),
                )[j];
                overlap_hits(ac.engine(), p, haystack@).contains(m) && whole_word(
                    haystack.spec_bytes(),
                    m.1 as int,
                    m.2 as int,
                    ac.boundary(),
                )
            },
{
    let b = haystack.spec_bytes();
    let oh = overlap_hits(ac.engine(), p, haystack@);
    let ww = whole_word_candidates(b, oh, ac.boundary());
    let ct = candidate_triples(ww);
    crate::results::lemma_whole_word_candidates_complete(b, oh, ac.boundary());
    lemma_whole_word_candidates_from(b, oh, ac.boundary());
    assert forall|i: int|
        #![trigger oh[i]]
        0 <= i < oh.len() && whole_word(b, oh[i].1 as int, oh[i].2 as int, ac.boundary()) implies ct.contains(oh[i]) by {
        let j = choose|j: int| 0 <= j < ww.len() && #[trigger] ww[j].triple() == oh[i];
        assert(ct[j] == oh[i]);
    }
    assert forall|j: int| #![trigger ct[j]] 0 <= j < ct.len() implies oh.contains(ct[j]) && whole_word(
        b,
        ct[j].1 as int,
        ct[j].2 as int,
        ac.boundary(),
    ) by {
        assert(ct[j] == ww[j].triple());
        let i = choose|i: int| 0 <= i < oh.len() && #[trigger] oh[i] == ww[j].triple();
        assert(oh[i] == ct[j]);
    }
}

/// With Unicode boundaries, no match that whole-word search reports (the chosen
/// ones and the overlapping ones) is followed by a letter or digit outside the
/// CJK blocks unless it ends with a character of those blocks, nor preceded by
/// one unless it starts with one.
pub proof fn lemma_whole_word_matches_bounded_by_non_letters(ac: AhoCorasick, haystack: &str, p: Option<Seq<u8>>)
    requires
        ac.boundary() == BoundaryMode::Unicode,
    ensures
        forall|m: Triple|
            #![trigger candidate_triples(
                whole_word_candidates(haystack.spec_bytes(), overlap_hits(ac.engine(), p, haystack@), ac.boundary()),
            ).contains(m)]
            #![trigger candidate_triples(
                select_spec(
                    whole_word_candidates(haystack.spec_bytes(), overlap_hits(ac.engine(), p, haystack@), ac.boundary()),
                ),
            ).contains(m)]
            (candidate_triples(
                whole_word_candidates(haystack.spec_bytes(), overlap_hits(ac.engine(), p, haystack@), ac.boundary()),
            ).contains(m) || candidate_triples(
                select_spec(
                    whole_word_candidates(haystack.spec_bytes(), overlap_hits(ac.engine(), p, haystack@), ac.boundary()),
                ),
            ).contains(m)) ==> {
                &&& (crate::text::char_at_byte(haystack.spec_bytes(), m.2 as int) matches Some(c)
                    && crate::boundary::unicode_alphanumeric(c) && !({
                    let u = c as u32;
                    0x3040 <= u <= 0x309F || 0x30A0 <= u <= 0x30FF || 0x3400 <= u <= 0x4DBF || 0x4E00 <= u
                        <= 0x9FFF || 0xAC00 <= u <= 0xD7AF || 0xF900 <= u <= 0xFAFF || 0x20000 <= u <= 0x2FA1F
                        || 0x30000 <= u <= 0x323AF
                })) ==> (crate::text::char_before_byte(haystack.spec_bytes(), m.2 as int) matches Some(d) && {
                    let u = d as u32;
                    0x3040 <= u <= 0x309F || 0x30A0 <= u <= 0x30FF || 0x3400 <= u <= 0x4DBF || 0x4E00 <= u
                        <= 0x9FFF || 0xAC00 <= u <= 0xD7AF || 0xF900 <= u <= 0xFAFF || 0x20000 <= u <= 0x2FA1F
                        || 0x30000 <= u <= 0x323AF
                })
                &&& (crate::text::char_before_byte(haystack.spec_bytes(), m.1 as int) matches Some(c)
                    && crate::boundary::unicode_alphanumeric(c) && !({
                    let u = c as u32;
                    0x3040 <= u <= 0x309F || 0x30A0 <= u <= 0x30FF || 0x3400 <= u <= 0x4DBF || 0x4E00 <= u
                        <= 0x9FFF || 0xAC00 <= u <= 0xD7AF || 0xF900 <= u <= 0xFAFF || 0x20000 <= u <= 0x2FA1F
                        || 0x30000 <= u <= 0x323AF
                })) ==> (crate::text::char_at_byte(haystack.spec_bytes(), m.1 as int) matches Some(d) && {
                    let u = d as u32;
                    0x3040 <= u <= 0x309F || 0x30A0 <= u <= 0x30FF || 0x3400 <= u <= 0x4DBF || 0x4E00 <= u
                        <= 0x9FFF || 0xAC00 <= u <= 0xD7AF || 0xF900 <= u <= 0xFAFF || 0x20000 <= u <= 0x2FA1F
                        || 0x30000 <= u <= 0x323AF
                })
            },
{
    let b = haystack.spec_bytes();
    let oh = overlap_hits(ac.engine(), p, haystack@);
    let ww = whole_word_candidates(b, oh, ac.boundary());
    let ct = candidate_triples(ww);
    let sel = select_spec(ww);
    let st = candidate_triples(sel);
    lemma_whole_word_candidates_from(b, oh, ac.boundary());
    crate::select::lemma_select_spec_properties(ww);
    assert forall|m: Triple| ct.contains(m) || st.contains(m) implies whole_word(
        b,
        m.1 as int,
        m.2 as int,
        BoundaryMode::Unicode,
    ) by {
        if ct.contains(m) {
            let j = choose|j: int| 0 <= j < ct.len() && ct[j] == m;
            assert(ct[j] == ww[j].triple());
        } else {
            let j = choose|j: int| 0 <= j < st.len() && st[j] == m;
            assert(st[j] == sel[j].triple());
            assert(ww.contains(sel[j]));
            let i = choose|i: int| 0 <= i < ww.len() && ww[i] == sel[j];
        }
    }
}

} // verus!
