//! Search options and the match record handed to callers.
use vstd::prelude::*;

verus! {

/// How overlapping candidate matches are resolved by the non-overlapping searches.
#[derive(Clone, Copy, Debug, PartialEq, Eq, Structural)]
pub enum MatchKind {
    LeftmostFirst,
    LeftmostLongest,
}

/// Options for building a searcher.
#[derive(Clone, Copy, Debug, PartialEq, Eq, Structural)]
pub struct Options {
    pub match_kind: MatchKind,
    pub case_insensitive: bool,
    pub dfa: bool,
    pub whole_words: bool,
    pub unicode_boundaries: bool,
}

impl Default for Options {
    fn default() -> (r: Self)
        ensures
            r == (Options {
                match_kind: MatchKind::LeftmostFirst,
                case_insensitive: false,
                dfa: false,
                whole_words: false,
                unicode_boundaries: true,
            }),
    {
        Options {
            match_kind: MatchKind::LeftmostFirst,
            case_insensitive: false,
            dfa: false,
            whole_words: false,
            unicode_boundaries: true,
        }
    }
}

/// One match: the pattern's index and the half-open span `[start, end)` it covers.
#[derive(Clone, Copy, Debug, PartialEq, Eq, Structural)]
pub struct Match {
    pub pattern: u32,
    pub start: u32,
    pub end: u32,
}

} // verus!

verus! {

/// The match semantics of an underlying automaton: standard Aho-Corasick
/// reporting, leftmost-longest or leftmost-first.
#[derive(Clone, Copy, Debug, PartialEq, Eq, Structural)]
pub enum RawMatchKind {
    Standard,
    LeftmostLongest,
    LeftmostFirst,
}

/// The byte that stands for a match kind in a prepared automaton.
pub open spec fn kind_byte(kind: RawMatchKind) -> u8 {
    match kind {
        RawMatchKind::Standard => 0,
        RawMatchKind::LeftmostLongest => 1,
        RawMatchKind::LeftmostFirst => 2,
    }
}

/// The automaton semantics that a caller's match kind asks for.
pub open spec fn resolved_kind(kind: MatchKind) -> RawMatchKind {
    match kind {
        MatchKind::LeftmostFirst => RawMatchKind::LeftmostFirst,
        MatchKind::LeftmostLongest => RawMatchKind::LeftmostLongest,
    }
}

/// Maps a caller's match kind onto the automaton semantics.
pub fn resolve_match_kind(match_kind: MatchKind) -> (r: RawMatchKind)
    ensures
        r == resolved_kind(match_kind),
{
    match match_kind {
        MatchKind::LeftmostFirst => RawMatchKind::LeftmostFirst,
        MatchKind::LeftmostLongest => RawMatchKind::LeftmostLongest,
    }
}

/// Which characters count as word characters for whole-word filtering.
#[derive(Clone, Copy, Debug, PartialEq, Eq, Structural)]
pub enum BoundaryMode {
    Unicode,
    Ascii,
}

} // verus!
