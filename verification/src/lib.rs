//! Exact multi-pattern search over UTF-8 text with prepared (serialisable)
//! automata, streaming search, UTF-16 or byte offsets, Unicode-aware whole-word
//! filtering and simple Unicode case folding.

pub mod error;
pub mod options;
pub mod prepared;
pub mod text;
pub mod boundary;
pub mod utf16;
pub mod sort;
pub mod select;
pub mod pack;
pub mod offsets;
pub mod automaton;
pub mod folding;
pub mod search;
pub mod results;
pub mod matcher;
pub mod stream;
pub mod positions;

pub use error::Error;
pub use options::{Match, MatchKind, Options};
pub use matcher::AhoCorasick;
pub use search::{CaseFoldingAC, PreparedBytes, PreparedSearch};
pub use stream::StreamMatcher;
