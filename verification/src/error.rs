//! The library's error type and the text that describes each error.
use vstd::prelude::*;
use vstd::string::*;
use crate::text::push_char;

verus! {

/// Everything that can go wrong while building, preparing or running a search.
#[derive(Debug, Clone, PartialEq, Eq)]
pub enum Error {
    BuildAutomaton(String),
    BuildOverlappingAutomaton(String),
    InvalidPreparedAutomaton(String),
    InvalidUtf8Span,
    PatternIndexDoesNotFit,
    PatternCountDoesNotFit,
    MissingReplacement { pattern: u32 },
    ReplacementCountMismatch { expected: u32, actual: usize },
}

/// The decimal digits of `n`, most significant first (no leading zeros; `0` is `"0"`).
pub open spec fn decimal(n: nat) -> Seq<char>
    decreases n,
{
    if n < 10 {
        seq![digit_char(n)]
    } else {
        decimal(n / 10).push(digit_char(n % 10))
    }
}

/// The ASCII digit for a value below ten.
pub open spec fn digit_char(d: nat) -> char {
    (('0' as u32) + d) as char
}

/// The human-readable description of an error.
pub open spec fn error_text(e: Error) -> Seq<char> {
    match e {
        Error::BuildAutomaton(reason) => "Failed to build automaton: "@ + reason@,
        Error::BuildOverlappingAutomaton(reason) => "Failed to build overlapping automaton: "@
            + reason@,
        Error::InvalidPreparedAutomaton(reason) => "Invalid prepared automaton: "@ + reason@,
        Error::InvalidUtf8Span => "Search produced an invalid UTF-8 span"@,
        Error::PatternIndexDoesNotFit => "Pattern index does not fit usize"@,
        Error::PatternCountDoesNotFit => "Pattern count does not fit this platform"@,
        Error::MissingReplacement { pattern } => "Missing replacement for pattern "@ + decimal(
            pattern as nat,
        ),
        Error::ReplacementCountMismatch { expected, actual } => "Expected "@ + decimal(
            expected as nat,
        ) + " replacements, got "@ + decimal(actual as nat),
    }
}

/// Appends the decimal digits of `n` to `out`.
fn append_decimal(out: &mut String, n: u64)
    ensures
        final(out)@ == old(out)@ + decimal(n as nat),
    decreases n,
{
    if n >= 10 {
        append_decimal(out, n / 10);
    }
    let d: u64 = n % 10;
    let c: char = if d == 0 { '0' } else if d == 1 { '1' } else if d == 2 { '2' } else if d == 3 {
        '3'
    } else if d == 4 { '4' } else if d == 5 { '5' } else if d == 6 { '6' } else if d == 7 {
        '7'
    } else if d == 8 { '8' } else { '9' };
    push_char(out, c);
    proof {
        if n >= 10 {
            assert(decimal(n as nat) == decimal((n / 10) as nat).push(digit_char((n % 10) as nat)));
        }
    }
    assert(final(out)@ =~= old(out)@ + decimal(n as nat));
}

impl Error {
    /// The human-readable description of this error, as a `String`.
    pub fn message(&self) -> (r: String)
        ensures
            r@ == error_text(*self),
    {
        let mut out = String::new();
        match self {
            Error::BuildAutomaton(reason) => {
                out.append("Failed to build automaton: ");
                out.append(reason.as_str());
            },
            Error::BuildOverlappingAutomaton(reason) => {
                out.append("Failed to build overlapping automaton: ");
                out.append(reason.as_str());
            },
            Error::InvalidPreparedAutomaton(reason) => {
                out.append("Invalid prepared automaton: ");
                out.append(reason.as_str());
            },
            Error::InvalidUtf8Span => {
                out.append("Search produced an invalid UTF-8 span");
            },
            Error::PatternIndexDoesNotFit => {
                out.append("Pattern index does not fit usize");
            },
            Error::PatternCountDoesNotFit => {
                out.append("Pattern count does not fit this platform");
            },
            Error::MissingReplacement { pattern } => {
                out.append("Missing replacement for pattern ");
                append_decimal(&mut out, *pattern as u64);
            },
            Error::ReplacementCountMismatch { expected, actual } => {
                out.append("Expected ");
                append_decimal(&mut out, *expected as u64);
                out.append(" replacements, got ");
                append_decimal(&mut out, *actual as u64);
            },
        }
        out
    }
}

} // verus!
