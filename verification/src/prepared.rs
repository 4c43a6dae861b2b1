//! The byte layout of a prepared automaton: a fixed 28-byte header followed by
//! the serialised main automaton and the serialised overlapping automaton.
//!
//! ```text
//! 0..8    magic "STLAHO\0\0"
//! 8..12   format version (u32, little endian)
//! 12..16  pattern count (u32, little endian)
//! 16      match kind byte (0 standard, 1 leftmost-longest, 2 leftmost-first)
//! 17      flags (1 case-insensitive, 2 whole words, 4 ASCII boundaries)
//! 18..20  reserved, zero
//! 20..24  main automaton length (u32, little endian)
//! 24..28  overlapping automaton length (u32, little endian)
//! 28..    main automaton bytes, then overlapping automaton bytes
//! ```
use vstd::prelude::*;
use crate::error::Error;
use crate::options::{BoundaryMode, RawMatchKind, kind_byte};

verus! {

pub const PREPARED_VERSION: u32 = 1;
pub const PREPARED_HEADER_LEN: usize = 28;
pub const PREPARED_FLAG_CASE_INSENSITIVE: u8 = 1;
pub const PREPARED_FLAG_WHOLE_WORDS: u8 = 2;
pub const PREPARED_FLAG_ASCII_BOUNDARIES: u8 = 4;
pub const PREPARED_KNOWN_FLAGS: u8 = 7;
pub const RAW_MATCH_STANDARD: u8 = 0;
pub const RAW_MATCH_LEFTMOST_LONGEST: u8 = 1;
pub const RAW_MATCH_LEFTMOST_FIRST: u8 = 2;

/// The eight magic bytes `"STLAHO\0\0"` that open every prepared automaton.
pub open spec fn magic() -> Seq<u8> {
    seq![0x53u8, 0x54u8, 0x4cu8, 0x41u8, 0x48u8, 0x4fu8, 0u8, 0u8]
}

/// The value of four bytes read as a little-endian `u32`.
pub open spec fn le_u32(b: Seq<u8>) -> u32 {
    (b[0] as int + b[1] as int * 256 + b[2] as int * 65536 + b[3] as int * 16777216) as u32
}

/// The four little-endian bytes of a `u32`.
pub open spec fn le_bytes(v: u32) -> Seq<u8> {
    seq![
        (v % 256) as u8,
        ((v / 256) % 256) as u8,
        ((v / 65536) % 256) as u8,
        (v / 16777216) as u8,
    ]
}

/// Reading back the little-endian bytes of a `u32` gives the value.
pub proof fn lemma_le_roundtrip(v: u32)
    ensures
        le_u32(le_bytes(v)) == v,
        le_bytes(v).len() == 4,
{
    let b0 = v % 256;
    let b1 = (v / 256) % 256;
    let b2 = (v / 65536) % 256;
    let b3 = v / 16777216;
    assert(b0 as int + b1 as int * 256 + b2 as int * 65536 + b3 as int * 16777216 == v as int)
        by (nonlinear_arith)
        requires
            b0 == v % 256,
            b1 == (v / 256) % 256,
            b2 == (v / 65536) % 256,
            b3 == v / 16777216,
    ;
}

/// The header fields of a prepared automaton, and the two automaton images it frames.
pub struct PreparedLayout {
    pub pattern_count: u32,
    pub kind: u8,
    pub flags: u8,
    pub main: Seq<u8>,
    pub overlap: Seq<u8>,
}

/// What reading a prepared automaton's framing gives: its layout, or the reason it is refused.
pub open spec fn parse_prepared(b: Seq<u8>) -> Result<PreparedLayout, Seq<char>> {
    if b.len() < 8 {
        Err("missing magic"@)
    } else if b.subrange(0, 8) != magic() {
        Err("magic mismatch"@)
    } else if b.len() < 12 {
        Err("missing version"@)
    } else if le_u32(b.subrange(8, 12)) != 1 {
        Err("unsupported version"@)
    } else if b.len() < 16 {
        Err("missing pattern count"@)
    } else if b.len() < 17 {
        Err("missing match kind"@)
    } else if b[16] > 2 {
        Err("unknown match kind"@)
    } else if b.len() < 18 {
        Err("missing flags"@)
    } else if b[17] >= 8 {
        Err("unknown flags"@)
    } else if b.len() < 20 {
        Err("missing reserved bytes"@)
    } else if b[18] != 0 || b[19] != 0 {
        Err("reserved bytes must be zero"@)
    } else if b.len() < 24 {
        Err("missing main length"@)
    } else if b.len() < 28 {
        Err("missing overlap length"@)
    } else {
        let main_len = le_u32(b.subrange(20, 24)) as int;
        let overlap_len = le_u32(b.subrange(24, 28)) as int;
        let main_end = 28 + main_len;
        let overlap_end = main_end + overlap_len;
        if main_end > usize::MAX {
            Err("offset overflow"@)
        } else if main_end > b.len() {
            Err("missing main bytes"@)
        } else if overlap_end > usize::MAX {
            Err("offset overflow"@)
        } else if overlap_end > b.len() {
            Err("missing overlap bytes"@)
        } else if overlap_end != b.len() {
            Err("trailing bytes"@)
        } else if b[16] == 0 && overlap_len != 0 {
            Err("standard automaton includes overlap bytes"@)
        } else if b[16] != 0 && overlap_len == 0 && main_len != 0 {
            Err("non-standard automaton is missing overlap bytes"@)
        } else {
            Ok(
                PreparedLayout {
                    pattern_count: le_u32(b.subrange(12, 16)),
                    kind: b[16],
                    flags: b[17],
                    main: b.subrange(28, main_end),
                    overlap: b.subrange(main_end, overlap_end),
                },
            )
        }
    }
}

/// The bytes of a prepared automaton with the given header fields and automaton images.
pub open spec fn encode_prepared(
    pattern_count: u32,
    kind: u8,
    flags: u8,
    main: Seq<u8>,
    overlap: Seq<u8>,
) -> Seq<u8> {
    magic() + le_bytes(1) + le_bytes(pattern_count) + seq![kind, flags, 0u8, 0u8] + le_bytes(
        main.len() as u32,
    ) + le_bytes(overlap.len() as u32) + main + overlap
}

/// The framing undoes itself: reading the bytes written for a well-formed header
/// and two images gives back exactly that header and those images.
pub proof fn lemma_prepared_roundtrip(
    pattern_count: u32,
    kind: u8,
    flags: u8,
    main: Seq<u8>,
    overlap: Seq<u8>,
)
    requires
        kind <= 2,
        flags < 8,
        main.len() <= u32::MAX,
        overlap.len() <= u32::MAX,
        28 + main.len() + overlap.len() <= usize::MAX,
        kind == 0 ==> overlap.len() == 0,
        kind != 0 && overlap.len() == 0 ==> main.len() == 0,
    ensures
        parse_prepared(encode_prepared(pattern_count, kind, flags, main, overlap)) == Ok::<
            PreparedLayout,
            Seq<char>,
        >(PreparedLayout { pattern_count, kind, flags, main, overlap }),
{
    let b = encode_prepared(pattern_count, kind, flags, main, overlap);
    lemma_le_roundtrip(1);
    lemma_le_roundtrip(pattern_count);
    lemma_le_roundtrip(main.len() as u32);
    lemma_le_roundtrip(overlap.len() as u32);
    assert(b.subrange(0, 8) =~= magic());
    assert(b.subrange(8, 12) =~= le_bytes(1));
    assert(b.subrange(12, 16) =~= le_bytes(pattern_count));
    assert(b.subrange(20, 24) =~= le_bytes(main.len() as u32));
    assert(b.subrange(24, 28) =~= le_bytes(overlap.len() as u32));
    assert(b[16] == kind);
    assert(b[17] == flags);
    assert(b[18] == 0 && b[19] == 0);
    let main_end = 28 + main.len();
    assert(b.subrange(28, main_end as int) =~= main);
    assert(b.subrange(main_end as int, (main_end + overlap.len()) as int) =~= overlap);
}

/// Builds the "invalid prepared automaton" error for a reason.
pub fn invalid_prepared(reason: &str) -> (r: Error)
    ensures
        r matches Error::InvalidPreparedAutomaton(s) && s@ == reason@,
{
    Error::InvalidPreparedAutomaton(reason.to_owned())
}

/// Reads a little-endian `u32` at the cursor and advances it past the four bytes.
pub fn read_u32_le(bytes: &[u8], cursor: &mut usize, field: &str) -> (r: Result<u32, Error>)
    ensures
        match r {
            Ok(v) => {
                &&& *old(cursor) + 4 <= bytes@.len()
                &&& *final(cursor) == *old(cursor) + 4
                &&& v == le_u32(bytes@.subrange(*old(cursor) as int, *old(cursor) + 4))
            },
            Err(e) => {
                &&& *old(cursor) + 4 > bytes@.len()
                &&& *final(cursor) == *old(cursor)
                &&& e matches Error::InvalidPreparedAutomaton(s)
                &&& s@ == (if *old(cursor) + 4 > usize::MAX {
                    "offset overflow"@
                } else {
                    field@
                })
            },
        },
{
    let n = bytes.len();
    let end = match cursor.checked_add(4) {
        Some(end) => end,
        None => {
            return Err(invalid_prepared("offset overflow"));
        },
    };
    if end > n {
        return Err(invalid_prepared(field));
    }
    let c = *cursor;
    let v: u32 = bytes[c] as u32 + bytes[c + 1] as u32 * 256 + bytes[c + 2] as u32 * 65536
        + bytes[c + 3] as u32 * 16777216;
    *cursor = end;
    Ok(v)
}

/// Reads one byte at the cursor and advances it by one.
pub fn read_u8(bytes: &[u8], cursor: &mut usize, field: &str) -> (r: Result<u8, Error>)
    ensures
        match r {
            Ok(v) => {
                &&& *old(cursor) < bytes@.len()
                &&& *final(cursor) == *old(cursor) + 1
                &&& v == bytes@[*old(cursor) as int]
            },
            Err(e) => {
                &&& *old(cursor) >= bytes@.len()
                &&& *final(cursor) == *old(cursor)
                &&& e matches Error::InvalidPreparedAutomaton(s)
                &&& s@ == field@
            },
        },
{
    if *cursor >= bytes.len() {
        return Err(invalid_prepared(field));
    }
    let value = bytes[*cursor];
    *cursor = *cursor + 1;
    Ok(value)
}

/// Checks that the two reserved bytes at the cursor are zero and steps over them.
pub fn skip_reserved(bytes: &[u8], cursor: &mut usize) -> (r: Result<(), Error>)
    ensures
        match r {
            Ok(_) => {
                &&& *old(cursor) + 2 <= bytes@.len()
                &&& *final(cursor) == *old(cursor) + 2
                &&& bytes@[*old(cursor) as int] == 0
                &&& bytes@[*old(cursor) + 1] == 0
            },
            Err(e) => {
                &&& *final(cursor) == *old(cursor)
                &&& e matches Error::InvalidPreparedAutomaton(s)
                &&& s@ == (if *old(cursor) + 2 > usize::MAX {
                    "offset overflow"@
                } else if *old(cursor) + 2 > bytes@.len() {
                    "missing reserved bytes"@
                } else {
                    "reserved bytes must be zero"@
                })
                &&& (*old(cursor) + 2 <= bytes@.len() ==> (bytes@[*old(cursor) as int] != 0
                    || bytes@[*old(cursor) + 1] != 0))
            },
        },
{
    let n = bytes.len();
    let end = match cursor.checked_add(2) {
        Some(end) => end,
        None => {
            return Err(invalid_prepared("offset overflow"));
        },
    };
    if end > n {
        return Err(invalid_prepared("missing reserved bytes"));
    }
    if bytes[*cursor] != 0 || bytes[*cursor + 1] != 0 {
        return Err(invalid_prepared("reserved bytes must be zero"));
    }
    *cursor = end;
    Ok(())
}

/// Takes `len` bytes at the cursor and advances it past them.
pub fn read_bytes<'a>(bytes: &'a [u8], cursor: &mut usize, len: usize, field: &str) -> (r: Result<
    &'a [u8],
    Error,
>)
    ensures
        match r {
            Ok(v) => {
                &&& *old(cursor) + len <= bytes@.len()
                &&& *final(cursor) == *old(cursor) + len
                &&& v@ == bytes@.subrange(*old(cursor) as int, *old(cursor) + len)
            },
            Err(e) => {
                &&& *old(cursor) + len > bytes@.len()
                &&& *final(cursor) == *old(cursor)
                &&& e matches Error::InvalidPreparedAutomaton(s)
                &&& s@ == (if *old(cursor) + len > usize::MAX {
                    "offset overflow"@
                } else {
                    field@
                })
            },
        },
{
    let n = bytes.len();
    let end = match cursor.checked_add(len) {
        Some(end) => end,
        None => {
            return Err(invalid_prepared("offset overflow"));
        },
    };
    if end > n {
        return Err(invalid_prepared(field));
    }
    let value = vstd::slice::slice_subrange(bytes, *cursor, end);
    *cursor = end;
    Ok(value)
}

/// Appends the four little-endian bytes of `value`.
pub fn write_u32_le(bytes: &mut Vec<u8>, value: u32)
    ensures
        final(bytes)@ == old(bytes)@ + le_bytes(value),
{
    bytes.push((value % 256) as u8);
    bytes.push(((value / 256) % 256) as u8);
    bytes.push(((value / 65536) % 256) as u8);
    bytes.push((value / 16777216) as u8);
    assert(final(bytes)@ =~= old(bytes)@ + le_bytes(value));
}

/// The flags byte for a searcher's options.
pub open spec fn flags_byte(case_insensitive: bool, whole_words: bool, boundary_mode: BoundaryMode) -> u8 {
    ((if case_insensitive { 1int } else { 0int }) + (if whole_words { 2int } else { 0int }) + (
    if boundary_mode == BoundaryMode::Ascii {
        4int
    } else {
        0int
    })) as u8
}

/// Packs the options that a prepared automaton records into its flags byte.
pub fn prepared_flags(case_insensitive: bool, whole_words: bool, boundary_mode: BoundaryMode) -> (r:
    u8)
    ensures
        r == flags_byte(case_insensitive, whole_words, boundary_mode),
        r < 8,
{
    let mut flags = 0u8;
    if case_insensitive {
        flags = flags + PREPARED_FLAG_CASE_INSENSITIVE;
    }
    if whole_words {
        flags = flags + PREPARED_FLAG_WHOLE_WORDS;
    }
    if matches!(boundary_mode, BoundaryMode::Ascii) {
        flags = flags + PREPARED_FLAG_ASCII_BOUNDARIES;
    }
    flags
}

/// The byte recorded for a match kind.
pub fn raw_match_kind_byte(match_kind: RawMatchKind) -> (r: u8)
    ensures
        r == kind_byte(match_kind),
{
    match match_kind {
        RawMatchKind::Standard => RAW_MATCH_STANDARD,
        RawMatchKind::LeftmostLongest => RAW_MATCH_LEFTMOST_LONGEST,
        RawMatchKind::LeftmostFirst => RAW_MATCH_LEFTMOST_FIRST,
    }
}

/// The match kind that a recorded byte stands for.
pub fn raw_match_kind_from_byte(value: u8) -> (r: Result<RawMatchKind, Error>)
    ensures
        match r {
            Ok(k) => value <= 2 && kind_byte(k) == value,
            Err(e) => {
                &&& value > 2
                &&& e matches Error::InvalidPreparedAutomaton(s)
                &&& s@ == "unknown match kind"@
            },
        },
{
    if value == RAW_MATCH_STANDARD {
        Ok(RawMatchKind::Standard)
    } else if value == RAW_MATCH_LEFTMOST_LONGEST {
        Ok(RawMatchKind::LeftmostLongest)
    } else if value == RAW_MATCH_LEFTMOST_FIRST {
        Ok(RawMatchKind::LeftmostFirst)
    } else {
        Err(invalid_prepared("unknown match kind"))
    }
}

} // verus!

verus! {

/// Writing back the value of four bytes read as a little-endian `u32` gives the bytes.
pub proof fn lemma_le_bytes_of_value(s: Seq<u8>)
    requires
        s.len() == 4,
    ensures
        le_bytes(le_u32(s)) == s,
{
    let (b0, b1, b2, b3) = (s[0], s[1], s[2], s[3]);
    let v = b0 as int + b1 as int * 256 + b2 as int * 65536 + b3 as int * 16777216;
    assert(0 <= v < 0x1_0000_0000) by (nonlinear_arith)
        requires
            v == b0 as int + b1 as int * 256 + b2 as int * 65536 + b3 as int * 16777216,
            b0 < 256,
            b1 < 256,
            b2 < 256,
            b3 < 256,
    ;
    let u = le_u32(s);
    assert(u as int == v);
    assert(u % 256 == b0 && (u / 256) % 256 == b1 && (u / 65536) % 256 == b2 && u / 16777216 == b3)
        by (nonlinear_arith)
        requires
            u as int == b0 as int + b1 as int * 256 + b2 as int * 65536 + b3 as int * 16777216,
            b0 < 256,
            b1 < 256,
            b2 < 256,
            b3 < 256,
    ;
    assert(le_bytes(u) =~= s);
}

/// The framing is read without loss: the bytes of a prepared automaton that
/// reads as a layout are exactly what writing that layout gives.
pub proof fn lemma_parse_encode(b: Seq<u8>)
    requires
        parse_prepared(b) is Ok,
    ensures
        b == encode_prepared(
            parse_prepared(b)->Ok_0.pattern_count,
            parse_prepared(b)->Ok_0.kind,
            parse_prepared(b)->Ok_0.flags,
            parse_prepared(b)->Ok_0.main,
            parse_prepared(b)->Ok_0.overlap,
        ),
{
    let layout = parse_prepared(b)->Ok_0;
    lemma_le_bytes_of_value(b.subrange(8, 12));
    lemma_le_bytes_of_value(b.subrange(12, 16));
    lemma_le_bytes_of_value(b.subrange(20, 24));
    lemma_le_bytes_of_value(b.subrange(24, 28));
    assert(le_u32(b.subrange(8, 12)) == 1);
    let main_len = le_u32(b.subrange(20, 24)) as int;
    let overlap_len = le_u32(b.subrange(24, 28)) as int;
    assert(layout.main.len() == main_len);
    assert(layout.overlap.len() == overlap_len);
    assert(b =~= encode_prepared(layout.pattern_count, layout.kind, layout.flags, layout.main, layout.overlap));
}

} // verus!
