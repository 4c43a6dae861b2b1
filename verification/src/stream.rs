//! Searching a stream of byte chunks: each write searches the new chunk behind
//! the tail of the previous chunks, so that matches spanning a chunk boundary
//! are found, and reports offsets from the start of the stream.
use vstd::prelude::*;
use vstd::string::*;
use vstd::utf8::*;
use crate::error::Error;
use crate::options::{Match, Options, RawMatchKind, resolve_match_kind, resolved_kind};
use crate::pack::Triple;
use crate::results::bytes_hits;
use crate::search::{
    CaseFoldingAC, build_failure, built_from, bytes_orig_pos, lemma_reported_index_names_pattern, main_search,
    names_pattern, search_bytes_of, text_value_bytes,
};
use crate::automaton::{built_image, is_occurrence, leftmost_matches, occurrences_of, raw_triples, searches_sound};
use crate::folding::{effective_text, lemma_first_occurrences_indices, lemma_first_occurrences_texts, pattern_values};
use crate::options::kind_byte;
use crate::utf16::{clamp_u32, u32_from_usize};

verus! {

broadcast use vstd::string::group_string_axioms;

/// The largest UTF-8 byte length among the patterns (0 without patterns).
pub open spec fn max_byte_len(patterns: Seq<String>) -> nat
    decreases patterns.len(),
{
    if patterns.len() == 0 {
        0
    } else {
        let rest = max_byte_len(patterns.drop_last());
        let last = encode_utf8(patterns.last()@).len();
        if last > rest {
            last
        } else {
            rest
        }
    }
}

/// `a + b`, saturating at `usize::MAX`.
pub open spec fn sat_add(a: int, b: int) -> usize {
    if a + b > usize::MAX {
        usize::MAX
    } else {
        (a + b) as usize
    }
}

/// `a - b`, saturating at zero.
pub open spec fn sat_sub(a: int, b: int) -> usize {
    if a - b < 0 {
        0
    } else {
        (a - b) as usize
    }
}

/// The first offset at or after `k` that does not hold a UTF-8 continuation byte.
pub open spec fn skip_continuation(c: Seq<u8>, k: int) -> int
    decreases c.len() - k,
{
    if 0 <= k < c.len() && is_continuation_byte(c[k]) {
        skip_continuation(c, k + 1)
    } else {
        k
    }
}

/// Skipping continuation bytes stops within the bytes, at a byte that is not one.
proof fn lemma_skip_continuation(c: Seq<u8>, k: int)
    requires
        0 <= k <= c.len(),
    ensures
        k <= skip_continuation(c, k) <= c.len(),
        skip_continuation(c, k) < c.len() ==> !is_continuation_byte(c[skip_continuation(c, k)]),
    decreases c.len() - k,
{
    if k < c.len() && is_continuation_byte(c[k]) {
        lemma_skip_continuation(c, k + 1);
    }
}

/// What a stream keeps for its next write is a tail of the bytes it last
/// searched: a suffix of them, shorter than the longest pattern, that does not
/// start in the middle of a UTF-8 character.
pub proof fn lemma_kept_tail(combined: Seq<u8>, max_len: usize)
    requires
        max_len >= 1,
    ensures
        kept_tail(combined, max_len).len() <= max_len - 1,
        kept_tail(combined, max_len) == combined.subrange(
            combined.len() - kept_tail(combined, max_len).len(),
            combined.len() as int,
        ),
        kept_tail(combined, max_len).len() > 0 ==> !is_continuation_byte(kept_tail(combined, max_len)[0]),
{
    let size = if max_len - 1 < combined.len() {
        max_len - 1
    } else {
        combined.len() as int
    };
    lemma_skip_continuation(combined, combined.len() - size);
}

/// A match in a searched window, reported from the start of the stream.
pub open spec fn shifted_match(base: usize, m: Triple) -> Match {
    Match {
        pattern: m.0,
        start: clamp_u32(sat_add(base as int, m.1 as int) as int),
        end: clamp_u32(sat_add(base as int, m.2 as int) as int),
    }
}

/// The matches of a window that do not lie wholly within its first `skip` bytes,
/// shifted by `base`.
pub open spec fn window_matches(ms: Seq<Triple>, skip: int, base: usize) -> Seq<Match>
    decreases ms.len(),
{
    if ms.len() == 0 {
        seq![]
    } else {
        let prev = window_matches(ms.drop_last(), skip, base);
        let m = ms.last();
        if (m.1 as int) < skip && (m.2 as int) <= skip {
            prev
        } else {
            prev.push(shifted_match(base, m))
        }
    }
}

/// The tail of the searched window kept for the next write: the last
/// `max_len - 1` bytes, moved forward past continuation bytes so that it starts
/// at a character start.
pub open spec fn kept_tail(combined: Seq<u8>, max_len: usize) -> Seq<u8> {
    let size = if max_len - 1 < combined.len() {
        max_len - 1
    } else {
        combined.len() as int
    };
    let cut = skip_continuation(combined, combined.len() - size);
    combined.subrange(cut, combined.len() as int)
}

/// What a write reports and leaves behind: its matches, the kept tail and the
/// new stream offset. With patterns of at most one byte nothing is kept and
/// each chunk is searched on its own.
pub open spec fn write_step(
    e: CaseFoldingAC,
    max_len: usize,
    buffer: Seq<u8>,
    offset: usize,
    chunk: Seq<u8>,
) -> (Seq<Match>, Seq<u8>, usize) {
    if max_len <= 1 {
        (window_matches(bytes_hits(e, chunk), 0, offset), buffer, sat_add(offset as int, chunk.len() as int))
    } else {
        let combined = buffer + chunk;
        let base = sat_sub(offset as int, buffer.len() as int);
        (
            window_matches(bytes_hits(e, combined), buffer.len() as int, base),
            kept_tail(combined, max_len),
            sat_add(offset as int, chunk.len() as int),
        )
    }
}

/// Whether a stream searcher's kept tail and offset agree with the bytes written
/// to it: the tail is a suffix of them and the offset is their number
/// (saturating at `usize::MAX`).
pub open spec fn keeps_stream(buffer: Seq<u8>, offset: usize, stream: Seq<u8>) -> bool {
    &&& buffer.len() <= stream.len()
    &&& buffer == stream.subrange(stream.len() - buffer.len(), stream.len() as int)
    &&& offset == sat_add(stream.len() as int, 0)
}

/// Where a stream stands: the kept tail, the offset from the stream's start,
/// and the bytes written so far.
struct StreamPosition {
    overlap_buf: Vec<u8>,
    global_offset: usize,
    written: Ghost<Seq<u8>>,
}

impl StreamPosition {
    /// The position at the start of a stream: nothing kept, nothing written.
    fn start() -> (r: StreamPosition)
        ensures
            r.overlap_buf@.len() == 0,
            r.written@.len() == 0,
            keeps_stream(r.overlap_buf@, r.global_offset, r.written@),
            forall|m: usize| tail_of_stream(r.overlap_buf@, r.written@, m),
    {
        let r = StreamPosition { overlap_buf: Vec::new(), global_offset: 0, written: Ghost(Seq::empty()) };
        assert(r.overlap_buf@ =~= r.written@.subrange(0, 0));
        assert forall|m: usize| tail_of_stream(r.overlap_buf@, r.written@, m) by {
            if m > 1 {
                assert(kept_tail(r.written@, m) =~= r.overlap_buf@);
            }
        }
        r
    }
}

/// Whether a stream searcher's kept tail is the tail of the bytes written to
/// it that a write keeps (when a pattern is longer than one byte).
pub open spec fn tail_of_stream(buffer: Seq<u8>, stream: Seq<u8>, max_len: usize) -> bool {
    max_len > 1 ==> buffer == kept_tail(stream, max_len)
}

/// A stream searcher.
pub struct StreamMatcher {
    search: CaseFoldingAC,
    max_pattern_len: usize,
    position: StreamPosition,
}

impl StreamMatcher {
    /// The kept tail is shorter than the longest pattern, and empty when no
    /// pattern is longer than one byte; it is the tail that a write keeps of
    /// the bytes written since the start, and the offset is their number.
    #[verifier::type_invariant]
    closed spec fn tail_bounded(&self) -> bool {
        &&& if self.max_pattern_len <= 1 {
            self.position.overlap_buf@.len() == 0
        } else {
            self.position.overlap_buf@.len() <= self.max_pattern_len - 1
        }
        &&& keeps_stream(self.position.overlap_buf@, self.position.global_offset, self.position.written@)
        &&& tail_of_stream(self.position.overlap_buf@, self.position.written@, self.max_pattern_len)
    }

    /// The underlying searcher.
    pub closed spec fn engine(&self) -> CaseFoldingAC {
        self.search
    }

    /// The longest pattern's byte length.
    pub closed spec fn max_len(&self) -> usize {
        self.max_pattern_len
    }

    /// The tail of the stream kept for the next write.
    pub closed spec fn buffer(&self) -> Seq<u8> {
        self.position.overlap_buf@
    }

    /// The number of bytes written since the start (saturating).
    pub closed spec fn offset(&self) -> usize {
        self.position.global_offset
    }

    /// The bytes written since the searcher was built, reset or flushed.
    pub closed spec fn stream(&self) -> Seq<u8> {
        self.position.written@
    }

    /// Builds a stream searcher (whole-word filtering does not apply to streams).
    pub fn new(patterns: Vec<String>, options: Options) -> (r: Result<Self, Error>)
        ensures
            match r {
                Ok(sm) => {
                    &&& built_from(sm.engine(), patterns@, resolved_kind(options.match_kind), options.case_insensitive)
                    &&& sm.max_len() as int == max_byte_len(patterns@)
                    &&& sm.buffer().len() == 0
                    &&& sm.offset() == 0
                    &&& sm.stream().len() == 0
                },
                Err(e) => build_failure(e, patterns@, resolved_kind(options.match_kind), options.case_insensitive),
            },
    {
        let mut max_pattern_len: usize = 0;
        let n = patterns.len();
        let mut i: usize = 0;
        while i < n
            invariant
                n == patterns@.len(),
                0 <= i <= n,
                max_pattern_len as int == max_byte_len(patterns@.take(i as int)),
            decreases n - i,
        {
            let len = patterns[i].as_str().as_bytes().len();
            if len > max_pattern_len {
                max_pattern_len = len;
            }
            proof {
                assert(patterns@.take(i + 1).drop_last() =~= patterns@.take(i as int));
            }
            i = i + 1;
        }
        proof {
            assert(patterns@.take(n as int) =~= patterns@);
        }
        let search = CaseFoldingAC::build(
            patterns,
            resolve_match_kind(options.match_kind),
            options.case_insensitive,
            options.dfa,
        )?;
        Ok(StreamMatcher {
            search,
            max_pattern_len,
            position: StreamPosition::start(),
        })
    }

    /// Searches the next chunk: matches found within the previous tail alone are
    /// not reported again; matches are reported in offsets from the stream's start.
    pub fn write(&mut self, chunk: &[u8]) -> (r: Vec<Match>)
        ensures
            (r@, final(self).buffer(), final(self).offset()) == write_step(
                old(self).engine(),
                old(self).max_len(),
                old(self).buffer(),
                old(self).offset(),
                chunk@,
            ),
            final(self).engine() == old(self).engine(),
            final(self).max_len() == old(self).max_len(),
            final(self).max_len() <= 1 ==> final(self).buffer().len() == 0,
            final(self).max_len() > 1 ==> final(self).buffer().len() < final(self).max_len(),
            final(self).stream() == old(self).stream() + chunk@,
            keeps_stream(old(self).buffer(), old(self).offset(), old(self).stream()),
            keeps_stream(final(self).buffer(), final(self).offset(), final(self).stream()),
            tail_of_stream(old(self).buffer(), old(self).stream(), old(self).max_len()),
            tail_of_stream(final(self).buffer(), final(self).stream(), final(self).max_len()),
    {
        proof {
            use_type_invariant(&*self);
        }
        let ghost new_stream = self.position.written@ + chunk@;
        if self.max_pattern_len <= 1 {
            let matches = self.search_window(chunk, 0, self.position.global_offset);
            let offset = self.position.global_offset.saturating_add(chunk.len());
            let buf = Vec::new();
            proof {
                assert(buf@ =~= new_stream.subrange(new_stream.len() as int, new_stream.len() as int));
            }
            self.position = StreamPosition { overlap_buf: buf, global_offset: offset, written: Ghost(new_stream) };
            return matches;
        }
        let overlap_len = self.position.overlap_buf.len();
        let mut combined: Vec<u8> = Vec::with_capacity(overlap_len.saturating_add(chunk.len()));
        append_bytes(&mut combined, self.position.overlap_buf.as_slice());
        append_bytes(&mut combined, chunk);
        let search_offset = self.position.global_offset.saturating_sub(overlap_len);
        let matches = self.search_window(combined.as_slice(), overlap_len, search_offset);
        let max_minus_one = self.max_pattern_len - 1;
        let overlap_size = if max_minus_one < combined.len() {
            max_minus_one
        } else {
            combined.len()
        };
        let mut cut = combined.len() - overlap_size;
        while cut < combined.len() && (combined[cut] & 0xC0) == 0x80
            invariant
                combined@.len() - overlap_size <= cut <= combined@.len(),
                skip_continuation(combined@, cut as int) == skip_continuation(
                    combined@,
                    combined@.len() - overlap_size,
                ),
            decreases combined@.len() - cut,
        {
            let byte = combined[cut];
            assert(((byte & 0xC0) == 0x80) <==> (0x80 <= byte <= 0xbf)) by (bit_vector);
            cut = cut + 1;
        }
        proof {
            if cut < combined@.len() {
                let byte = combined@[cut as int];
                assert(((byte & 0xC0) == 0x80) <==> (0x80 <= byte <= 0xbf)) by (bit_vector);
            }
        }
        let tail = vstd::slice::slice_to_vec(vstd::slice::slice_subrange(combined.as_slice(), cut, combined.len()));
        proof {
            lemma_kept_tail(combined@, self.max_pattern_len);
            lemma_tail_of_stream(self.position.written@, self.position.overlap_buf@, chunk@, tail@);
            lemma_kept_tail_again(self.position.written@, chunk@, self.max_pattern_len);
        }
        let offset = self.position.global_offset.saturating_add(chunk.len());
        self.position = StreamPosition { overlap_buf: tail, global_offset: offset, written: Ghost(new_stream) };
        matches
    }

    /// Searches a window and reports the matches not wholly within its first
    /// `skip` bytes, shifted by `base`.
    fn search_window(&self, window: &[u8], skip: usize, base: usize) -> (r: Vec<Match>)
        ensures
            r@ == window_matches(bytes_hits(self.engine(), window@), skip as int, base),
    {
        let prep = self.search.prepare_bytes(window);
        let matches = self.search.find_iter_bytes(&prep);
        let ghost ms = bytes_hits(self.engine(), window@);
        let mut out: Vec<Match> = Vec::new();
        let n = matches.len();
        let mut i: usize = 0;
        while i < n
            invariant
                n == matches@.len(),
                0 <= i <= n,
                prep.bytes_view() == search_bytes_of(window@, self.engine().folds()),
                forall|p: int| #[trigger] prep.orig_spec(p) == bytes_orig_pos(window@, self.engine().folds(), p),
                raw_triples(matches@) == main_search(self.engine().main_contents(), self.engine().kind(), prep.bytes_view()),
                ms == bytes_hits(self.engine(), window@),
                out@ == window_matches(ms.take(i as int), skip as int, base),
            decreases n - i,
        {
            let m = matches[i];
            let os = prep.orig_pos(m.start());
            let oe = prep.orig_pos(m.end());
            proof {
                assert(raw_triples(matches@)[i as int] == m.triple());
                assert(ms[i as int] == (m.pattern, os, oe));
                assert(ms.take(i + 1).drop_last() =~= ms.take(i as int));
            }
            if !(os < skip && oe <= skip) {
                out.push(Match {
                    pattern: m.pattern().as_u32(),
                    start: u32_from_usize(base.saturating_add(os)),
                    end: u32_from_usize(base.saturating_add(oe)),
                });
            }
            i = i + 1;
        }
        proof {
            assert(ms.take(n as int) =~= ms);
        }
        out
    }

    /// Ends the stream: forgets the kept tail and the offset; reports nothing.
    pub fn flush(&mut self) -> (r: Vec<Match>)
        ensures
            r@.len() == 0,
            final(self).buffer().len() == 0,
            final(self).offset() == 0,
            final(self).stream().len() == 0,
            final(self).engine() == old(self).engine(),
            final(self).max_len() == old(self).max_len(),
    {
        self.position = StreamPosition::start();
        Vec::new()
    }

    /// Makes the searcher ready for a new stream.
    pub fn reset(&mut self)
        ensures
            final(self).buffer().len() == 0,
            final(self).offset() == 0,
            final(self).stream().len() == 0,
            final(self).engine() == old(self).engine(),
            final(self).max_len() == old(self).max_len(),
    {
        self.position = StreamPosition::start();
    }
}

/// A tail of the kept tail followed by a chunk is a tail of the stream
/// followed by that chunk.
proof fn lemma_tail_of_stream(stream: Seq<u8>, buffer: Seq<u8>, chunk: Seq<u8>, tail: Seq<u8>)
    requires
        buffer.len() <= stream.len(),
        buffer == stream.subrange(stream.len() - buffer.len(), stream.len() as int),
        tail.len() <= (buffer + chunk).len(),
        tail == (buffer + chunk).subrange((buffer + chunk).len() - tail.len(), (buffer + chunk).len() as int),
    ensures
        tail.len() <= (stream + chunk).len(),
        tail == (stream + chunk).subrange((stream + chunk).len() - tail.len(), (stream + chunk).len() as int),
{
    let s = stream + chunk;
    let c = buffer + chunk;
    assert forall|i: int| 0 <= i < tail.len() implies tail[i] == s[s.len() - tail.len() + i] by {
        let j = c.len() - tail.len() + i;
        assert(tail[i] == c[j]);
        if j < buffer.len() {
            assert(c[j] == buffer[j]);
            assert(buffer[j] == stream[stream.len() - buffer.len() + j]);
        } else {
            assert(c[j] == chunk[j - buffer.len()]);
        }
    }
    assert(tail =~= s.subrange(s.len() - tail.len(), s.len() as int));
}

/// Skipping continuation bytes from anywhere between a start and where the
/// skip from that start stops stops at the same place.
proof fn lemma_skip_between(c: Seq<u8>, a: int, j: int)
    requires
        0 <= a <= j <= skip_continuation(c, a),
    ensures
        skip_continuation(c, j) == skip_continuation(c, a),
    decreases j - a,
{
    if a < j {
        lemma_skip_continuation(c, a);
        assert(a < c.len() && is_continuation_byte(c[a]));
        lemma_skip_between(c, a + 1, j);
    }
}

/// Skipping in the bytes followed by more bytes stops where the skip in the
/// bytes alone stops, unless that runs to their end.
proof fn lemma_skip_extended(s: Seq<u8>, c: Seq<u8>, j: int)
    requires
        0 <= j <= s.len(),
    ensures
        skip_continuation(s + c, j) == (if skip_continuation(s, j) < s.len() {
            skip_continuation(s, j)
        } else {
            skip_continuation(s + c, s.len() as int)
        }),
    decreases s.len() - j,
{
    if j < s.len() {
        assert((s + c)[j] == s[j]);
        if is_continuation_byte(s[j]) {
            lemma_skip_extended(s, c, j + 1);
        }
    }
}

/// Skipping in a suffix is skipping in the whole from the same place.
proof fn lemma_skip_suffix(x: Seq<u8>, off: int, k: int)
    requires
        0 <= off <= x.len(),
        0 <= k <= x.len() - off,
    ensures
        skip_continuation(x.subrange(off, x.len() as int), k) + off == skip_continuation(x, k + off),
    decreases x.len() - off - k,
{
    let y = x.subrange(off, x.len() as int);
    if k < y.len() {
        assert(y[k] == x[k + off]);
        if is_continuation_byte(y[k]) {
            lemma_skip_suffix(x, off, k + 1);
        }
    }
}

/// Keeping the tail of the kept tail followed by a chunk keeps the tail of the
/// whole stream followed by that chunk.
proof fn lemma_kept_tail_again(s: Seq<u8>, c: Seq<u8>, m: usize)
    requires
        m > 1,
    ensures
        kept_tail(kept_tail(s, m) + c, m) == kept_tail(s + c, m),
{
    let m1 = m - 1;
    let a_s = s.len() - (if m1 < s.len() { m1 } else { s.len() as int });
    let cut = skip_continuation(s, a_s);
    lemma_skip_continuation(s, a_s);
    let t = kept_tail(s, m);
    assert(t == s.subrange(cut, s.len() as int));
    let x = s + c;
    let y = t + c;
    assert(y =~= x.subrange(cut, x.len() as int));
    let a_y = y.len() - (if m1 < y.len() { m1 } else { y.len() as int });
    let a_x = x.len() - (if m1 < x.len() { m1 } else { x.len() as int });
    lemma_skip_suffix(x, cut, a_y);
    lemma_skip_continuation(y, a_y);
    if y.len() < m1 {
        assert(a_y == 0);
        assert(a_s <= a_x <= cut);
        lemma_skip_between(s, a_s, a_x);
        lemma_skip_between(s, a_s, cut);
        lemma_skip_extended(s, c, a_x);
        lemma_skip_extended(s, c, cut);
        assert(skip_continuation(x, a_x) == skip_continuation(x, cut));
    } else {
        assert(a_y + cut == a_x);
    }
    let cut_x = skip_continuation(x, a_x);
    let cut_y = skip_continuation(y, a_y);
    assert(cut_y + cut == cut_x);
    assert(kept_tail(y, m) =~= kept_tail(x, m));
}

/// Appends all bytes of a slice.
pub(crate) fn append_bytes(dst: &mut Vec<u8>, src: &[u8])
    ensures
        final(dst)@ == old(dst)@ + src@,
{
    let n = src.len();
    let mut i: usize = 0;
    while i < n
        invariant
            n == src@.len(),
            0 <= i <= n,
            dst@ == old(dst)@ + src@.take(i as int),
        decreases n - i,
    {
        dst.push(src[i]);
        assert(dst@ =~= old(dst)@ + src@.take(i + 1));
        i = i + 1;
    }
    assert(src@.take(n as int) =~= src@);
}

/// Whether a reported match is a match of the window, not wholly within its
/// first `skip` bytes, shifted by `base`.
pub open spec fn kept_match(ms: Seq<Triple>, skip: int, base: usize, r: Match) -> bool {
    exists|i: int|
        0 <= i < ms.len() && !((ms[i].1 as int) < skip && (ms[i].2 as int) <= skip) && r
            == shifted_match(base, #[trigger] ms[i])
}

/// The matches of a window that a write keeps are matches of the window not
/// wholly within the skipped bytes, shifted.
proof fn lemma_window_matches_from(ms: Seq<Triple>, skip: int, base: usize)
    ensures
        forall|k: int|
            0 <= k < window_matches(ms, skip, base).len() ==> kept_match(
                ms,
                skip,
                base,
                #[trigger] window_matches(ms, skip, base)[k],
            ),
    decreases ms.len(),
{
    if ms.len() > 0 {
        let prev = ms.drop_last();
        lemma_window_matches_from(prev, skip, base);
        let w = window_matches(ms, skip, base);
        let wp = window_matches(prev, skip, base);
        assert forall|k: int| 0 <= k < w.len() implies kept_match(ms, skip, base, #[trigger] w[k]) by {
            if k < wp.len() {
                assert(w[k] == wp[k]);
                assert(kept_match(prev, skip, base, wp[k]));
                let i = choose|i: int|
                    0 <= i < prev.len() && !((prev[i].1 as int) < skip && (prev[i].2 as int) <= skip)
                        && wp[k] == shifted_match(base, #[trigger] prev[i]);
                assert(ms[i] == prev[i]);
            } else {
                let m = ms.last();
                assert(ms[ms.len() - 1] == m);
                assert(w == wp.push(shifted_match(base, m)));
            }
        }
    }
}

/// The bytes a write searches: the chunk alone when no pattern is longer than
/// a byte, else the kept tail followed by the chunk.
pub open spec fn searched_window(max_len: usize, buffer: Seq<u8>, chunk: Seq<u8>) -> Seq<u8> {
    if max_len <= 1 {
        chunk
    } else {
        buffer + chunk
    }
}

/// The stream offset at which a write's window starts.
pub open spec fn window_base(max_len: usize, buffer: Seq<u8>, offset: usize) -> usize {
    if max_len <= 1 {
        offset
    } else {
        sat_sub(offset as int, buffer.len() as int)
    }
}

/// What a write of a case-keeping stream searcher reports are patterns found
/// in the window it searched: each match is, at its offsets less the window's
/// start in the stream (offsets clamped to `u32`), an occurrence of the first
/// pattern with that text, with that pattern's index, and does not lie wholly
/// within the tail kept from the previous write.
pub proof fn lemma_write_reports_occurrences(
    e: CaseFoldingAC,
    patterns: Seq<String>,
    kind: RawMatchKind,
    max_len: usize,
    buffer: Seq<u8>,
    offset: usize,
    chunk: Seq<u8>,
)
    requires
        built_from(e, patterns, kind, false),
    ensures
        forall|k: int|
            #![trigger write_step(e, max_len, buffer, offset, chunk).0[k]]
            0 <= k < write_step(e, max_len, buffer, offset, chunk).0.len() ==> exists|m: Triple|
                #[trigger] names_pattern(patterns, false, searched_window(max_len, buffer, chunk), m)
                    && write_step(e, max_len, buffer, offset, chunk).0[k] == shifted_match(
                    window_base(max_len, buffer, offset),
                    m,
                ) && (max_len > 1 ==> !((m.1 as int) < buffer.len() && (m.2 as int) <= buffer.len())),
{
    let window = searched_window(max_len, buffer, chunk);
    let skip: int = if max_len <= 1 {
        0
    } else {
        buffer.len() as int
    };
    let base = window_base(max_len, buffer, offset);
    let ms = bytes_hits(e, window);
    let raw = main_search(e.main_contents(), e.kind(), search_bytes_of(window, e.folds()));
    lemma_reported_index_names_pattern(e, patterns, kind, false, window);
    assert(ms =~= raw);
    lemma_window_matches_from(ms, skip, base);
    let r = write_step(e, max_len, buffer, offset, chunk).0;
    assert(r == window_matches(ms, skip, base));
    assert forall|k: int| #![trigger r[k]] 0 <= k < r.len() implies exists|m: Triple|
        #[trigger] names_pattern(patterns, false, window, m) && r[k] == shifted_match(base, m) && (max_len
            > 1 ==> !((m.1 as int) < buffer.len() && (m.2 as int) <= buffer.len())) by {
        assert(kept_match(ms, skip, base, r[k]));
        let i = choose|i: int|
            0 <= i < ms.len() && !((ms[i].1 as int) < skip && (ms[i].2 as int) <= skip) && r[k]
                == shifted_match(base, #[trigger] ms[i]);
        assert(ms[i] == raw[i]);
        assert(names_pattern(patterns, false, window, ms[i]));
    }
}

} // verus!

verus! {

/// A non-empty text has a non-empty UTF-8 encoding.
proof fn lemma_encoding_nonempty(p: Seq<char>)
    requires
        p.len() > 0,
    ensures
        encode_utf8(p).len() > 0,
{
    if encode_utf8(p).len() == 0 {
        encode_utf8_decode_utf8(p);
        assert(encode_utf8(p) =~= Seq::<u8>::empty());
        assert(decode_utf8(encode_utf8(p)) == p);
    }
}

/// What a case-keeping stream searcher built from non-empty patterns reports,
/// while the stream fits `u32` offsets, are occurrences in the stream itself:
/// each match's offsets count from the start of the stream, the bytes written
/// there are the text of the first pattern with that text, whose index the
/// match carries, and the match ends within the chunk just written, so no
/// match is reported by two writes.
pub proof fn lemma_stream_reports_occurrences(
    e: CaseFoldingAC,
    patterns: Seq<String>,
    kind: RawMatchKind,
    max_len: usize,
    buffer: Seq<u8>,
    offset: usize,
    stream: Seq<u8>,
    chunk: Seq<u8>,
)
    requires
        built_from(e, patterns, kind, false),
        forall|k: int| 0 <= k < patterns.len() ==> (#[trigger] patterns[k])@.len() > 0,
        keeps_stream(buffer, offset, stream),
        stream.len() + chunk.len() <= u32::MAX,
    ensures
        forall|k: int|
            #![trigger write_step(e, max_len, buffer, offset, chunk).0[k]]
            0 <= k < write_step(e, max_len, buffer, offset, chunk).0.len() ==> {
                let m = write_step(e, max_len, buffer, offset, chunk).0[k];
                &&& (m.pattern as int) < patterns.len()
                &&& stream.len() < m.end <= stream.len() + chunk.len()
                &&& m.start < m.end
                &&& (stream + chunk).subrange(m.start as int, m.end as int) == encode_utf8(
                    patterns[m.pattern as int]@,
                )
                &&& forall|i: int| 0 <= i < m.pattern ==> (#[trigger] patterns[i])@ != patterns[m.pattern as int]@
            },
{
    let r = write_step(e, max_len, buffer, offset, chunk).0;
    let window = searched_window(max_len, buffer, chunk);
    let base = window_base(max_len, buffer, offset);
    let sc = stream + chunk;
    lemma_write_reports_occurrences(e, patterns, kind, max_len, buffer, offset, chunk);
    lemma_window_in_stream(max_len, buffer, offset, stream, chunk);
    assert forall|k: int| #![trigger r[k]] 0 <= k < r.len() implies {
        let m = r[k];
        &&& (m.pattern as int) < patterns.len()
        &&& stream.len() < m.end <= stream.len() + chunk.len()
        &&& m.start < m.end
        &&& sc.subrange(m.start as int, m.end as int) == encode_utf8(patterns[m.pattern as int]@)
        &&& forall|i: int| 0 <= i < m.pattern ==> (#[trigger] patterns[i])@ != patterns[m.pattern as int]@
    } by {
        let t = choose|t: Triple|
            #[trigger] names_pattern(patterns, false, window, t) && r[k] == shifted_match(base, t) && (max_len > 1
                ==> !((t.1 as int) < buffer.len() && (t.2 as int) <= buffer.len()));
        let p = patterns[t.0 as int]@;
        lemma_encoding_nonempty(p);
        assert(encode_utf8(p) == window.subrange(t.1 as int, t.2 as int));
        assert(t.1 < t.2);
        assert(r[k].start == base + t.1);
        assert(r[k].end == base + t.2);
        assert(sc.subrange(r[k].start as int, r[k].end as int) =~= window.subrange(t.1 as int, t.2 as int));
    }
}

/// Stream searchers built from the same patterns with the same match kind and
/// folding, standing at the same place (the same kept tail and offset), report
/// the same on every chunk and stand at the same place again afterwards. A
/// searcher that was reset or flushed stands where a new one does (nothing kept,
/// offset 0), so from then on it reports what a new one reports, write after
/// write: the bytes written before leave no trace.
pub proof fn lemma_same_position_same_writes(
    used: StreamMatcher,
    fresh: StreamMatcher,
    patterns: Seq<String>,
    kind: RawMatchKind,
    case_insensitive: bool,
    chunk: Seq<u8>,
)
    requires
        built_from(used.engine(), patterns, kind, case_insensitive),
        built_from(fresh.engine(), patterns, kind, case_insensitive),
        used.max_len() == fresh.max_len(),
        used.buffer() == fresh.buffer(),
        used.offset() == fresh.offset(),
    ensures
        write_step(used.engine(), used.max_len(), used.buffer(), used.offset(), chunk) == write_step(
            fresh.engine(),
            fresh.max_len(),
            fresh.buffer(),
            fresh.offset(),
            chunk,
        ),
{
    assert(used.buffer() =~= fresh.buffer());
    assert(bytes_hits(used.engine(), chunk) == bytes_hits(fresh.engine(), chunk));
    assert(bytes_hits(used.engine(), used.buffer() + chunk) == bytes_hits(fresh.engine(), fresh.buffer() + chunk));
}

} // verus!

verus! {

/// Each pattern is no longer than the longest.
proof fn lemma_max_byte_len_bounds(patterns: Seq<String>, k: int)
    requires
        0 <= k < patterns.len(),
    ensures
        encode_utf8(patterns[k]@).len() <= max_byte_len(patterns),
    decreases patterns.len(),
{
    if k < patterns.len() - 1 {
        lemma_max_byte_len_bounds(patterns.drop_last(), k);
        assert(patterns.drop_last()[k] == patterns[k]);
    }
}

/// Skipping continuation bytes stops at the latest at the next byte that is not one.
proof fn lemma_skip_stops(c: Seq<u8>, k: int, j: int)
    requires
        0 <= k <= j < c.len(),
        !is_continuation_byte(c[j]),
    ensures
        skip_continuation(c, k) <= j,
    decreases j - k,
{
    if k < j && is_continuation_byte(c[k]) {
        lemma_skip_stops(c, k + 1, j);
    }
}

/// The UTF-8 encoding of a non-empty text does not start with a continuation byte.
proof fn lemma_encoding_starts_a_char(p: Seq<char>)
    requires
        p.len() > 0,
    ensures
        encode_utf8(p).len() > 0,
        !is_continuation_byte(encode_utf8(p)[0]),
{
    lemma_encoding_nonempty(p);
    let b = encode_utf8(p);
    encode_utf8_valid_utf8(p);
    is_char_boundary_start_end_of_seq(b);
    is_char_boundary_iff_not_is_continuation_byte(b, 0);
}

/// A write's window is the stretch of the stream (followed by the chunk) that
/// starts at the window's base.
proof fn lemma_window_in_stream(max_len: usize, buffer: Seq<u8>, offset: usize, stream: Seq<u8>, chunk: Seq<u8>)
    requires
        keeps_stream(buffer, offset, stream),
        stream.len() + chunk.len() <= u32::MAX,
    ensures
        window_base(max_len, buffer, offset) + searched_window(max_len, buffer, chunk).len() == stream.len()
            + chunk.len(),
        searched_window(max_len, buffer, chunk) == (stream + chunk).subrange(
            window_base(max_len, buffer, offset) as int,
            (stream.len() + chunk.len()) as int,
        ),
        window_base(max_len, buffer, offset) == (if max_len <= 1 {
            stream.len() as int
        } else {
            stream.len() - buffer.len()
        }),
{
    let window = searched_window(max_len, buffer, chunk);
    let base = window_base(max_len, buffer, offset);
    let sc = stream + chunk;
    assert forall|j: int| 0 <= j < window.len() implies #[trigger] window[j] == sc[base + j] by {
        if max_len > 1 && j < buffer.len() {
            assert(window[j] == buffer[j]);
            assert(buffer[j] == stream[stream.len() - buffer.len() + j]);
        }
    }
    assert(window =~= sc.subrange(base as int, sc.len() as int));
}

/// Each match of a window that does not lie wholly within the skipped bytes is
/// reported, shifted.
proof fn lemma_window_matches_keeps(ms: Seq<Triple>, skip: int, base: usize, i: int)
    requires
        0 <= i < ms.len(),
        !((ms[i].1 as int) < skip && (ms[i].2 as int) <= skip),
    ensures
        exists|j: int|
            0 <= j < window_matches(ms, skip, base).len() && #[trigger] window_matches(ms, skip, base)[j]
                == shifted_match(base, ms[i]),
    decreases ms.len(),
{
    let w = window_matches(ms, skip, base);
    let prev = ms.drop_last();
    let wp = window_matches(prev, skip, base);
    if i < ms.len() - 1 {
        assert(prev[i] == ms[i]);
        lemma_window_matches_keeps(prev, skip, base, i);
        let j = choose|j: int| 0 <= j < wp.len() && #[trigger] wp[j] == shifted_match(base, prev[i]);
        assert(w[j] == wp[j]);
    } else {
        assert(w == wp.push(shifted_match(base, ms.last())));
        assert(w[wp.len() as int] == shifted_match(base, ms[i]));
    }
}

/// A match that spans writes is found: when the bytes written to a case-keeping
/// leftmost stream searcher built from non-empty patterns, followed by the
/// chunk, hold one occurrence of a pattern and no other occurrence of any
/// pattern, and that occurrence ends within the chunk, the write reports it at
/// its offsets from the start of the stream, with the index of a pattern with
/// that text (offsets fitting `u32`).
pub proof fn lemma_stream_finds_spanning_match(
    e: CaseFoldingAC,
    patterns: Seq<String>,
    kind: RawMatchKind,
    max_len: usize,
    buffer: Seq<u8>,
    offset: usize,
    stream: Seq<u8>,
    chunk: Seq<u8>,
    k: int,
    s: int,
    t: int,
)
    requires
        built_from(e, patterns, kind, false),
        kind != RawMatchKind::Standard,
        forall|q: int| 0 <= q < patterns.len() ==> (#[trigger] patterns[q])@.len() > 0,
        max_len as int == max_byte_len(patterns),
        keeps_stream(buffer, offset, stream),
        tail_of_stream(buffer, stream, max_len),
        stream.len() + chunk.len() <= u32::MAX,
        0 <= k < patterns.len(),
        0 <= s <= t <= stream.len() + chunk.len(),
        stream.len() < t,
        (stream + chunk).subrange(s, t) == encode_utf8(patterns[k]@),
        forall|q: int, s2: int, t2: int|
            #![trigger (stream + chunk).subrange(s2, t2), patterns[q]]
            0 <= q < patterns.len() && 0 <= s2 <= t2 <= stream.len() + chunk.len() && (stream
                + chunk).subrange(s2, t2) == encode_utf8(patterns[q]@) ==> s2 == s && t2 == t,
    ensures
        exists|j: int|
            0 <= j < write_step(e, max_len, buffer, offset, chunk).0.len() && {
                let m = #[trigger] write_step(e, max_len, buffer, offset, chunk).0[j];
                &&& m.start == s
                &&& m.end == t
                &&& (m.pattern as int) < patterns.len()
                &&& patterns[m.pattern as int]@ == patterns[k]@
            },
{
    let sc = stream + chunk;
    let window = searched_window(max_len, buffer, chunk);
    let base = window_base(max_len, buffer, offset);
    lemma_window_in_stream(max_len, buffer, offset, stream, chunk);
    let pk = patterns[k]@;
    lemma_encoding_starts_a_char(pk);
    lemma_max_byte_len_bounds(patterns, k);
    // The occurrence lies within the window.
    if max_len > 1 {
        let m1 = max_len - 1;
        let a_s = stream.len() - (if m1 < stream.len() { m1 } else { stream.len() as int });
        let cut = skip_continuation(stream, a_s);
        lemma_skip_continuation(stream, a_s);
        assert(buffer == stream.subrange(cut, stream.len() as int));
        assert(base == cut);
        if s < stream.len() {
            assert(sc.subrange(s, t)[0] == sc[s]);
            assert(sc[s] == stream[s]);
            lemma_skip_stops(stream, a_s, s);
        }
    }
    assert(base <= s);
    let ls = s - base;
    let lt = t - base;
    assert(window.subrange(ls, lt) =~= sc.subrange(s, t));
    // The leftmost search of the window starts with an occurrence at or before it.
    let ps = patterns.map_values(|p: String| effective_text(p@, false));
    let tv = pattern_values(patterns, false)->Ok_0;
    let tvb = text_value_bytes(tv);
    lemma_first_occurrences_texts(ps);
    lemma_first_occurrences_indices(ps);
    assert(ps[k] == pk);
    assert(ps.contains(pk));
    let q = choose|q: int| 0 <= q < tv.len() && #[trigger] tv[q].0 == pk;
    assert(tvb[q] == (encode_utf8(tv[q].0), tv[q].1));
    let occ: (u32, usize, usize) = (tv[q].1, ls as usize, lt as usize);
    assert(lt <= window.len());
    assert(occ.1 == ls && occ.2 == lt);
    assert(tvb[q].0 == window.subrange(occ.1 as int, occ.2 as int));
    assert(tvb[q].1 == occ.0);
    assert(is_occurrence(tvb, window, occ));
    let kb = kind_byte(kind);
    assert(searches_sound(tvb, kb));
    let lm = leftmost_matches(built_image(tvb, kb), window);
    assert(lm.len() > 0 && lm[0].1 <= occ.1);
    assert(e.main_contents() == Some(built_image(tvb, kb)));
    assert(search_bytes_of(window, e.folds()) == window);
    assert(main_search(e.main_contents(), e.kind(), window) == lm);
    // That first match is an occurrence in the stream, so it is this one.
    assert(occurrences_of(tvb, window, lm));
    let m0 = lm[0];
    assert(is_occurrence(tvb, window, m0));
    let q2 = choose|q2: int|
        0 <= q2 < tvb.len() && #[trigger] tvb[q2].1 == m0.0 && tvb[q2].0 == window.subrange(m0.1 as int, m0.2 as int);
    assert(tvb[q2] == (encode_utf8(tv[q2].0), tv[q2].1));
    let v = tv[q2].1 as int;
    assert(ps[v] == tv[q2].0);
    assert(ps[v] == patterns[v]@);
    assert(sc.subrange(base + m0.1, base + m0.2) =~= window.subrange(m0.1 as int, m0.2 as int));
    assert(sc.subrange(base + m0.1, base + m0.2) == encode_utf8(patterns[v]@));
    assert(base + m0.1 == s && base + m0.2 == t);
    encode_utf8_decode_utf8(patterns[v]@);
    encode_utf8_decode_utf8(pk);
    assert(patterns[v]@ == pk);
    // It is reported.
    let ms = bytes_hits(e, window);
    assert(ms[0] == (m0.0, m0.1, m0.2));
    let skip: int = if max_len <= 1 {
        0
    } else {
        buffer.len() as int
    };
    assert(write_step(e, max_len, buffer, offset, chunk).0 == window_matches(ms, skip, base));
    lemma_window_matches_keeps(ms, skip, base, 0);
    let r = write_step(e, max_len, buffer, offset, chunk).0;
    let j = choose|j: int| 0 <= j < r.len() && #[trigger] r[j] == shifted_match(base, ms[0]);
    assert(r[j].start == s && r[j].end == t);
}

} // verus!

verus! {

/// A stream searcher finds each of its patterns in the pattern's own text:
/// when nothing is kept from earlier writes (a new, reset or flushed stream),
/// writing a chunk that is exactly the UTF-8 text of one of the patterns
/// reports a match, whether or not matching ignores case (a pattern is searched
/// for as the stream is searched, folded alike; the searched bytes fitting
/// `usize`).
pub proof fn lemma_stream_finds_pattern_text(
    e: CaseFoldingAC,
    patterns: Seq<String>,
    kind: RawMatchKind,
    case_insensitive: bool,
    max_len: usize,
    buffer: Seq<u8>,
    offset: usize,
    chunk: Seq<u8>,
    k: int,
)
    requires
        built_from(e, patterns, kind, case_insensitive),
        kind != RawMatchKind::Standard,
        buffer.len() == 0,
        0 <= k < patterns.len(),
        chunk == encode_utf8(patterns[k]@),
        search_bytes_of(chunk, case_insensitive).len() <= usize::MAX,
    ensures
        write_step(e, max_len, buffer, offset, chunk).0.len() > 0,
{
    let window = searched_window(max_len, buffer, chunk);
    assert(window =~= chunk);
    let pk = patterns[k]@;
    encode_utf8_valid_utf8(pk);
    encode_utf8_decode_utf8(pk);
    let hay = search_bytes_of(window, case_insensitive);
    assert(hay == encode_utf8(effective_text(pk, case_insensitive)));
    let ps = patterns.map_values(|p: String| effective_text(p@, case_insensitive));
    let tv = pattern_values(patterns, case_insensitive)->Ok_0;
    let tvb = text_value_bytes(tv);
    lemma_first_occurrences_texts(ps);
    assert(ps[k] == effective_text(pk, case_insensitive));
    assert(ps.contains(ps[k]));
    let q = choose|q: int| 0 <= q < tv.len() && #[trigger] tv[q].0 == ps[k];
    assert(tvb[q] == (encode_utf8(tv[q].0), tv[q].1));
    let occ: (u32, usize, usize) = (tv[q].1, 0usize, hay.len() as usize);
    assert(hay.subrange(0, hay.len() as int) =~= hay);
    assert(tvb[q].0 == hay.subrange(occ.1 as int, occ.2 as int));
    assert(tvb[q].1 == occ.0);
    assert(is_occurrence(tvb, hay, occ));
    let kb = kind_byte(kind);
    assert(searches_sound(tvb, kb));
    assert(leftmost_matches(built_image(tvb, kb), hay).len() > 0);
    assert(e.main_contents() == Some(built_image(tvb, kb)));
    let ms = bytes_hits(e, window);
    assert(ms.len() > 0);
    let skip: int = if max_len <= 1 {
        0
    } else {
        buffer.len() as int
    };
    let base = window_base(max_len, buffer, offset);
    assert(write_step(e, max_len, buffer, offset, chunk).0 == window_matches(ms, skip, base));
    lemma_window_matches_keeps(ms, skip, base, 0);
}

} // verus!
