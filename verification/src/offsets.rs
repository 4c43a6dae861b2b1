//! Translating the byte offsets of overlapping matches into UTF-16 offsets in
//! one pass over the haystack: the distinct offsets are sorted, the haystack's
//! characters are walked once, and each offset reached at a character boundary
//! records the UTF-16 offset there.
use vstd::prelude::*;
use vstd::relations::*;
use vstd::seq_lib::*;
use vstd::string::*;
use vstd::utf8::*;
use crate::pack::{Triple, pack_plain, pack_utf16_exact};
use crate::sort::{TotalOrder, merge_sort, order};
use crate::text::{
    char_len_utf8, lemma_encode_utf8_concat, lemma_encode_utf8_prefix_len, lemma_encode_utf8_push, utf8_width,
};
use crate::utf16::{char_utf16_len, clamp_u32, lemma_utf16_len_concat, utf16_len, utf16_prefix, utf16_units};

verus! {

broadcast use {vstd::string::group_string_axioms, vstd::seq_lib::group_to_multiset_ensures};

/// The start and end offsets of the matches, in order.
pub open spec fn all_offsets(ms: Seq<Triple>) -> Seq<usize>
    decreases ms.len(),
{
    if ms.len() == 0 {
        seq![]
    } else {
        all_offsets(ms.drop_last()).push(ms.last().1).push(ms.last().2)
    }
}

/// A sorted sequence with adjacent repeats removed.
pub open spec fn dedup_sorted(s: Seq<usize>) -> Seq<usize>
    decreases s.len(),
{
    if s.len() == 0 {
        seq![]
    } else {
        let prev = dedup_sorted(s.drop_last());
        if prev.len() > 0 && prev.last() == s.last() {
            prev
        } else {
            prev.push(s.last())
        }
    }
}

/// The distinct match offsets in increasing order.
pub open spec fn unique_offsets(ms: Seq<Triple>) -> Seq<usize> {
    dedup_sorted(all_offsets(ms).sort_by(order::<usize>()))
}

/// The index after the run of queued offsets equal to `byte` that starts at `k`.
pub open spec fn drain_from(q: Seq<usize>, k: int, byte: int) -> int
    decreases q.len() - k,
{
    if 0 <= k < q.len() && q[k] == byte {
        drain_from(q, k + 1, byte)
    } else {
        k
    }
}

/// Walks the characters with a queue of sorted offsets: before each character,
/// every queued offset equal to the character's byte offset is taken off the
/// front of the queue with the UTF-16 offset there. Gives how many offsets were
/// taken, their UTF-16 offsets, and the byte and UTF-16 offsets reached.
pub open spec fn offset_walk(cs: Seq<char>, q: Seq<usize>) -> (int, Seq<u32>, int, u32)
    decreases cs.len(),
{
    if cs.len() == 0 {
        (0, seq![], 0, 0)
    } else {
        let w = offset_walk(cs.drop_last(), q);
        let d = drain_from(q, w.0, w.2);
        (
            d,
            w.1 + Seq::new((d - w.0) as nat, |j: int| w.3),
            w.2 + utf8_width(cs.last()),
            clamp_u32(w.3 + utf16_units(cs.last())),
        )
    }
}

/// The UTF-16 offsets recorded for the queued offsets, after the walk and a
/// last round at the end of the text.
pub open spec fn offset_values(cs: Seq<char>, q: Seq<usize>) -> Seq<u32> {
    let w = offset_walk(cs, q);
    let d = drain_from(q, w.0, w.2);
    w.1 + Seq::new((d - w.0) as nat, |j: int| w.3)
}

/// The UTF-16 offset recorded for a byte offset, or 0 when none was recorded.
pub open spec fn lookup_utf16(q: Seq<usize>, vals: Seq<u32>, b: usize) -> u32 {
    if exists|k: int| 0 <= k < vals.len() && k < q.len() && q[k] == b {
        vals[choose|k: int| 0 <= k < vals.len() && k < q.len() && q[k] == b]
    } else {
        0
    }
}

/// The matches packed with their offsets looked up.
pub open spec fn pack_looked_up(q: Seq<usize>, vals: Seq<u32>, ms: Seq<Triple>) -> Seq<u32>
    decreases ms.len(),
{
    if ms.len() == 0 {
        seq![]
    } else {
        pack_looked_up(q, vals, ms.drop_last()) + seq![
            ms.last().0,
            lookup_utf16(q, vals, ms.last().1),
            lookup_utf16(q, vals, ms.last().2),
        ]
    }
}

/// Overlapping matches packed in UTF-16 offsets (byte offsets on ASCII text).
pub open spec fn overlapping_packed(haystack: &str, ms: Seq<Triple>) -> Seq<u32> {
    if is_ascii(haystack) {
        pack_plain(ms)
    } else if ms.len() == 0 {
        seq![]
    } else {
        let q = unique_offsets(ms);
        pack_looked_up(q, offset_values(haystack@, q), ms)
    }
}

/// Whether a sequence increases strictly.
pub open spec fn strictly_increasing(s: Seq<usize>) -> bool {
    forall|i: int, j: int| 0 <= i < j < s.len() ==> s[i] < s[j]
}

/// Removes adjacent repeats from a sorted vector.
pub(crate) fn dedup_offsets(sorted: &Vec<usize>) -> (r: Vec<usize>)
    requires
        sorted_by(sorted@, order::<usize>()),
    ensures
        r@ == dedup_sorted(sorted@),
        strictly_increasing(r@),
{
    let mut out: Vec<usize> = Vec::new();
    let n = sorted.len();
    let mut i: usize = 0;
    while i < n
        invariant
            n == sorted@.len(),
            0 <= i <= n,
            sorted_by(sorted@, order::<usize>()),
            out@ == dedup_sorted(sorted@.take(i as int)),
            strictly_increasing(out@),
            out@.len() > 0 ==> out@.last() == sorted@[i - 1],
            out@.len() > 0 ==> i > 0,
            i > 0 ==> out@.len() > 0,
        decreases n - i,
    {
        let v = sorted[i];
        proof {
            assert(sorted@.take(i + 1).drop_last() =~= sorted@.take(i as int));
            if i > 0 {
                assert(order::<usize>()(sorted@[i - 1], sorted@[i as int]));
            }
        }
        if out.len() > 0 && out[out.len() - 1] == v {
        } else {
            out.push(v);
        }
        i = i + 1;
    }
    proof {
        assert(sorted@.take(n as int) =~= sorted@);
    }
    out
}

/// Finds a value's index in a strictly increasing vector.
pub(crate) fn find_offset(q: &Vec<usize>, b: usize) -> (r: Option<usize>)
    requires
        strictly_increasing(q@),
    ensures
        match r {
            Some(k) => k < q@.len() && q@[k as int] == b,
            None => forall|k: int| 0 <= k < q@.len() ==> q@[k] != b,
        },
{
    let mut lo: usize = 0;
    let mut hi: usize = q.len();
    while lo < hi
        invariant
            0 <= lo <= hi <= q@.len(),
            strictly_increasing(q@),
            forall|k: int| 0 <= k < lo ==> q@[k] < b,
            forall|k: int| hi <= k < q@.len() ==> q@[k] > b,
        decreases hi - lo,
    {
        let mid = lo + (hi - lo) / 2;
        let v = q[mid];
        if v == b {
            return Some(mid);
        } else if v < b {
            lo = mid + 1;
        } else {
            hi = mid;
        }
    }
    None
}

} // verus!

verus! {

/// `drain_from` stays within the queue and never moves backwards.
pub proof fn lemma_drain_bounds(q: Seq<usize>, k: int, byte: int)
    requires
        0 <= k <= q.len(),
    ensures
        k <= drain_from(q, k, byte) <= q.len(),
    decreases q.len() - k,
{
    if 0 <= k < q.len() && q[k] == byte {
        lemma_drain_bounds(q, k + 1, byte);
    }
}

/// Takes the run of queued offsets equal to `byte` off the queue, recording `utf16` for each.
fn drain_queue(q: &Vec<usize>, k: &mut usize, vals: &mut Vec<u32>, byte: usize, utf16: u32)
    requires
        *old(k) <= q@.len(),
    ensures
        *final(k) as int == drain_from(q@, *old(k) as int, byte as int),
        final(vals)@ == old(vals)@ + Seq::new((*final(k) - *old(k)) as nat, |j: int| utf16),
        *final(k) <= q@.len(),
        *old(k) <= *final(k),
        final(vals)@.len() == old(vals)@.len() + (*final(k) - *old(k)),
{
    let ghost k0 = *k;
    let ghost base = vals@;
    proof {
        lemma_drain_bounds(q@, k0 as int, byte as int);
    }
    while *k < q.len() && q[*k] == byte
        invariant
            k0 <= *k <= q@.len(),
            drain_from(q@, *k as int, byte as int) == drain_from(q@, k0 as int, byte as int),
            vals@ == base + Seq::new((*k - k0) as nat, |j: int| utf16),
        decreases q@.len() - *k,
    {
        vals.push(utf16);
        *k = *k + 1;
        assert(vals@ =~= base + Seq::new((*k - k0) as nat, |j: int| utf16));
    }
}

/// The UTF-16 offsets recorded for sorted queued offsets in one walk over the haystack.
pub fn utf16_offset_values(haystack: &str, q: &Vec<usize>) -> (r: Vec<u32>)
    ensures
        r@ == offset_values(haystack@, q@),
        r@.len() <= q@.len(),
{
    let mut vals: Vec<u32> = Vec::new();
    let mut k: usize = 0;
    let mut byte_idx: usize = 0;
    let mut utf16_idx: u32 = 0;
    let total = haystack.as_bytes().len();
    for ch in it: haystack.chars()
        invariant
            it.seq() == haystack@,
            total == encode_utf8(haystack@).len(),
            offset_walk(haystack@.take(it.index() as int), q@) == (k as int, vals@, byte_idx as int, utf16_idx),
            byte_idx == encode_utf8(haystack@.take(it.index() as int)).len(),
            k <= q@.len(),
            vals@.len() == k,
    {
        let ghost i = it.index() as int;
        let ghost prev = haystack@.take(i);
        proof {
            assert(haystack@.take(i + 1).drop_last() =~= prev);
            assert(haystack@.take(i + 1) =~= prev.push(ch));
            lemma_encode_utf8_push(prev, ch);
            lemma_encode_utf8_prefix_len(haystack@, i + 1);
        }
        drain_queue(q, &mut k, &mut vals, byte_idx, utf16_idx);
        byte_idx = byte_idx + char_len_utf8(ch);
        utf16_idx = utf16_idx.saturating_add(char_utf16_len(ch));
    }
    proof {
        assert(haystack@.take(haystack@.len() as int) =~= haystack@);
    }
    drain_queue(q, &mut k, &mut vals, total, utf16_idx);
    vals
}

/// The UTF-16 offset recorded for a byte offset, or 0.
pub(crate) fn lookup(q: &Vec<usize>, vals: &Vec<u32>, b: usize) -> (r: u32)
    requires
        strictly_increasing(q@),
    ensures
        r == lookup_utf16(q@, vals@, b),
{
    match find_offset(q, b) {
        Some(k) => {
            if k < vals.len() {
                proof {
                    let c = choose|c: int| 0 <= c < vals@.len() && c < q@.len() && q@[c] == b;
                    if c != k {
                        if c < k {
                            assert(q@[c] < q@[k as int]);
                        } else {
                            assert(q@[k as int] < q@[c]);
                        }
                    }
                }
                vals[k]
            } else {
                proof {
                    if exists|c: int| 0 <= c < vals@.len() && c < q@.len() && q@[c] == b {
                        let c = choose|c: int| 0 <= c < vals@.len() && c < q@.len() && q@[c] == b;
                        if c < k {
                            assert(q@[c] < q@[k as int]);
                        }
                    }
                }
                0
            }
        },
        None => 0,
    }
}

/// Packs matches with their offsets looked up.
pub(crate) fn pack_with_lookup(q: &Vec<usize>, vals: &Vec<u32>, ms: &Vec<crate::select::ByteMatchCandidate>) -> (r: Vec<u32>)
    requires
        strictly_increasing(q@),
    ensures
        r@ == pack_looked_up(q@, vals@, crate::pack::candidate_triples(ms@)),
{
    let ghost ts = crate::pack::candidate_triples(ms@);
    let mut packed: Vec<u32> = Vec::new();
    let n = ms.len();
    let mut i: usize = 0;
    while i < n
        invariant
            n == ms@.len(),
            0 <= i <= n,
            strictly_increasing(q@),
            ts == crate::pack::candidate_triples(ms@),
            packed@ == pack_looked_up(q@, vals@, ts.take(i as int)),
        decreases n - i,
    {
        let m = ms[i];
        let ghost before = packed@;
        packed.push(m.pattern);
        packed.push(lookup(q, vals, m.start));
        packed.push(lookup(q, vals, m.end));
        proof {
            assert(ts.take(i + 1).drop_last() =~= ts.take(i as int));
            assert(ts[i as int] == m.triple());
            assert(packed@ =~= before + seq![m.pattern, lookup_utf16(q@, vals@, m.start), lookup_utf16(q@, vals@, m.end)]);
        }
        i = i + 1;
    }
    proof {
        assert(ts.take(n as int) =~= ts);
    }
    packed
}

/// The start and end offsets of candidates, in order.
pub fn candidate_offsets(ms: &Vec<crate::select::ByteMatchCandidate>) -> (r: Vec<usize>)
    ensures
        r@ == all_offsets(crate::pack::candidate_triples(ms@)),
{
    let ghost ts = crate::pack::candidate_triples(ms@);
    let mut offsets: Vec<usize> = Vec::new();
    let n = ms.len();
    let mut i: usize = 0;
    while i < n
        invariant
            n == ms@.len(),
            0 <= i <= n,
            ts == crate::pack::candidate_triples(ms@),
            offsets@ == all_offsets(ts.take(i as int)),
        decreases n - i,
    {
        let m = ms[i];
        offsets.push(m.start);
        offsets.push(m.end);
        proof {
            assert(ts.take(i + 1).drop_last() =~= ts.take(i as int));
            assert(ts[i as int] == m.triple());
        }
        i = i + 1;
    }
    proof {
        assert(ts.take(n as int) =~= ts);
    }
    offsets
}

/// Sorts offsets and removes repeats.
pub fn sorted_unique_offsets(offsets: &Vec<usize>) -> (r: Vec<usize>)
    ensures
        r@ == dedup_sorted(offsets@.sort_by(order::<usize>())),
        strictly_increasing(r@),
{
    let sorted = merge_sort(offsets.as_slice());
    proof {
        usize::lemma_total_order();
        offsets@.lemma_sort_by_ensures(order::<usize>());
        lemma_sorted_unique(sorted@, offsets@.sort_by(order::<usize>()), order::<usize>());
    }
    dedup_offsets(&sorted)
}

} // verus!

verus! {

/// Whether `x` is the byte offset of a character start in `cs`, or its end.
pub open spec fn char_offset(cs: Seq<char>, x: int) -> bool {
    exists|j: int| 0 <= j <= cs.len() && x == #[trigger] encode_utf8(cs.take(j)).len()
}

/// Character offsets grow strictly with the number of characters before them.
pub proof fn lemma_char_offsets_increase(cs: Seq<char>, j1: int, j2: int)
    requires
        0 <= j1 < j2 <= cs.len(),
    ensures
        encode_utf8(cs.take(j1)).len() < encode_utf8(cs.take(j2)).len(),
{
    crate::text::lemma_encode_utf8_proper_prefix(cs.take(j2), j1);
    assert(cs.take(j2).take(j1) =~= cs.take(j1));
}

/// The UTF-16 length of a prefix is no more than that of the whole.
proof fn lemma_utf16_len_prefix(cs: Seq<char>, i: int)
    requires
        0 <= i <= cs.len(),
    ensures
        utf16_len(cs.take(i)) <= utf16_len(cs),
{
    lemma_utf16_len_concat(cs.take(i), cs.skip(i));
    assert(cs.take(i) + cs.skip(i) =~= cs);
}

/// The offsets taken by a drain are those equal to `byte` from `k` on, and the
/// first one left, if any, differs.
proof fn lemma_drain_run(q: Seq<usize>, k: int, byte: int)
    requires
        0 <= k <= q.len(),
    ensures
        k <= drain_from(q, k, byte) <= q.len(),
        forall|x: int| k <= x < drain_from(q, k, byte) ==> q[x] == byte,
        drain_from(q, k, byte) < q.len() ==> q[drain_from(q, k, byte)] != byte,
    decreases q.len() - k,
{
    if 0 <= k < q.len() && q[k] == byte {
        lemma_drain_run(q, k + 1, byte);
    }
}

/// Walking the first `i` characters with a queue of strictly increasing
/// character offsets takes off exactly the offsets before the position
/// reached, each recorded with the UTF-16 length of the text before it.
proof fn lemma_offset_walk(cs: Seq<char>, q: Seq<usize>, i: int)
    requires
        strictly_increasing(q),
        forall|k: int| 0 <= k < q.len() ==> char_offset(cs, #[trigger] q[k] as int),
        0 <= i <= cs.len(),
        utf16_len(cs) <= u32::MAX,
    ensures
        offset_walk(cs.take(i), q).2 == encode_utf8(cs.take(i)).len(),
        offset_walk(cs.take(i), q).3 == utf16_len(cs.take(i)),
        0 <= offset_walk(cs.take(i), q).0 <= q.len(),
        offset_walk(cs.take(i), q).1.len() == offset_walk(cs.take(i), q).0,
        forall|k: int|
            0 <= k < offset_walk(cs.take(i), q).0 ==> (q[k] as int) < encode_utf8(cs.take(i)).len(),
        forall|k: int|
            offset_walk(cs.take(i), q).0 <= k < q.len() ==> (q[k] as int) >= encode_utf8(
                cs.take(i),
            ).len(),
        forall|k: int, j: int|
            #![trigger offset_walk(cs.take(i), q).1[k], encode_utf8(cs.take(j))]
            0 <= k < offset_walk(cs.take(i), q).0 && 0 <= j <= cs.len() && q[k] == encode_utf8(
                cs.take(j),
            ).len() ==> offset_walk(cs.take(i), q).1[k] == utf16_len(cs.take(j)),
    decreases i,
{
    let w = offset_walk(cs.take(i), q);
    if i == 0 {
        assert(cs.take(0) =~= Seq::<char>::empty());
    } else {
        let prev = cs.take(i - 1);
        let c = cs[i - 1];
        assert(cs.take(i).drop_last() =~= prev);
        assert(cs.take(i) =~= prev.push(c));
        lemma_offset_walk(cs, q, i - 1);
        let wp = offset_walk(prev, q);
        let p0 = encode_utf8(prev).len() as int;
        lemma_encode_utf8_push(prev, c);
        let p1 = encode_utf8(cs.take(i)).len() as int;
        assert(p1 == p0 + utf8_width(c));
        assert(utf8_width(c) >= 1);
        lemma_utf16_len_prefix(cs, i);
        assert(utf16_len(cs.take(i)) == utf16_len(prev) + utf16_units(c));
        let d = drain_from(q, wp.0, wp.2);
        lemma_drain_run(q, wp.0, wp.2);
        assert(w.0 == d);
        assert forall|k: int| d <= k < q.len() implies (q[k] as int) >= p1 by {
            assert(q[d] as int >= p0);
            assert(q[d] as int != p0);
            assert(char_offset(cs, q[d] as int));
            let j = choose|j: int| 0 <= j <= cs.len() && q[d] as int == #[trigger] encode_utf8(cs.take(j)).len();
            if j <= i - 1 {
                if j < i - 1 {
                    lemma_char_offsets_increase(cs, j, i - 1);
                }
                assert(false);
            }
            if j > i {
                lemma_char_offsets_increase(cs, i, j);
            }
            if k > d {
                assert(q[d] < q[k]);
            }
        }
        assert forall|k: int, j: int|
            #![trigger w.1[k], encode_utf8(cs.take(j))]
            0 <= k < w.0 && 0 <= j <= cs.len() && q[k] == encode_utf8(cs.take(j)).len() implies w.1[k]
                == utf16_len(cs.take(j)) by {
            if k < wp.0 {
                assert(w.1[k] == wp.1[k]);
            } else {
                assert(q[k] as int == p0);
                if j < i - 1 {
                    lemma_char_offsets_increase(cs, j, i - 1);
                } else if j > i - 1 {
                    lemma_char_offsets_increase(cs, i - 1, j);
                }
                assert(j == i - 1);
            }
        }
    }
}

} // verus!

verus! {

/// After the walk and the last round at the end of the text, every queued
/// character offset has a value: the UTF-16 length of the text before it.
proof fn lemma_offset_values(cs: Seq<char>, q: Seq<usize>)
    requires
        strictly_increasing(q),
        forall|k: int| 0 <= k < q.len() ==> char_offset(cs, #[trigger] q[k] as int),
        utf16_len(cs) <= u32::MAX,
    ensures
        offset_values(cs, q).len() == q.len(),
        forall|k: int, j: int|
            #![trigger offset_values(cs, q)[k], encode_utf8(cs.take(j))]
            0 <= k < q.len() && 0 <= j <= cs.len() && q[k] == encode_utf8(cs.take(j)).len()
                ==> offset_values(cs, q)[k] == utf16_len(cs.take(j)),
{
    let n = cs.len() as int;
    lemma_offset_walk(cs, q, n);
    assert(cs.take(n) =~= cs);
    let w = offset_walk(cs, q);
    let total = encode_utf8(cs).len() as int;
    let d = drain_from(q, w.0, w.2);
    lemma_drain_run(q, w.0, w.2);
    if d < q.len() {
        assert(char_offset(cs, q[d] as int));
        let j = choose|j: int| 0 <= j <= cs.len() && q[d] as int == #[trigger] encode_utf8(cs.take(j)).len();
        if j < n {
            lemma_char_offsets_increase(cs, j, n);
        }
        assert(false);
    }
    let vals = offset_values(cs, q);
    assert forall|k: int, j: int|
        #![trigger vals[k], encode_utf8(cs.take(j))]
        0 <= k < q.len() && 0 <= j <= cs.len() && q[k] == encode_utf8(cs.take(j)).len() implies vals[k]
            == utf16_len(cs.take(j)) by {
        if k < w.0 {
            assert(vals[k] == w.1[k]);
        } else {
            assert(q[k] as int == total);
            if j < n {
                lemma_char_offsets_increase(cs, j, n);
            }
        }
    }
}

/// A sequence with one more element holds what the shorter one holds and that element.
proof fn lemma_push_contains(s: Seq<usize>, v: usize, x: usize)
    ensures
        s.push(v).contains(x) <==> s.contains(x) || x == v,
{
    let t = s.push(v);
    if t.contains(x) {
        let i = choose|i: int| 0 <= i < t.len() && t[i] == x;
        if i < s.len() {
            assert(s[i] == x);
        }
    }
    if s.contains(x) {
        let i = choose|i: int| 0 <= i < s.len() && s[i] == x;
        assert(t[i] == x);
    }
    if x == v {
        assert(t[s.len() as int] == x);
    }
}

/// A sequence with adjacent repeats removed from the end holds the same values.
proof fn lemma_dedup_sorted_contains(s: Seq<usize>)
    ensures
        forall|x: usize| #[trigger] dedup_sorted(s).contains(x) <==> s.contains(x),
    decreases s.len(),
{
    if s.len() > 0 {
        let prev = s.drop_last();
        let v = s.last();
        lemma_dedup_sorted_contains(prev);
        assert(s =~= prev.push(v));
        let dp = dedup_sorted(prev);
        assert forall|x: usize| #[trigger] dedup_sorted(s).contains(x) <==> s.contains(x) by {
            lemma_push_contains(prev, v, x);
            if dp.len() > 0 && dp.last() == v {
                assert(dp[dp.len() - 1] == v);
                assert(dp.contains(v));
            } else {
                lemma_push_contains(dp, v, x);
            }
        }
    }
}

/// The offsets of matches are their starts and ends.
proof fn lemma_all_offsets_contains(ms: Seq<Triple>)
    ensures
        forall|x: usize|
            #[trigger] all_offsets(ms).contains(x) ==> exists|k: int|
                0 <= k < ms.len() && (ms[k].1 == x || ms[k].2 == x),
        forall|k: int|
            #![trigger ms[k]]
            0 <= k < ms.len() ==> all_offsets(ms).contains(ms[k].1) && all_offsets(ms).contains(ms[k].2),
    decreases ms.len(),
{
    if ms.len() > 0 {
        let prev = ms.drop_last();
        lemma_all_offsets_contains(prev);
        let a = all_offsets(ms);
        let ap = all_offsets(prev);
        assert(a == ap.push(ms.last().1).push(ms.last().2));
        assert forall|x: usize| #[trigger] a.contains(x) implies exists|k: int|
            0 <= k < ms.len() && (ms[k].1 == x || ms[k].2 == x) by {
            let i = choose|i: int| 0 <= i < a.len() && a[i] == x;
            if i < ap.len() {
                assert(ap[i] == x);
                assert(ap.contains(x));
                let k = choose|k: int| 0 <= k < prev.len() && (prev[k].1 == x || prev[k].2 == x);
                assert(ms[k] == prev[k]);
            } else {
                assert(ms[ms.len() - 1] == ms.last());
            }
        }
        assert forall|k: int| #![trigger ms[k]] 0 <= k < ms.len() implies a.contains(ms[k].1) && a.contains(ms[k].2) by {
            if k < prev.len() {
                assert(ms[k] == prev[k]);
                assert(ap.contains(prev[k].1) && ap.contains(prev[k].2));
                let i1 = choose|i: int| 0 <= i < ap.len() && ap[i] == prev[k].1;
                let i2 = choose|i: int| 0 <= i < ap.len() && ap[i] == prev[k].2;
                assert(a[i1] == ms[k].1);
                assert(a[i2] == ms[k].2);
            } else {
                assert(a[a.len() - 2] == ms[k].1);
                assert(a[a.len() - 1] == ms[k].2);
            }
        }
    }
}

/// The distinct offsets hold exactly the matches' starts and ends.
proof fn lemma_unique_offsets(ms: Seq<Triple>)
    ensures
        strictly_increasing(unique_offsets(ms)),
        forall|x: usize|
            #[trigger] unique_offsets(ms).contains(x) ==> exists|k: int|
                0 <= k < ms.len() && (ms[k].1 == x || ms[k].2 == x),
        forall|k: int|
            #![trigger ms[k]]
            0 <= k < ms.len() ==> unique_offsets(ms).contains(ms[k].1) && unique_offsets(ms).contains(
                ms[k].2,
            ),
{
    let leq = order::<usize>();
    usize::lemma_total_order();
    let a = all_offsets(ms);
    a.lemma_sort_by_ensures(leq);
    let s = a.sort_by(leq);
    lemma_all_offsets_contains(ms);
    lemma_dedup_sorted_contains(s);
    assert forall|x: usize| #[trigger] s.contains(x) <==> a.contains(x) by {
        assert(s.to_multiset().count(x) == a.to_multiset().count(x));
    }
    lemma_dedup_sorted_increasing(s);
}

/// Removing repeats from a sorted sequence leaves it strictly increasing.
proof fn lemma_dedup_sorted_increasing(s: Seq<usize>)
    requires
        sorted_by(s, order::<usize>()),
    ensures
        strictly_increasing(dedup_sorted(s)),
        dedup_sorted(s).len() > 0 ==> dedup_sorted(s).last() == s.last(),
    decreases s.len(),
{
    if s.len() > 0 {
        let prev = s.drop_last();
        assert(sorted_by(prev, order::<usize>())) by {
            assert forall|i: int, j: int| 0 <= i < j < prev.len() implies order::<usize>()(prev[i], prev[j]) by {
                assert(prev[i] == s[i] && prev[j] == s[j]);
            }
        }
        lemma_dedup_sorted_increasing(prev);
        if prev.len() > 0 {
            assert(order::<usize>()(s[s.len() - 2], s[s.len() - 1]));
        }
    }
}

} // verus!

verus! {

/// The UTF-16 length before a character offset is that of the characters before it.
proof fn lemma_utf16_prefix_at_char(cs: Seq<char>, j: int)
    requires
        0 <= j <= cs.len(),
    ensures
        utf16_prefix(encode_utf8(cs), encode_utf8(cs.take(j)).len() as int) == utf16_len(cs.take(j)),
{
    lemma_encode_utf8_concat(cs.take(j), cs.skip(j));
    assert(cs.take(j) + cs.skip(j) =~= cs);
    let b = encode_utf8(cs);
    assert(b.subrange(0, encode_utf8(cs.take(j)).len() as int) =~= encode_utf8(cs.take(j)));
    encode_utf8_decode_utf8(cs.take(j));
}

/// Packing with offsets as they are gives the exact UTF-16 offsets when each
/// offset equals the UTF-16 length before it.
proof fn lemma_pack_plain_exact(b: Seq<u8>, ms: Seq<Triple>)
    requires
        forall|k: int|
            #![trigger ms[k]]
            0 <= k < ms.len() ==> clamp_u32(ms[k].1 as int) == utf16_prefix(b, ms[k].1 as int) as u32
                && clamp_u32(ms[k].2 as int) == utf16_prefix(b, ms[k].2 as int) as u32,
    ensures
        pack_plain(ms) == pack_utf16_exact(b, ms),
    decreases ms.len(),
{
    if ms.len() > 0 {
        let prev = ms.drop_last();
        assert forall|k: int| #![trigger prev[k]] 0 <= k < prev.len() implies clamp_u32(prev[k].1 as int)
            == utf16_prefix(b, prev[k].1 as int) as u32 && clamp_u32(prev[k].2 as int) == utf16_prefix(
            b,
            prev[k].2 as int,
        ) as u32 by {
            assert(prev[k] == ms[k]);
        }
        lemma_pack_plain_exact(b, prev);
        assert(ms[ms.len() - 1] == ms.last());
    }
}

/// Packing with looked-up offsets gives the exact UTF-16 offsets when each
/// lookup gives the UTF-16 length before the offset.
proof fn lemma_pack_looked_up_exact(q: Seq<usize>, vals: Seq<u32>, b: Seq<u8>, ms: Seq<Triple>)
    requires
        forall|k: int|
            #![trigger ms[k]]
            0 <= k < ms.len() ==> lookup_utf16(q, vals, ms[k].1) == utf16_prefix(b, ms[k].1 as int) as u32
                && lookup_utf16(q, vals, ms[k].2) == utf16_prefix(b, ms[k].2 as int) as u32,
    ensures
        pack_looked_up(q, vals, ms) == pack_utf16_exact(b, ms),
    decreases ms.len(),
{
    if ms.len() > 0 {
        let prev = ms.drop_last();
        assert forall|k: int| #![trigger prev[k]] 0 <= k < prev.len() implies lookup_utf16(q, vals, prev[k].1)
            == utf16_prefix(b, prev[k].1 as int) as u32 && lookup_utf16(q, vals, prev[k].2) == utf16_prefix(
            b,
            prev[k].2 as int,
        ) as u32 by {
            assert(prev[k] == ms[k]);
        }
        lemma_pack_looked_up_exact(q, vals, b, prev);
        assert(ms[ms.len() - 1] == ms.last());
    }
}

/// Overlapping matches are packed in exact UTF-16 offsets: when every match
/// offset lies at a character boundary of a text whose UTF-16 length fits
/// `u32`, each reported offset, whether looked up from the one walk over the
/// text or (on ASCII text) taken as it is, is the number of UTF-16 code units
/// before it.
pub proof fn lemma_overlapping_packed_exact(haystack: &str, ms: Seq<Triple>)
    requires
        forall|k: int|
            #![trigger ms[k]]
            0 <= k < ms.len() ==> char_offset(haystack@, ms[k].1 as int) && char_offset(
                haystack@,
                ms[k].2 as int,
            ),
        utf16_len(haystack@) <= u32::MAX,
    ensures
        overlapping_packed(haystack, ms) == pack_utf16_exact(haystack.spec_bytes(), ms),
{
    let cs = haystack@;
    let b = haystack.spec_bytes();
    if is_ascii(haystack) {
        assert forall|k: int| #![trigger ms[k]] 0 <= k < ms.len() implies clamp_u32(ms[k].1 as int)
            == utf16_prefix(b, ms[k].1 as int) as u32 && clamp_u32(ms[k].2 as int) == utf16_prefix(
            b,
            ms[k].2 as int,
        ) as u32 by {
            crate::pack::lemma_ascii_utf16_prefix(haystack, 0);
            assert(forall|i: int| 0 <= i < cs.len() ==> (#[trigger] cs[i] as u32) < 0x10000);
            crate::pack::lemma_utf16_len_bmp(cs);
            let j1 = choose|j: int| 0 <= j <= cs.len() && ms[k].1 as int == #[trigger] encode_utf8(cs.take(j)).len();
            let j2 = choose|j: int| 0 <= j <= cs.len() && ms[k].2 as int == #[trigger] encode_utf8(cs.take(j)).len();
            lemma_encode_utf8_prefix_len(cs, j1);
            lemma_encode_utf8_prefix_len(cs, j2);
            crate::pack::lemma_ascii_utf16_prefix(haystack, ms[k].1 as int);
            crate::pack::lemma_ascii_utf16_prefix(haystack, ms[k].2 as int);
        }
        lemma_pack_plain_exact(b, ms);
    } else if ms.len() == 0 {
    } else {
        let q = unique_offsets(ms);
        lemma_unique_offsets(ms);
        assert forall|k: int| 0 <= k < q.len() implies char_offset(cs, #[trigger] q[k] as int) by {
            assert(q.contains(q[k]));
            let i = choose|i: int| 0 <= i < ms.len() && (ms[i].1 == q[k] || ms[i].2 == q[k]);
            assert(char_offset(cs, ms[i].1 as int) && char_offset(cs, ms[i].2 as int));
        }
        lemma_offset_values(cs, q);
        let vals = offset_values(cs, q);
        assert forall|k: int| #![trigger ms[k]] 0 <= k < ms.len() implies lookup_utf16(q, vals, ms[k].1)
            == utf16_prefix(b, ms[k].1 as int) as u32 && lookup_utf16(q, vals, ms[k].2) == utf16_prefix(
            b,
            ms[k].2 as int,
        ) as u32 by {
            assert(char_offset(cs, ms[k].1 as int) && char_offset(cs, ms[k].2 as int));
            assert forall|x: usize| #![trigger q.contains(x)] q.contains(x) && char_offset(cs, x as int) implies lookup_utf16(q, vals, x)
                == utf16_prefix(b, x as int) as u32 by {
                let i = choose|i: int| 0 <= i < q.len() && q[i] == x;
                let j = choose|j: int| 0 <= j <= cs.len() && x as int == #[trigger] encode_utf8(cs.take(j)).len();
                assert(vals[i] == utf16_len(cs.take(j)));
                lemma_utf16_prefix_at_char(cs, j);
                lemma_utf16_len_prefix(cs, j);
                let c = choose|c: int| 0 <= c < vals.len() && c < q.len() && q[c] == x;
                if c < i {
                    assert(q[c] < q[i]);
                } else if c > i {
                    assert(q[i] < q[c]);
                }
            }
            assert(q.contains(ms[k].1) && q.contains(ms[k].2));
        }
        lemma_pack_looked_up_exact(q, vals, b, ms);
    }
}

} // verus!
