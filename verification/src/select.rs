//! Choosing non-overlapping whole-word matches from all candidate matches:
//! leftmost first, longest at each start, ties to the lowest pattern index.
use vstd::prelude::*;
use vstd::relations::*;
use vstd::seq_lib::*;
use vstd::string::*;
use vstd::utf8::*;
use crate::sort::{TotalOrder, merge_sort, order};

verus! {

broadcast use {vstd::seq_lib::group_to_multiset_ensures, vstd::multiset::group_multiset_axioms};

/// A candidate match in original byte offsets: pattern index and span `[start, end)`.
#[derive(Clone, Copy, Debug, PartialEq, Eq, Structural)]
pub struct ByteMatchCandidate {
    pub pattern: u32,
    pub start: usize,
    pub end: usize,
}

impl ByteMatchCandidate {
    /// The candidate as a `(pattern, start, end)` triple.
    pub open spec fn triple(self) -> (u32, usize, usize) {
        (self.pattern, self.start, self.end)
    }
}

/// Candidates are ordered by start, then longest first, then lowest pattern index.
impl TotalOrder for ByteMatchCandidate {
    open spec fn le(a: ByteMatchCandidate, b: ByteMatchCandidate) -> bool {
        a.start < b.start || (a.start == b.start && (a.end > b.end || (a.end == b.end
            && a.pattern <= b.pattern)))
    }

    proof fn lemma_total_order() {
    }

    fn le_exec(a: &ByteMatchCandidate, b: &ByteMatchCandidate) -> (r: bool) {
        a.start < b.start || (a.start == b.start && (a.end > b.end || (a.end == b.end
            && a.pattern <= b.pattern)))
    }
}

/// The first index at or after `k` whose candidate does not start at `st`.
pub open spec fn run_end(s: Seq<ByteMatchCandidate>, st: usize, k: int) -> int
    decreases s.len() - k,
{
    if 0 <= k < s.len() && s[k].start == st {
        run_end(s, st, k + 1)
    } else {
        k
    }
}

/// `run_end` never moves backwards.
pub proof fn lemma_run_end_bounds(s: Seq<ByteMatchCandidate>, st: usize, k: int)
    ensures
        run_end(s, st, k) >= k,
        0 <= k <= s.len() ==> run_end(s, st, k) <= s.len(),
        forall|x: int| k <= x < run_end(s, st, k) ==> s[x].start == st,
        0 <= k && run_end(s, st, k) < s.len() ==> s[run_end(s, st, k)].start != st,
    decreases s.len() - k,
{
    if 0 <= k < s.len() && s[k].start == st {
        lemma_run_end_bounds(s, st, k + 1);
    }
}

/// Greedy selection over candidates in sorted order, from index `i` with the
/// end of the last chosen match at `cursor`: the first candidate of each start
/// position that does not begin before the cursor is taken, and the rest of that
/// start position is passed over.
pub open spec fn greedy_from(s: Seq<ByteMatchCandidate>, i: int, cursor: int) -> Seq<
    ByteMatchCandidate,
>
    decreases s.len() - i,
{
    if i < 0 || i >= s.len() {
        seq![]
    } else if s[i].start < cursor {
        greedy_from(s, i + 1, cursor)
    } else {
        proof {
            lemma_run_end_bounds(s, s[i].start, i + 1);
        }
        seq![s[i]] + greedy_from(s, run_end(s, s[i].start, i + 1), s[i].end as int)
    }
}

/// The matches chosen from a set of candidates: sort them by start, longest
/// first, then lowest pattern index, and go left to right taking the first
/// candidate at each start that does not overlap the previous choice.
pub open spec fn select_spec(candidates: Seq<ByteMatchCandidate>) -> Seq<ByteMatchCandidate> {
    greedy_from(candidates.sort_by(order::<ByteMatchCandidate>()), 0, 0)
}

/// Chooses the leftmost-longest non-overlapping matches among whole-word candidates.
pub fn select_leftmost_longest_whole_word_matches(candidates: Vec<ByteMatchCandidate>) -> (r: Vec<
    ByteMatchCandidate,
>)
    ensures
        r@ == select_spec(candidates@),
{
    let ghost leq = order::<ByteMatchCandidate>();
    if candidates.len() == 0 {
        proof {
            ByteMatchCandidate::lemma_total_order();
            candidates@.lemma_sort_by_ensures(leq);
            assert(candidates@ =~= Seq::<ByteMatchCandidate>::empty());
            lemma_sorted_unique(candidates@, candidates@.sort_by(leq), leq);
        }
        return Vec::new();
    }
    let sorted = merge_sort(candidates.as_slice());
    proof {
        ByteMatchCandidate::lemma_total_order();
        candidates@.lemma_sort_by_ensures(leq);
        lemma_sorted_unique(sorted@, candidates@.sort_by(leq), leq);
    }
    let ghost s = sorted@;
    let n = sorted.len();
    let mut selected: Vec<ByteMatchCandidate> = Vec::new();
    let mut cursor: usize = 0;
    let mut i: usize = 0;
    while i < n
        invariant
            n == s.len(),
            s == sorted@,
            0 <= i <= n,
            sorted_by(s, leq),
            leq == order::<ByteMatchCandidate>(),
            selected@ + greedy_from(s, i as int, cursor as int) == greedy_from(s, 0, 0),
        decreases n - i,
    {
        let first = sorted[i];
        let i0 = i;
        i = i + 1;
        if first.start < cursor {
            continue;
        }
        let mut best = first;
        proof {
            lemma_run_end_bounds(s, first.start, i as int);
        }
        while i < n && sorted[i].start == first.start
            invariant
                n == s.len(),
                s == sorted@,
                i0 < i <= n,
                first == s[i0 as int],
                best == first,
                sorted_by(s, leq),
                leq == order::<ByteMatchCandidate>(),
                run_end(s, first.start, i as int) == run_end(s, first.start, i0 + 1),
            decreases n - i,
        {
            let candidate = sorted[i];
            proof {
                assert(leq(s[i0 as int], s[i as int]));
            }
            i = i + 1;
            if candidate.end > best.end || (candidate.end == best.end && candidate.pattern
                < best.pattern) {
                best = candidate;
            }
        }
        proof {
            assert(seq![first] + greedy_from(s, i as int, first.end as int) == greedy_from(
                s,
                i0 as int,
                cursor as int,
            ));
            assert(selected@.push(best) + greedy_from(s, i as int, best.end as int) =~= selected@
                + greedy_from(s, i0 as int, cursor as int));
        }
        selected.push(best);
        cursor = best.end;
    }
    proof {
        assert(selected@ + greedy_from(s, i as int, cursor as int) =~= selected@);
    }
    selected
}

} // verus!

verus! {

/// In sorted candidates, every candidate after the run of those starting at
/// `s[i].start` starts later.
proof fn lemma_after_run(s: Seq<ByteMatchCandidate>, i: int)
    requires
        sorted_by(s, order::<ByteMatchCandidate>()),
        0 <= i < s.len(),
    ensures
        forall|x: int| run_end(s, s[i].start, i + 1) <= x < s.len() ==> s[x].start > s[i].start,
{
    let leq = order::<ByteMatchCandidate>();
    let st = s[i].start;
    let r = run_end(s, st, i + 1);
    lemma_run_end_bounds(s, st, i + 1);
    assert forall|x: int| r <= x < s.len() implies s[x].start > st by {
        assert(leq(s[i], s[r]));
        if r < x {
            assert(leq(s[r], s[x]));
        }
    }
}

/// What greedy selection over sorted candidates gives: candidates from index
/// `i` on, the first not starting before the cursor, each ending no later than
/// the next starts and starting strictly before it.
proof fn lemma_greedy(s: Seq<ByteMatchCandidate>, i: int, cursor: int)
    requires
        sorted_by(s, order::<ByteMatchCandidate>()),
        0 <= i,
    ensures
        forall|k: int|
            #![trigger greedy_from(s, i, cursor)[k]]
            0 <= k < greedy_from(s, i, cursor).len() ==> exists|j: int|
                #![trigger s[j]]
                i <= j < s.len() && s[j] == greedy_from(s, i, cursor)[k],
        greedy_from(s, i, cursor).len() > 0 ==> greedy_from(s, i, cursor)[0].start >= cursor,
        forall|k: int|
            0 <= k < greedy_from(s, i, cursor).len() - 1 ==> (#[trigger] greedy_from(s, i, cursor)[k]).end
                <= greedy_from(s, i, cursor)[k + 1].start && greedy_from(s, i, cursor)[k].start
                < greedy_from(s, i, cursor)[k + 1].start,
    decreases s.len() - i,
{
    let g = greedy_from(s, i, cursor);
    if i >= s.len() {
    } else if s[i].start < cursor {
        lemma_greedy(s, i + 1, cursor);
    } else {
        let st = s[i].start;
        let j0 = run_end(s, st, i + 1);
        lemma_run_end_bounds(s, st, i + 1);
        lemma_after_run(s, i);
        lemma_greedy(s, j0, s[i].end as int);
        let rest = greedy_from(s, j0, s[i].end as int);
        assert(g == seq![s[i]] + rest);
        assert forall|k: int| #![trigger g[k]] 0 <= k < g.len() implies exists|j: int|
            #![trigger s[j]]
            i <= j < s.len() && s[j] == g[k] by {
            if k == 0 {
                assert(s[i] == g[0]);
            } else {
                assert(g[k] == rest[k - 1]);
                let j = choose|j: int| #![trigger s[j]] j0 <= j < s.len() && s[j] == rest[k - 1];
                assert(s[j] == g[k]);
            }
        }
        assert forall|k: int| 0 <= k < g.len() - 1 implies (#[trigger] g[k]).end <= g[k + 1].start
            && g[k].start < g[k + 1].start by {
            if k == 0 {
                assert(g[1] == rest[0]);
                let j = choose|j: int| #![trigger s[j]] j0 <= j < s.len() && s[j] == rest[0];
                assert(s[j].start > st);
            } else {
                assert(g[k] == rest[k - 1]);
                assert(g[k + 1] == rest[k]);
            }
        }
    }
}

/// The matches chosen from candidates are candidates themselves, do not
/// overlap (each ends no later than the next starts), start strictly left to
/// right, and there is at least one exactly when there is a candidate.
pub proof fn lemma_select_spec_properties(candidates: Seq<ByteMatchCandidate>)
    ensures
        forall|k: int|
            0 <= k < select_spec(candidates).len() ==> candidates.contains(
                #[trigger] select_spec(candidates)[k],
            ),
        forall|k: int|
            0 <= k < select_spec(candidates).len() - 1 ==> (#[trigger] select_spec(candidates)[k]).end
                <= select_spec(candidates)[k + 1].start && select_spec(candidates)[k].start
                < select_spec(candidates)[k + 1].start,
        select_spec(candidates).len() > 0 <==> candidates.len() > 0,
{
    let leq = order::<ByteMatchCandidate>();
    ByteMatchCandidate::lemma_total_order();
    candidates.lemma_sort_by_ensures(leq);
    let s = candidates.sort_by(leq);
    lemma_greedy(s, 0, 0);
    let g = select_spec(candidates);
    assert forall|k: int| 0 <= k < g.len() implies candidates.contains(#[trigger] g[k]) by {
        let j = choose|j: int| #![trigger s[j]] 0 <= j < s.len() && s[j] == g[k];
        assert(s.contains(g[k]));
        assert(s.to_multiset().count(g[k]) > 0);
    }
    assert(s.len() == candidates.len()) by {
        assert(s.to_multiset().len() == candidates.to_multiset().len());
    }
    if s.len() > 0 {
        assert(g.len() > 0);
    }
}

} // verus!

verus! {

/// Whether some chosen match covers position `st`: it starts there, or starts
/// before it and ends after it.
pub open spec fn covers(chosen: Seq<ByteMatchCandidate>, st: usize) -> bool {
    exists|k: int|
        #![trigger chosen[k]]
        0 <= k < chosen.len() && chosen[k].start <= st && (st < chosen[k].end || st == chosen[k].start)
}

/// Every candidate from index `i` on either starts before the cursor or is
/// covered by a match greedy selection takes.
proof fn lemma_greedy_covers(s: Seq<ByteMatchCandidate>, i: int, cursor: int)
    requires
        sorted_by(s, order::<ByteMatchCandidate>()),
        0 <= i,
    ensures
        forall|x: int|
            #![trigger s[x]]
            i <= x < s.len() ==> s[x].start < cursor || covers(greedy_from(s, i, cursor), s[x].start),
    decreases s.len() - i,
{
    let leq = order::<ByteMatchCandidate>();
    let g = greedy_from(s, i, cursor);
    if i >= s.len() {
    } else if s[i].start < cursor {
        lemma_greedy_covers(s, i + 1, cursor);
    } else {
        let st = s[i].start;
        let r = run_end(s, st, i + 1);
        lemma_run_end_bounds(s, st, i + 1);
        lemma_greedy_covers(s, r, s[i].end as int);
        let rest = greedy_from(s, r, s[i].end as int);
        assert(g == seq![s[i]] + rest);
        assert forall|x: int| #![trigger s[x]] i <= x < s.len() implies s[x].start < cursor || covers(
            g,
            s[x].start,
        ) by {
            assert(g[0] == s[i]);
            if x < r {
                if x > i {
                    assert(s[x].start == st);
                }
            } else {
                assert(leq(s[i], s[x]));
                if !(s[x].start < s[i].end) {
                    let k = choose|k: int|
                        #![trigger rest[k]]
                        0 <= k < rest.len() && rest[k].start <= s[x].start && (s[x].start
                            < rest[k].end || s[x].start == rest[k].start);
                    assert(g[k + 1] == rest[k]);
                }
            }
        }
    }
}

/// Whether every candidate before index `i` starts before the cursor or
/// before candidate `i`: none of them can share a start with a later choice.
pub open spec fn passed_over(s: Seq<ByteMatchCandidate>, i: int, cursor: int) -> bool {
    forall|x: int|
        #![trigger s[x]]
        0 <= x < i < s.len() ==> s[x].start < cursor || s[x].start < s[i].start
}

/// Each match greedy selection takes is, among all candidates starting where it
/// starts, the longest, and of the longest the one with the lowest pattern index.
proof fn lemma_greedy_longest(s: Seq<ByteMatchCandidate>, i: int, cursor: int)
    requires
        sorted_by(s, order::<ByteMatchCandidate>()),
        0 <= i,
        passed_over(s, i, cursor),
    ensures
        forall|k: int, x: int|
            #![trigger greedy_from(s, i, cursor)[k], s[x]]
            0 <= k < greedy_from(s, i, cursor).len() && 0 <= x < s.len() && s[x].start == greedy_from(
                s,
                i,
                cursor,
            )[k].start ==> s[x].end <= greedy_from(s, i, cursor)[k].end && (s[x].end == greedy_from(
                s,
                i,
                cursor,
            )[k].end ==> greedy_from(s, i, cursor)[k].pattern <= s[x].pattern),
    decreases s.len() - i,
{
    let leq = order::<ByteMatchCandidate>();
    let g = greedy_from(s, i, cursor);
    if i >= s.len() {
    } else if s[i].start < cursor {
        if i + 1 < s.len() {
            assert(leq(s[i], s[i + 1]));
        }
        assert forall|x: int| #![trigger s[x]] 0 <= x < i + 1 < s.len() implies s[x].start < cursor
            || s[x].start < s[i + 1].start by {
            if x < i {
                assert(leq(s[i], s[i + 1]));
            }
        }
        lemma_greedy_longest(s, i + 1, cursor);
        assert(g == greedy_from(s, i + 1, cursor));
    } else {
        let st = s[i].start;
        let r = run_end(s, st, i + 1);
        lemma_run_end_bounds(s, st, i + 1);
        lemma_after_run(s, i);
        assert forall|x: int| #![trigger s[x]] 0 <= x < r < s.len() implies s[x].start < s[i].end
            || s[x].start < s[r].start by {
            if x < i {
                assert(leq(s[x], s[i]));
            } else if x > i {
                assert(s[x].start == st);
            }
        }
        lemma_greedy_longest(s, r, s[i].end as int);
        let rest = greedy_from(s, r, s[i].end as int);
        assert(g == seq![s[i]] + rest);
        assert forall|k: int, x: int|
            #![trigger g[k], s[x]]
            0 <= k < g.len() && 0 <= x < s.len() && s[x].start == g[k].start implies s[x].end
            <= g[k].end && (s[x].end == g[k].end ==> g[k].pattern <= s[x].pattern) by {
            if k == 0 {
                assert(g[0] == s[i]);
                if x < i {
                    assert(s[x].start < cursor || s[x].start < s[i].start);
                } else if x > i {
                    assert(leq(s[i], s[x]));
                }
            } else {
                assert(g[k] == rest[k - 1]);
            }
        }
    }
}

/// How the matches are chosen from candidates: every candidate is covered by a
/// chosen match (it starts where one starts, or inside one), and each chosen
/// match is the longest candidate at its start, ties going to the lowest
/// pattern index.
pub proof fn lemma_select_spec_choice(candidates: Seq<ByteMatchCandidate>)
    ensures
        forall|j: int|
            0 <= j < candidates.len() ==> covers(select_spec(candidates), #[trigger] candidates[j].start),
        forall|k: int, j: int|
            #![trigger select_spec(candidates)[k], candidates[j]]
            0 <= k < select_spec(candidates).len() && 0 <= j < candidates.len() && candidates[j].start
                == select_spec(candidates)[k].start ==> candidates[j].end <= select_spec(candidates)[k].end
                && (candidates[j].end == select_spec(candidates)[k].end ==> select_spec(
                candidates,
            )[k].pattern <= candidates[j].pattern),
{
    let leq = order::<ByteMatchCandidate>();
    ByteMatchCandidate::lemma_total_order();
    candidates.lemma_sort_by_ensures(leq);
    let s = candidates.sort_by(leq);
    let g = select_spec(candidates);
    lemma_greedy_covers(s, 0, 0);
    lemma_greedy_longest(s, 0, 0);
    assert forall|j: int| 0 <= j < candidates.len() implies covers(g, #[trigger] candidates[j].start) by {
        assert(candidates.contains(candidates[j]));
        assert(candidates.to_multiset().count(candidates[j]) > 0);
        assert(s.contains(candidates[j]));
        let x = choose|x: int| 0 <= x < s.len() && s[x] == candidates[j];
        assert(s[x].start == candidates[j].start);
    }
    assert forall|k: int, j: int|
        #![trigger g[k], candidates[j]]
        0 <= k < g.len() && 0 <= j < candidates.len() && candidates[j].start == g[k].start implies candidates[j].end
        <= g[k].end && (candidates[j].end == g[k].end ==> g[k].pattern <= candidates[j].pattern) by {
        assert(candidates.contains(candidates[j]));
        assert(candidates.to_multiset().count(candidates[j]) > 0);
        assert(s.contains(candidates[j]));
        let x = choose|x: int| 0 <= x < s.len() && s[x] == candidates[j];
        assert(s[x] == candidates[j]);
    }
}

} // verus!
