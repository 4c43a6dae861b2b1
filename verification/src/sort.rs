//! A stable merge sort over any type with a total order, used to order match
//! candidates and byte offsets.
use vstd::prelude::*;
use vstd::relations::*;
use vstd::seq_lib::*;
use vstd::multiset::*;

verus! {

broadcast use {vstd::seq_lib::group_to_multiset_ensures, vstd::multiset::group_multiset_axioms};

/// A type whose values are totally ordered by `le`, with an executable comparison.
pub trait TotalOrder: Sized + Copy {
    spec fn le(a: Self, b: Self) -> bool;

    proof fn lemma_total_order()
        ensures
            total_ordering(|a: Self, b: Self| Self::le(a, b)),
    ;

    fn le_exec(a: &Self, b: &Self) -> (r: bool)
        ensures
            r == Self::le(*a, *b),
    ;
}

/// The order of a `TotalOrder` type, as a relation.
pub open spec fn order<T: TotalOrder>() -> spec_fn(T, T) -> bool {
    |a: T, b: T| T::le(a, b)
}

impl TotalOrder for usize {
    open spec fn le(a: usize, b: usize) -> bool {
        a <= b
    }

    proof fn lemma_total_order() {
    }

    fn le_exec(a: &usize, b: &usize) -> (r: bool) {
        *a <= *b
    }
}

/// Merges two sorted sequences into one sorted sequence holding the elements of both.
fn merge<T: TotalOrder>(left: &Vec<T>, right: &Vec<T>) -> (out: Vec<T>)
    requires
        sorted_by(left@, order::<T>()),
        sorted_by(right@, order::<T>()),
    ensures
        sorted_by(out@, order::<T>()),
        out@.to_multiset() == left@.to_multiset().add(right@.to_multiset()),
{
    proof {
        T::lemma_total_order();
    }
    let ghost leq = order::<T>();
    let mut out: Vec<T> = Vec::new();
    let mut i: usize = 0;
    let mut j: usize = 0;
    let n = left.len();
    let m = right.len();
    while i < n || j < m
        invariant
            n == left@.len(),
            m == right@.len(),
            0 <= i <= n,
            0 <= j <= m,
            leq == order::<T>(),
            total_ordering(leq),
            sorted_by(left@, leq),
            sorted_by(right@, leq),
            sorted_by(out@, leq),
            out@.to_multiset() == left@.take(i as int).to_multiset().add(
                right@.take(j as int).to_multiset(),
            ),
            forall|k: int, x: int| 0 <= k < out@.len() && i <= x < n ==> leq(out@[k], left@[x]),
            forall|k: int, y: int| 0 <= k < out@.len() && j <= y < m ==> leq(out@[k], right@[y]),
        decreases n + m - i - j,
    {
        let take_left = if i < n && j < m {
            T::le_exec(&left[i], &right[j])
        } else {
            i < n
        };
        let ghost old_out = out@;
        if take_left {
            let e = left[i];
            out.push(e);
            proof {
                assert(left@.take(i + 1) =~= left@.take(i as int).push(e));
                assert forall|k: int, x: int| 0 <= k < out@.len() && i + 1 <= x < n implies leq(
                    out@[k],
                    left@[x],
                ) by {
                    if k < old_out.len() {
                    } else {
                        assert(leq(left@[i as int], left@[x]));
                    }
                }
                assert forall|k: int, y: int| 0 <= k < out@.len() && j <= y < m implies leq(
                    out@[k],
                    right@[y],
                ) by {
                    if k < old_out.len() {
                    } else {
                        assert(leq(left@[i as int], right@[j as int]));
                        if y > j {
                            assert(leq(right@[j as int], right@[y]));
                        }
                    }
                }
                assert forall|a: int, b: int| 0 <= a < b < out@.len() implies leq(
                    out@[a],
                    out@[b],
                ) by {
                    if b < old_out.len() {
                    } else {
                        assert(out@[b] == left@[i as int]);
                    }
                }
            }
            i = i + 1;
        } else {
            let e = right[j];
            out.push(e);
            proof {
                assert(right@.take(j + 1) =~= right@.take(j as int).push(e));
                if i < n {
                    assert(!leq(left@[i as int], right@[j as int]));
                    assert(leq(right@[j as int], left@[i as int]));
                }
                assert forall|k: int, y: int| 0 <= k < out@.len() && j + 1 <= y < m implies leq(
                    out@[k],
                    right@[y],
                ) by {
                    if k < old_out.len() {
                    } else {
                        assert(leq(right@[j as int], right@[y]));
                    }
                }
                assert forall|k: int, x: int| 0 <= k < out@.len() && i <= x < n implies leq(
                    out@[k],
                    left@[x],
                ) by {
                    if k < old_out.len() {
                    } else {
                        if x > i {
                            assert(leq(left@[i as int], left@[x]));
                        }
                    }
                }
                assert forall|a: int, b: int| 0 <= a < b < out@.len() implies leq(
                    out@[a],
                    out@[b],
                ) by {
                    if b < old_out.len() {
                    } else {
                        assert(out@[b] == right@[j as int]);
                    }
                }
            }
            j = j + 1;
        }
    }
    proof {
        assert(left@.take(n as int) =~= left@);
        assert(right@.take(m as int) =~= right@);
    }
    out
}

/// Sorts a slice by the type's total order; the result holds the same elements.
pub fn merge_sort<T: TotalOrder>(v: &[T]) -> (out: Vec<T>)
    ensures
        sorted_by(out@, order::<T>()),
        out@.to_multiset() == v@.to_multiset(),
    decreases v@.len(),
{
    let n = v.len();
    if n <= 1 {
        let out = vstd::slice::slice_to_vec(v);
        proof {
            T::lemma_total_order();
        }
        return out;
    }
    let mid = n / 2;
    let left_half = vstd::slice::slice_subrange(v, 0, mid);
    let right_half = vstd::slice::slice_subrange(v, mid, n);
    let left = merge_sort(left_half);
    let right = merge_sort(right_half);
    let out = merge(&left, &right);
    proof {
        assert(v@ =~= left_half@ + right_half@);
        lemma_multiset_commutative(left_half@, right_half@);
    }
    out
}

} // verus!
