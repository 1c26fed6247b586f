//! Sorting requests by closeness to the arm: a merge sort that keeps
//! equally distant requests in their input order.

use crate::closeness::{
    at_distance, is_closeness_order, is_insertion_point, lemma_filter_none,
    lemma_insert_extends_order, nearest_first,
};
use crate::position::{distance, seek_distance};
use vstd::prelude::*;

verus! {

/// What has been merged of two nearest-first lists when `i` requests of
/// `left` and `j` of `right` are taken: their closeness order, nothing that
/// lies farther than a request still waiting, and from `right` only what
/// lies nearer than the next request of `left`.
spec fn merged_so_far(
    out: Seq<u32>,
    left: Seq<u32>,
    right: Seq<u32>,
    i: int,
    j: int,
    head: u32,
) -> bool {
    &&& 0 <= i <= left.len()
    &&& 0 <= j <= right.len()
    &&& is_closeness_order(out, left.take(i) + right.take(j), head)
    &&& i < left.len() ==> forall|k: int|
        0 <= k < out.len() ==> distance(out[k], head) <= distance(left[i], head)
    &&& j < right.len() ==> forall|k: int|
        0 <= k < out.len() ==> distance(out[k], head) <= distance(right[j], head)
    &&& i < left.len() ==> forall|k: int|
        0 <= k < j ==> distance(right[k], head) < distance(left[i], head)
}

/// Taking the next request of `left` keeps the merge in order, provided the
/// next request of `right` lies no nearer.
proof fn lemma_take_left(
    out: Seq<u32>,
    left: Seq<u32>,
    right: Seq<u32>,
    i: int,
    j: int,
    head: u32,
)
    requires
        nearest_first(left, head),
        nearest_first(right, head),
        merged_so_far(out, left, right, i, j, head),
        i < left.len(),
        j < right.len() ==> distance(left[i], head) <= distance(right[j], head),
    ensures
        merged_so_far(out.push(left[i]), left, right, i + 1, j, head),
{
    broadcast use vstd::seq_lib::group_to_multiset_ensures;
    broadcast use vstd::seq_lib::lemma_multiset_commutative;

    let x = left[i];
    let taken = left.take(i);
    let other = right.take(j);
    let next = out.push(x);
    assert(left.take(i + 1) =~= taken.push(x));
    assert(next.to_multiset() =~= (taken.push(x) + other).to_multiset());
    assert forall|d: nat|
        next.filter(#[trigger] at_distance(head, d)) == (taken.push(x) + other).filter(
            at_distance(head, d),
        ) by {
        let pred = at_distance(head, d);
        Seq::filter_distributes_over_add(taken, other, pred);
        Seq::filter_distributes_over_add(taken.push(x), other, pred);
        taken.lemma_filter_push(x, pred);
        out.lemma_filter_push(x, pred);
        assert(out.filter(pred) == (taken + other).filter(pred));
        if pred(x) {
            lemma_filter_none(other, pred);
            assert(taken.filter(pred) + other.filter(pred) =~= taken.filter(pred));
            assert(taken.filter(pred).push(x) + other.filter(pred) =~= taken.filter(pred).push(
                x,
            ));
        }
    }
    assert(nearest_first(next, head));
    if i + 1 < left.len() {
        assert(distance(left[i], head) <= distance(left[i + 1], head));
    }
}

/// Taking the next request of `right` keeps the merge in order, provided
/// the next request of `left` lies farther.
proof fn lemma_take_right(
    out: Seq<u32>,
    left: Seq<u32>,
    right: Seq<u32>,
    i: int,
    j: int,
    head: u32,
)
    requires
        nearest_first(left, head),
        nearest_first(right, head),
        merged_so_far(out, left, right, i, j, head),
        j < right.len(),
        i < left.len() ==> distance(right[j], head) < distance(left[i], head),
    ensures
        merged_so_far(out.push(right[j]), left, right, i, j + 1, head),
{
    let y = right[j];
    let seen = left.take(i) + right.take(j);
    assert(is_insertion_point(out, y, head, out.len() as int));
    lemma_insert_extends_order(out, seen, y, head, out.len() as int);
    assert(out.insert(out.len() as int, y) =~= out.push(y));
    assert(seen.push(y) =~= left.take(i) + right.take(j + 1));
    if j + 1 < right.len() {
        assert(distance(right[j], head) <= distance(right[j + 1], head));
    }
}

/// Merges two nearest-first lists into one. Where a request of `left` and
/// one of `right` are equally far from `base`, the one of `left` comes
/// first.
fn merged(left: &Vec<u32>, right: &Vec<u32>, base: u32) -> (out: Vec<u32>)
    requires
        nearest_first(left@, base),
        nearest_first(right@, base),
    ensures
        is_closeness_order(out@, left@ + right@, base),
{
    let mut out: Vec<u32> = Vec::new();
    let mut i: usize = 0;
    let mut j: usize = 0;
    assert(out@ =~= left@.take(0) + right@.take(0));
    while i < left.len() || j < right.len()
        invariant
            nearest_first(left@, base),
            nearest_first(right@, base),
            merged_so_far(out@, left@, right@, i as int, j as int, base),
        decreases left.len() - i + right.len() - j,
    {
        let from_left: bool = if i < left.len() && j < right.len() {
            seek_distance(left[i], base) <= seek_distance(right[j], base)
        } else {
            i < left.len()
        };
        if from_left {
            proof {
                lemma_take_left(out@, left@, right@, i as int, j as int, base);
            }
            out.push(left[i]);
            i += 1;
        } else {
            proof {
                lemma_take_right(out@, left@, right@, i as int, j as int, base);
            }
            out.push(right[j]);
            j += 1;
        }
    }
    assert(left@.take(i as int) =~= left@ && right@.take(j as int) =~= right@);
    out
}

/// The closeness orders of two lists, merged, are the closeness order of
/// the lists joined.
proof fn lemma_merge_of_orders(
    out: Seq<u32>,
    left: Seq<u32>,
    right: Seq<u32>,
    first: Seq<u32>,
    second: Seq<u32>,
    head: u32,
)
    requires
        is_closeness_order(left, first, head),
        is_closeness_order(right, second, head),
        is_closeness_order(out, left + right, head),
    ensures
        is_closeness_order(out, first + second, head),
{
    broadcast use vstd::seq_lib::lemma_multiset_commutative;

    assert(out.to_multiset() =~= (first + second).to_multiset());
    assert forall|d: nat|
        out.filter(#[trigger] at_distance(head, d)) == (first + second).filter(
            at_distance(head, d),
        ) by {
        let pred = at_distance(head, d);
        Seq::filter_distributes_over_add(left, right, pred);
        Seq::filter_distributes_over_add(first, second, pred);
        assert(left.filter(pred) == first.filter(pred));
        assert(right.filter(pred) == second.filter(pred));
    }
}

/// The requests `input[lo..hi]` by closeness to `base`.
pub(crate) fn sorted_range(input: &Vec<u32>, lo: usize, hi: usize, base: u32) -> (out: Vec<u32>)
    requires
        lo <= hi <= input@.len(),
    ensures
        is_closeness_order(out@, input@.subrange(lo as int, hi as int), base),
    decreases hi - lo,
{
    if hi - lo < 2 {
        let mut out: Vec<u32> = Vec::new();
        if lo < hi {
            out.push(input[lo]);
        }
        assert(out@ =~= input@.subrange(lo as int, hi as int));
        out
    } else {
        let mid: usize = lo + (hi - lo) / 2;
        let left = sorted_range(input, lo, mid, base);
        let right = sorted_range(input, mid, hi, base);
        let out = merged(&left, &right, base);
        proof {
            let first = input@.subrange(lo as int, mid as int);
            let second = input@.subrange(mid as int, hi as int);
            lemma_merge_of_orders(out@, left@, right@, first, second, base);
            assert(first + second =~= input@.subrange(lo as int, hi as int));
        }
        out
    }
}

} // verus!
