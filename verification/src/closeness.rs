//! Order by closeness to the arm: what it is, that every list of requests
//! has one, and that it has only one.

use crate::order::{ascending_order, lemma_ascending_order_unique};
use crate::position::distance;
use vstd::prelude::*;

verus! {

/// No cylinder is followed by one that lies closer to `head`.
pub open spec fn nearest_first(s: Seq<u32>, head: u32) -> bool {
    forall|i: int, j: int|
        0 <= i <= j < s.len() ==> distance(s[i], head) <= distance(s[j], head)
}

/// The cylinders that lie exactly `d` away from `head`.
pub open spec fn at_distance(head: u32, d: nat) -> spec_fn(u32) -> bool {
    |x: u32| distance(x, head) == d
}

/// Cylinders that are equally far from `head` stand in `out` in the order
/// in which they stand in `input`.
pub open spec fn ties_in_order(out: Seq<u32>, input: Seq<u32>, head: u32) -> bool {
    forall|d: nat|
        out.filter(#[trigger] at_distance(head, d)) == input.filter(at_distance(head, d))
}

/// `out` is `input` rearranged by closeness to `head`: the same cylinders,
/// nearest first, equally distant ones in their input order.
pub open spec fn is_closeness_order(out: Seq<u32>, input: Seq<u32>, head: u32) -> bool {
    &&& out.to_multiset() == input.to_multiset()
    &&& nearest_first(out, head)
    &&& ties_in_order(out, input, head)
}

/// The rearrangement of `input` by closeness to `head`.
///
/// [`lemma_closeness_order`] shows that it is one, and
/// [`lemma_closeness_order_unique`] that there is no other.
pub open spec fn closeness_order(input: Seq<u32>, head: u32) -> Seq<u32> {
    choose|out: Seq<u32>| is_closeness_order(out, input, head)
}

/// Where a cylinder goes into a nearest-first sequence: behind everything
/// that is no farther from `head` than it, before everything that is farther.
pub open spec fn is_insertion_point(sorted: Seq<u32>, x: u32, head: u32, p: int) -> bool {
    &&& 0 <= p <= sorted.len()
    &&& forall|i: int| 0 <= i < p ==> distance(sorted[i], head) <= distance(x, head)
    &&& forall|i: int| p <= i < sorted.len() ==> distance(sorted[i], head) > distance(x, head)
}

/// Inserting the next input cylinder at its insertion point extends a
/// closeness order of the inputs seen so far by that cylinder.
pub proof fn lemma_insert_extends_order(
    sorted: Seq<u32>,
    seen: Seq<u32>,
    x: u32,
    head: u32,
    p: int,
)
    requires
        is_closeness_order(sorted, seen, head),
        is_insertion_point(sorted, x, head, p),
    ensures
        is_closeness_order(sorted.insert(p, x), seen.push(x), head),
{
    broadcast use vstd::seq_lib::group_to_multiset_ensures;

    let out = sorted.insert(p, x);
    let front = sorted.subrange(0, p);
    let back = sorted.subrange(p, sorted.len() as int);
    assert(sorted =~= front + back);
    assert(out =~= front.push(x) + back);
    vstd::seq_lib::to_multiset_insert(sorted, p, x);
    assert(out.to_multiset() =~= seen.push(x).to_multiset());
    assert(nearest_first(out, head)) by {
        sorted.insert_ensures(p, x);
        assert forall|i: int, j: int| 0 <= i <= j < out.len() implies distance(out[i], head)
            <= distance(out[j], head) by {
            if i < p && j > p {
                assert(out[j] == sorted[j - 1]);
            } else if i > p {
                assert(out[i] == sorted[i - 1]);
                assert(out[j] == sorted[j - 1]);
            }
        }
    }
    assert forall|d: nat|
        out.filter(#[trigger] at_distance(head, d)) == seen.push(x).filter(
            at_distance(head, d),
        ) by {
        let pred = at_distance(head, d);
        Seq::filter_distributes_over_add(front, back, pred);
        Seq::filter_distributes_over_add(front.push(x), back, pred);
        front.lemma_filter_push(x, pred);
        seen.lemma_filter_push(x, pred);
        assert(sorted.filter(pred) == seen.filter(pred));
        if pred(x) {
            lemma_filter_none(back, pred);
            assert(out.filter(pred) =~= front.filter(pred).push(x));
            assert(sorted.filter(pred) =~= front.filter(pred));
        }
    }
}

/// Every nearest-first sequence has an insertion point for every cylinder.
proof fn lemma_insertion_point_exists(sorted: Seq<u32>, x: u32, head: u32) -> (p: int)
    requires
        nearest_first(sorted, head),
    ensures
        is_insertion_point(sorted, x, head, p),
    decreases sorted.len(),
{
    if sorted.len() == 0 || distance(sorted.last(), head) <= distance(x, head) {
        sorted.len() as int
    } else {
        let front = sorted.drop_last();
        let p = lemma_insertion_point_exists(front, x, head);
        assert forall|i: int| p <= i < sorted.len() implies distance(sorted[i], head) > distance(
            x,
            head,
        ) by {
            if i < front.len() {
                assert(sorted[i] == front[i]);
            }
        }
        assert forall|i: int| 0 <= i < p implies distance(sorted[i], head) <= distance(
            x,
            head,
        ) by {
            assert(sorted[i] == front[i]);
        }
        p
    }
}

/// Builds a closeness order of `input`, one cylinder at a time.
proof fn lemma_closeness_order_exists(input: Seq<u32>, head: u32) -> (out: Seq<u32>)
    ensures
        is_closeness_order(out, input, head),
    decreases input.len(),
{
    if input.len() == 0 {
        input
    } else {
        let seen = input.drop_last();
        let sorted = lemma_closeness_order_exists(seen, head);
        let p = lemma_insertion_point_exists(sorted, input.last(), head);
        lemma_insert_extends_order(sorted, seen, input.last(), head, p);
        assert(seen.push(input.last()) =~= input);
        sorted.insert(p, input.last())
    }
}

/// The closeness order of `input` holds the same cylinders as `input`,
/// nearest to `head` first, and keeps equally distant ones in input order.
pub proof fn lemma_closeness_order(input: Seq<u32>, head: u32)
    ensures
        is_closeness_order(closeness_order(input, head), input, head),
        closeness_order(input, head).len() == input.len(),
{
    let witness = lemma_closeness_order_exists(input, head);
    assert(is_closeness_order(witness, input, head));
    vstd::seq_lib::to_multiset_len(closeness_order(input, head));
    vstd::seq_lib::to_multiset_len(input);
}

/// Two nearest-first sequences that agree on the cylinders at each distance
/// are the same sequence.
pub proof fn lemma_nearest_first_unique(a: Seq<u32>, b: Seq<u32>, head: u32)
    requires
        nearest_first(a, head),
        nearest_first(b, head),
        ties_in_order(a, b, head),
    ensures
        a == b,
    decreases a.len(),
{
    if a.len() == 0 || b.len() == 0 {
        if a.len() > 0 {
            let pred = at_distance(head, distance(a[0], head));
            a.lemma_filter_contains(pred, 0);
            b.lemma_filter_len(pred);
        }
        if b.len() > 0 {
            let pred = at_distance(head, distance(b[0], head));
            b.lemma_filter_contains(pred, 0);
            a.lemma_filter_len(pred);
        }
        assert(a =~= b);
    } else {
        let x = a.last();
        let y = b.last();
        let a_front = a.drop_last();
        let b_front = b.drop_last();
        assert(a_front.push(x) =~= a);
        assert(b_front.push(y) =~= b);
        assert(distance(y, head) <= distance(x, head)) by {
            let pred = at_distance(head, distance(y, head));
            b.lemma_filter_contains(pred, b.len() - 1);
            a.lemma_filter_contains_rev(pred, y);
            let i = choose|i: int| 0 <= i < a.len() && a[i] == y;
            assert(distance(a[i], head) <= distance(a[a.len() - 1], head));
        }
        assert(distance(x, head) <= distance(y, head)) by {
            let pred = at_distance(head, distance(x, head));
            a.lemma_filter_contains(pred, a.len() - 1);
            b.lemma_filter_contains_rev(pred, x);
            let i = choose|i: int| 0 <= i < b.len() && b[i] == x;
            assert(distance(b[i], head) <= distance(b[b.len() - 1], head));
        }
        assert forall|d: nat|
            a_front.filter(#[trigger] at_distance(head, d)) == b_front.filter(
                at_distance(head, d),
            ) && (d == distance(x, head) ==> x == y) by {
            let pred = at_distance(head, d);
            a_front.lemma_filter_push(x, pred);
            b_front.lemma_filter_push(y, pred);
            assert(a.filter(pred) == b.filter(pred));
            if pred(x) {
                let kept_a = a_front.filter(pred);
                let kept_b = b_front.filter(pred);
                assert(kept_a.push(x).last() == kept_b.push(y).last());
                assert(kept_a =~= kept_a.push(x).drop_last());
                assert(kept_b =~= kept_b.push(y).drop_last());
            }
        }
        assert(at_distance(head, distance(x, head))(x));
        assert(x == y);
        lemma_nearest_first_unique(a_front, b_front, head);
    }
}

/// Only one sequence is the closeness order of `input`: whatever meets
/// [`is_closeness_order`] equals [`closeness_order`].
pub proof fn lemma_closeness_order_unique(out: Seq<u32>, input: Seq<u32>, head: u32)
    requires
        is_closeness_order(out, input, head),
    ensures
        out == closeness_order(input, head),
{
    lemma_closeness_order(input, head);
    let chosen = closeness_order(input, head);
    assert forall|d: nat|
        out.filter(#[trigger] at_distance(head, d)) == chosen.filter(at_distance(head, d)) by {
        assert(out.filter(at_distance(head, d)) == input.filter(at_distance(head, d)));
    }
    lemma_nearest_first_unique(out, chosen, head);
}

/// Sorting by closeness to cylinder 0 sorts by the cylinders themselves.
pub proof fn lemma_closeness_to_zero_ascends(s: Seq<u32>)
    ensures
        closeness_order(s, 0) == ascending_order(s),
{
    lemma_closeness_order(s, 0);
    let out = closeness_order(s, 0);
    assert forall|i: int, j: int| 0 <= i <= j < out.len() implies out[i] <= out[j] by {
        assert(distance(out[i], 0) <= distance(out[j], 0));
    }
    lemma_ascending_order_unique(out, s);
}

/// A sequence without a match filters to nothing.
pub proof fn lemma_filter_none(s: Seq<u32>, pred: spec_fn(u32) -> bool)
    requires
        forall|i: int| 0 <= i < s.len() ==> !pred(s[i]),
    ensures
        s.filter(pred) == Seq::<u32>::empty(),
    decreases s.len(),
{
    if s.len() == 0 {
        s.lemma_filter_len(pred);
        assert(s.filter(pred) =~= Seq::<u32>::empty());
    } else {
        let front = s.drop_last();
        lemma_filter_none(front, pred);
        front.lemma_filter_push(s.last(), pred);
        assert(front.push(s.last()) =~= s);
    }
}

} // verus!
