//! Ascending and descending order of cylinders, and the two parts into
//! which the arm divides the requests.

use vstd::prelude::*;
use vstd::relations::{sorted_by, total_ordering};
use vstd::seq_lib::lemma_sorted_unique;

verus! {

/// No cylinder is followed by a smaller one.
pub open spec fn ascending(s: Seq<u32>) -> bool {
    forall|i: int, j: int| 0 <= i <= j < s.len() ==> s[i] <= s[j]
}

/// No cylinder is followed by a larger one.
pub open spec fn descending(s: Seq<u32>) -> bool {
    forall|i: int, j: int| 0 <= i <= j < s.len() ==> s[i] >= s[j]
}

/// The order of the cylinders themselves: `a` comes no later than `b`.
pub open spec fn no_greater() -> spec_fn(u32, u32) -> bool {
    |a: u32, b: u32| a <= b
}

/// The cylinders of `s` from the lowest to the highest.
///
/// [`lemma_ascending_order`] and [`lemma_ascending_order_unique`] say what
/// this sequence is without reference to how `sort_by` finds it.
pub open spec fn ascending_order(s: Seq<u32>) -> Seq<u32> {
    s.sort_by(no_greater())
}

/// The cylinders of `s` from the highest to the lowest.
pub open spec fn descending_order(s: Seq<u32>) -> Seq<u32> {
    ascending_order(s).reverse()
}

/// The cylinders that lie below `head`.
pub open spec fn below(head: u32) -> spec_fn(u32) -> bool {
    |x: u32| x < head
}

/// The cylinders that lie at `head` or above it.
pub open spec fn at_or_above(head: u32) -> spec_fn(u32) -> bool {
    |x: u32| x >= head
}

/// The ascending order of `s` is ascending and holds the cylinders of `s`,
/// each as often as `s` does.
pub proof fn lemma_ascending_order(s: Seq<u32>)
    ensures
        ascending(ascending_order(s)),
        ascending_order(s).to_multiset() == s.to_multiset(),
        ascending_order(s).len() == s.len(),
{
    assert(total_ordering(no_greater()));
    s.lemma_sort_by_ensures(no_greater());
    let sorted = ascending_order(s);
    assert forall|i: int, j: int| 0 <= i <= j < sorted.len() implies sorted[i] <= sorted[j] by {
        if i < j {
            assert(no_greater()(sorted[i], sorted[j]));
        }
    }
    vstd::seq_lib::to_multiset_len(sorted);
    vstd::seq_lib::to_multiset_len(s);
}

/// An ascending sequence that holds the cylinders of `s`, each as often as
/// `s` does, is the ascending order of `s`.
pub proof fn lemma_ascending_order_unique(out: Seq<u32>, s: Seq<u32>)
    requires
        ascending(out),
        out.to_multiset() == s.to_multiset(),
    ensures
        out == ascending_order(s),
{
    lemma_ascending_order(s);
    assert(sorted_by(out, no_greater()));
    assert(sorted_by(ascending_order(s), no_greater()));
    lemma_sorted_unique(out, ascending_order(s), no_greater());
}

/// The descending order of `s` is descending and holds the cylinders of `s`,
/// each as often as `s` does.
pub proof fn lemma_descending_order(s: Seq<u32>)
    ensures
        descending(descending_order(s)),
        descending_order(s).to_multiset() == s.to_multiset(),
        descending_order(s).len() == s.len(),
{
    lemma_ascending_order(s);
    ascending_order(s).lemma_reverse_to_multiset();
}

/// A descending sequence that holds the cylinders of `s`, each as often as
/// `s` does, is the descending order of `s`.
pub proof fn lemma_descending_order_unique(out: Seq<u32>, s: Seq<u32>)
    requires
        descending(out),
        out.to_multiset() == s.to_multiset(),
    ensures
        out == descending_order(s),
{
    out.lemma_reverse_to_multiset();
    lemma_ascending_order_unique(out.reverse(), s);
    assert(out.reverse().reverse() =~= out);
}

/// Every cylinder of `s` lies either below `head` or at or above it, so the
/// two parts together hold the cylinders of `s`.
pub proof fn lemma_parts_make_whole(s: Seq<u32>, head: u32)
    ensures
        s.filter(below(head)).to_multiset().add(s.filter(at_or_above(head)).to_multiset())
            == s.to_multiset(),
    decreases s.len(),
{
    broadcast use vstd::seq_lib::group_to_multiset_ensures;

    if s.len() == 0 {
        s.lemma_filter_len(below(head));
        s.lemma_filter_len(at_or_above(head));
    } else {
        let front = s.drop_last();
        let x = s.last();
        lemma_parts_make_whole(front, head);
        front.lemma_filter_push(x, below(head));
        front.lemma_filter_push(x, at_or_above(head));
        assert(front.push(x) =~= s);
        let low = front.filter(below(head));
        let high = front.filter(at_or_above(head));
        if x < head {
            assert(low.push(x).to_multiset().add(high.to_multiset()) =~= front.to_multiset().insert(
                x,
            ));
        } else {
            assert(low.to_multiset().add(high.push(x).to_multiset()) =~= front.to_multiset().insert(
                x,
            ));
        }
    }
}

} // verus!
