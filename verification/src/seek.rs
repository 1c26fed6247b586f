//! The distance that the arm travels.

use crate::position::distance;
use vstd::prelude::*;

verus! {

/// The length of a path: the distances between each position and the next,
/// added up. A path of fewer than two positions has length 0.
pub open spec fn path_length(path: Seq<u32>) -> nat
    decreases path.len(),
{
    if path.len() < 2 {
        0
    } else {
        path_length(path.drop_last()) + distance(path[path.len() - 2], path.last())
    }
}

/// The distance that the arm travels when it starts at `start` and makes
/// `visits` in turn.
pub open spec fn total_distance(visits: Seq<u32>, start: u32) -> nat {
    path_length(seq![start] + visits)
}

/// An arm that visits nothing travels nowhere.
pub proof fn lemma_total_distance_of_none(start: u32)
    ensures
        total_distance(Seq::<u32>::empty(), start) == 0,
{
}

/// An arm that makes one visit travels the distance to it.
pub proof fn lemma_total_distance_of_one(x: u32, start: u32)
    ensures
        total_distance(seq![x], start) == distance(x, start),
{
    let path = seq![start] + seq![x];
    assert(path.drop_last().len() == 1);
    assert(path_length(path.drop_last()) == 0);
}

/// One more visit adds the distance from the last position to it.
pub proof fn lemma_total_distance_push(visits: Seq<u32>, start: u32, next: u32)
    ensures
        total_distance(visits.push(next), start) == total_distance(visits, start) + distance(
            if visits.len() == 0 {
                start
            } else {
                visits.last()
            },
            next,
        ),
{
    let path = seq![start] + visits.push(next);
    assert(path.drop_last() =~= seq![start] + visits);
}

/// No step is longer than the range of cylinder numbers, so the arm travels
/// at most that far for each visit.
pub proof fn lemma_total_distance_bound(visits: Seq<u32>, start: u32)
    ensures
        total_distance(visits, start) <= visits.len() * u32::MAX,
    decreases visits.len(),
{
    if visits.len() > 0 {
        let earlier = visits.drop_last();
        lemma_total_distance_bound(earlier, start);
        lemma_total_distance_push(earlier, start, visits.last());
        assert(earlier.push(visits.last()) =~= visits);
    }
}

} // verus!
