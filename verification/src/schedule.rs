//! The visit orders of the sweeping algorithms, as sequences.
//!
//! All three split the requests at the arm: those below it and those at or
//! above it. They differ in how each part is ordered and in whether the arm
//! travels on to the edge of the disk. Where there is no request, there is
//! no visit: an idle arm does not travel to an edge either.

use crate::app::Direction;
use crate::closeness::{closeness_order, lemma_closeness_order, lemma_closeness_order_unique};
use crate::order::{
    ascending_order, at_or_above, below, descending_order, lemma_ascending_order,
    lemma_ascending_order_unique, lemma_descending_order, lemma_descending_order_unique,
    lemma_parts_make_whole,
};
use crate::position::{distance, on_disk};
use crate::seek::{lemma_total_distance_of_one, lemma_total_distance_push, total_distance};
use vstd::multiset::Multiset;
use vstd::prelude::*;

verus! {

/// The visit to the edge of the disk at `cylinder`: made unless the
/// requests already take the arm there.
pub open spec fn boundary_visit(requests: Seq<u32>, cylinder: u32) -> Seq<u32> {
    if requests.contains(cylinder) {
        Seq::empty()
    } else {
        seq![cylinder]
    }
}

/// The edge of the disk that lies in `direction`.
pub open spec fn edge(direction: Direction, cylinder_count: u32) -> u32 {
    match direction {
        Direction::Left => 0,
        Direction::Right => cylinder_count,
    }
}

/// SCAN: sweep in `direction` to the edge of the disk, then turn and sweep
/// back over the remaining requests. Without requests the arm stays where
/// it is.
pub open spec fn scan_order(
    requests: Seq<u32>,
    head: u32,
    direction: Direction,
    cylinder_count: u32,
) -> Seq<u32> {
    let left = descending_order(requests.filter(below(head)));
    let right = ascending_order(requests.filter(at_or_above(head)));
    if requests.len() == 0 {
        Seq::empty()
    } else {
        match direction {
            Direction::Left => left + boundary_visit(requests, 0) + right,
            Direction::Right => right + boundary_visit(requests, cylinder_count) + left,
        }
    }
}

/// C-SCAN: sweep in `direction` to the edge of the disk, cross to the
/// opposite edge, and go on sweeping in the same direction. Without
/// requests the arm stays where it is.
pub open spec fn cscan_order(
    requests: Seq<u32>,
    head: u32,
    direction: Direction,
    cylinder_count: u32,
) -> Seq<u32> {
    let left = requests.filter(below(head));
    let right = requests.filter(at_or_above(head));
    if requests.len() == 0 {
        Seq::empty()
    } else {
        match direction {
            Direction::Left => descending_order(left) + boundary_visit(requests, 0)
                + boundary_visit(requests, cylinder_count) + descending_order(right),
            Direction::Right => ascending_order(right) + boundary_visit(
                requests,
                cylinder_count,
            ) + boundary_visit(requests, 0) + ascending_order(left),
        }
    }
}

/// C-LOOK: sweep in `direction` over the requests on that side, cross to the
/// farthest request on the other side, and go on sweeping in the same
/// direction. The arm never travels to an edge that nobody asked for.
pub open spec fn clook_order(requests: Seq<u32>, head: u32, direction: Direction) -> Seq<u32> {
    let left = requests.filter(below(head));
    let right = requests.filter(at_or_above(head));
    match direction {
        Direction::Left => descending_order(left) + descending_order(right),
        Direction::Right => ascending_order(right) + ascending_order(left),
    }
}

/// The cylinders of `visits`, and `cylinder` once more unless `requests`
/// holds it.
pub open spec fn and_boundary(visits: Multiset<u32>, requests: Seq<u32>, cylinder: u32)
    -> Multiset<u32> {
    if requests.contains(cylinder) {
        visits
    } else {
        visits.insert(cylinder)
    }
}

/// The two parts of the requests, each in either order, hold the requests.
proof fn lemma_parts_in_order(requests: Seq<u32>, head: u32)
    ensures
        ({
            let left = requests.filter(below(head));
            let right = requests.filter(at_or_above(head));
            &&& ascending_order(left).to_multiset() == left.to_multiset()
            &&& descending_order(left).to_multiset() == left.to_multiset()
            &&& ascending_order(right).to_multiset() == right.to_multiset()
            &&& descending_order(right).to_multiset() == right.to_multiset()
            &&& left.to_multiset().add(right.to_multiset()) == requests.to_multiset()
        }),
{
    lemma_ascending_order(requests.filter(below(head)));
    lemma_descending_order(requests.filter(below(head)));
    lemma_ascending_order(requests.filter(at_or_above(head)));
    lemma_descending_order(requests.filter(at_or_above(head)));
    lemma_parts_make_whole(requests, head);
}

/// What a boundary visit adds to the cylinders visited.
proof fn lemma_boundary_visit(visits: Multiset<u32>, requests: Seq<u32>, cylinder: u32)
    ensures
        visits.add(boundary_visit(requests, cylinder).to_multiset()) == and_boundary(
            visits,
            requests,
            cylinder,
        ),
{
    broadcast use vstd::seq_lib::group_to_multiset_ensures;
    broadcast use vstd::multiset::group_multiset_axioms;

    let visit = boundary_visit(requests, cylinder);
    if requests.contains(cylinder) {
        assert(visits.add(visit.to_multiset()) =~= visits);
    } else {
        assert(visit =~= Seq::<u32>::empty().push(cylinder));
        assert(visits.add(visit.to_multiset()) =~= visits.insert(cylinder));
    }
}

/// SCAN of no requests visits nothing. Otherwise it visits every request
/// as often as it was made, and besides them only the edge that lies in
/// `direction`: once if no request names that cylinder, not at all if one
/// does.
pub proof fn lemma_scan_adds_one_boundary(
    requests: Seq<u32>,
    head: u32,
    direction: Direction,
    cylinder_count: u32,
)
    ensures
        requests.len() == 0 ==> scan_order(requests, head, direction, cylinder_count)
            == Seq::<u32>::empty(),
        requests.len() > 0 ==> scan_order(
            requests,
            head,
            direction,
            cylinder_count,
        ).to_multiset() == and_boundary(
            requests.to_multiset(),
            requests,
            edge(direction, cylinder_count),
        ),
        scan_order(requests, head, direction, cylinder_count).len() == requests.len() + (
        if requests.len() == 0 || requests.contains(edge(direction, cylinder_count)) {
            0int
        } else {
            1int
        }),
{
    broadcast use vstd::seq_lib::lemma_multiset_commutative;

    if requests.len() > 0 {
        let left = descending_order(requests.filter(below(head)));
        let right = ascending_order(requests.filter(at_or_above(head)));
        let turn = boundary_visit(requests, edge(direction, cylinder_count));
        let out = scan_order(requests, head, direction, cylinder_count);
        lemma_parts_in_order(requests, head);
        lemma_boundary_visit(requests.to_multiset(), requests, edge(direction, cylinder_count));
        assert(out.to_multiset() =~= left.to_multiset().add(right.to_multiset()).add(
            turn.to_multiset(),
        ));
        vstd::seq_lib::to_multiset_len(out);
        vstd::seq_lib::to_multiset_len(requests);
    }
}

/// C-SCAN of no requests visits nothing. Otherwise it visits every request
/// as often as it was made, and besides them only the two edges of the
/// disk: each once if no request names that cylinder, not at all if one
/// does.
pub proof fn lemma_cscan_adds_two_boundaries(
    requests: Seq<u32>,
    head: u32,
    direction: Direction,
    cylinder_count: u32,
)
    ensures
        requests.len() == 0 ==> cscan_order(requests, head, direction, cylinder_count)
            == Seq::<u32>::empty(),
        requests.len() > 0 ==> cscan_order(
            requests,
            head,
            direction,
            cylinder_count,
        ).to_multiset() == and_boundary(
            and_boundary(requests.to_multiset(), requests, 0),
            requests,
            cylinder_count,
        ),
        cscan_order(requests, head, direction, cylinder_count).len() == requests.len() + (
        if requests.len() == 0 || requests.contains(0) {
            0int
        } else {
            1int
        }) + (if requests.len() == 0 || requests.contains(cylinder_count) {
            0int
        } else {
            1int
        }),
{
    broadcast use vstd::seq_lib::lemma_multiset_commutative;

    if requests.len() > 0 {
        let left = requests.filter(below(head));
        let right = requests.filter(at_or_above(head));
        let low = boundary_visit(requests, 0);
        let high = boundary_visit(requests, cylinder_count);
        let out = cscan_order(requests, head, direction, cylinder_count);
        lemma_parts_in_order(requests, head);
        lemma_boundary_visit(requests.to_multiset(), requests, 0);
        lemma_boundary_visit(
            and_boundary(requests.to_multiset(), requests, 0),
            requests,
            cylinder_count,
        );
        assert(out.to_multiset() =~= left.to_multiset().add(right.to_multiset()).add(
            low.to_multiset(),
        ).add(high.to_multiset()));
        vstd::seq_lib::to_multiset_len(out);
        vstd::seq_lib::to_multiset_len(requests);
    }
}

/// C-LOOK visits every request as often as it was made, and nothing else.
pub proof fn lemma_clook_rearranges(requests: Seq<u32>, head: u32, direction: Direction)
    ensures
        clook_order(requests, head, direction).to_multiset() == requests.to_multiset(),
        clook_order(requests, head, direction).len() == requests.len(),
{
    broadcast use vstd::seq_lib::lemma_multiset_commutative;

    let left = requests.filter(below(head));
    let right = requests.filter(at_or_above(head));
    let out = clook_order(requests, head, direction);
    lemma_parts_in_order(requests, head);
    assert(out.to_multiset() =~= left.to_multiset().add(right.to_multiset()));
    vstd::seq_lib::to_multiset_len(out);
    vstd::seq_lib::to_multiset_len(requests);
}

/// A visit order that holds only requests and edges of the disk stays on
/// the disk if the requests do.
proof fn lemma_known_visits_on_disk(visits: Seq<u32>, requests: Seq<u32>, cylinder_count: u32)
    requires
        on_disk(requests, cylinder_count),
        forall|v: u32|
            visits.to_multiset().count(v) > 0 ==> requests.to_multiset().count(v) > 0 || v == 0
                || v == cylinder_count,
    ensures
        on_disk(visits, cylinder_count),
{
    broadcast use vstd::seq_lib::group_to_multiset_ensures;

    assert forall|i: int| 0 <= i < visits.len() implies visits[i] <= cylinder_count by {
        let v = visits[i];
        assert(visits.to_multiset().count(v) > 0);
        if requests.to_multiset().count(v) > 0 {
            assert(requests.contains(v));
        }
    }
}

/// Where every request names a cylinder of the disk, so does every visit,
/// whichever algorithm orders them.
pub proof fn lemma_visits_stay_on_disk(
    requests: Seq<u32>,
    head: u32,
    direction: Direction,
    cylinder_count: u32,
)
    requires
        on_disk(requests, cylinder_count),
    ensures
        on_disk(closeness_order(requests, head), cylinder_count),
        on_disk(scan_order(requests, head, direction, cylinder_count), cylinder_count),
        on_disk(cscan_order(requests, head, direction, cylinder_count), cylinder_count),
        on_disk(clook_order(requests, head, direction), cylinder_count),
{
    broadcast use vstd::multiset::group_multiset_axioms;

    lemma_closeness_order(requests, head);
    lemma_scan_adds_one_boundary(requests, head, direction, cylinder_count);
    lemma_cscan_adds_two_boundaries(requests, head, direction, cylinder_count);
    lemma_clook_rearranges(requests, head, direction);
    lemma_known_visits_on_disk(closeness_order(requests, head), requests, cylinder_count);
    lemma_known_visits_on_disk(clook_order(requests, head, direction), requests, cylinder_count);
    if requests.len() > 0 {
        lemma_known_visits_on_disk(
            scan_order(requests, head, direction, cylinder_count),
            requests,
            cylinder_count,
        );
        lemma_known_visits_on_disk(
            cscan_order(requests, head, direction, cylinder_count),
            requests,
            cylinder_count,
        );
    }
}

/// The distance travelled over a path of five visits, step by step.
proof fn lemma_total_distance_of_five(a: u32, b: u32, c: u32, d: u32, e: u32, start: u32)
    ensures
        total_distance(seq![a, b, c, d, e], start) == distance(start, a) + distance(a, b)
            + distance(b, c) + distance(c, d) + distance(d, e),
{
    lemma_total_distance_of_one(a, start);
    lemma_total_distance_push(seq![a], start, b);
    lemma_total_distance_push(seq![a, b], start, c);
    lemma_total_distance_push(seq![a, b, c], start, d);
    lemma_total_distance_push(seq![a, b, c, d], start, e);
    assert(seq![a].push(b) =~= seq![a, b]);
    assert(seq![a, b].push(c) =~= seq![a, b, c]);
    assert(seq![a, b, c].push(d) =~= seq![a, b, c, d]);
    assert(seq![a, b, c, d].push(e) =~= seq![a, b, c, d, e]);
}

/// Serving the nearest request first does not always make the arm travel
/// least: there is a queue that each of the sweeping algorithms serves over
/// a shorter path.
pub proof fn lemma_nearest_first_not_always_shortest()
    ensures
        exists|requests: Seq<u32>, head: u32, direction: Direction, cylinder_count: u32|
            {
                let nearest = total_distance(closeness_order(requests, head), head);
                &&& total_distance(
                    #[trigger] scan_order(requests, head, direction, cylinder_count),
                    head,
                ) < nearest
                &&& total_distance(cscan_order(requests, head, direction, cylinder_count), head)
                    < nearest
                &&& total_distance(clook_order(requests, head, direction), head) < nearest
            },
{
    let head = 5u32;
    let top = 9u32;
    let requests = seq![4u32, 7u32, 2u32, 9u32, 0u32];
    let low = seq![4u32, 2u32, 0u32];
    let high = seq![7u32, 9u32];

    // By closeness the queue is already in order, and the arm zigzags.
    lemma_closeness_order_unique(requests, requests, head);
    lemma_total_distance_of_five(4, 7, 2, 9, 0, head);
    assert(total_distance(closeness_order(requests, head), head) == 25);

    // The arm divides the queue into 4, 2, 0 below it and 7, 9 above it.
    assert(requests.filter(below(head)) == low && requests.filter(at_or_above(head)) == high) by {
        let none = Seq::<u32>::empty();
        none.lemma_filter_len(below(head));
        none.lemma_filter_len(at_or_above(head));
        none.lemma_filter_push(4, below(head));
        none.lemma_filter_push(4, at_or_above(head));
        seq![4u32].lemma_filter_push(7, below(head));
        seq![4u32].lemma_filter_push(7, at_or_above(head));
        seq![4u32, 7u32].lemma_filter_push(2, below(head));
        seq![4u32, 7u32].lemma_filter_push(2, at_or_above(head));
        seq![4u32, 7u32, 2u32].lemma_filter_push(9, below(head));
        seq![4u32, 7u32, 2u32].lemma_filter_push(9, at_or_above(head));
        seq![4u32, 7u32, 2u32, 9u32].lemma_filter_push(0, below(head));
        seq![4u32, 7u32, 2u32, 9u32].lemma_filter_push(0, at_or_above(head));
        assert(none.push(4) =~= seq![4u32]);
        assert(seq![4u32].push(7) =~= seq![4u32, 7u32]);
        assert(seq![4u32, 7u32].push(2) =~= seq![4u32, 7u32, 2u32]);
        assert(seq![4u32, 7u32, 2u32].push(9) =~= seq![4u32, 7u32, 2u32, 9u32]);
        assert(seq![4u32, 7u32, 2u32, 9u32].push(0) =~= requests);
        assert(none.filter(below(head)).push(4).push(2).push(0) =~= low);
        assert(none.filter(at_or_above(head)).push(7).push(9) =~= high);
    }
    lemma_descending_order_unique(low, low);
    assert(seq![9u32, 7u32].to_multiset() == high.to_multiset()) by {
        broadcast use vstd::seq_lib::group_to_multiset_ensures;

        assert(seq![9u32, 7u32] =~= Seq::<u32>::empty().push(9).push(7));
        assert(high =~= Seq::<u32>::empty().push(7).push(9));
        assert(seq![9u32, 7u32].to_multiset() =~= high.to_multiset());
    }
    lemma_descending_order_unique(seq![9u32, 7u32], high);
    lemma_ascending_order_unique(high, high);

    // Both edges of the disk are requested, so no sweep adds a visit.
    assert(requests[4] == 0 && requests[3] == top);
    assert(boundary_visit(requests, 0) == Seq::<u32>::empty());
    assert(boundary_visit(requests, top) == Seq::<u32>::empty());

    assert(scan_order(requests, head, Direction::Left, top) =~= seq![4u32, 2u32, 0u32, 7u32, 9u32]);
    lemma_total_distance_of_five(4, 2, 0, 7, 9, head);
    assert(cscan_order(requests, head, Direction::Left, top) =~= seq![4u32, 2u32, 0u32, 9u32, 7u32]);
    assert(clook_order(requests, head, Direction::Left) =~= seq![4u32, 2u32, 0u32, 9u32, 7u32]);
    lemma_total_distance_of_five(4, 2, 0, 9, 7, head);
}

} // verus!
