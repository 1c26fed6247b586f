//! The configuration of the simulated disk and the scheduling algorithms.

use crate::closeness::{
    closeness_order, lemma_closeness_order_unique, lemma_closeness_to_zero_ascends,
    nearest_first, ties_in_order,
};
use crate::movement::{movement, path_segments, Movement, Segment};
use crate::order::{ascending_order, descending_order};
use crate::position::{distance, seek_distance};
use crate::schedule::{
    and_boundary, boundary_visit, clook_order, cscan_order, edge, lemma_clook_rearranges,
    lemma_cscan_adds_two_boundaries, lemma_scan_adds_one_boundary, scan_order,
};
use crate::seek::{
    lemma_total_distance_bound, lemma_total_distance_of_one, lemma_total_distance_push,
    total_distance,
};
use crate::sequence::{holds, reversed, split_at_head};
use crate::sorting::sorted_range;
use vstd::prelude::*;

verus! {

/// The direction in which the arm is sweeping.
#[derive(PartialEq, Eq, Structural, Debug, Clone, Copy)]
pub enum Direction {
    /// Towards the highest cylinder.
    Right,
    /// Towards cylinder 0.
    Left,
}

/// The scheduling algorithm on display.
#[derive(PartialEq, Eq, Structural, Debug, Clone, Copy)]
pub enum Panel {
    /// Shortest seek time first.
    SSTF,
    /// Sweep to the edge of the disk and back.
    SCAN,
    /// Sweep to the edge, cross to the other edge, sweep on.
    CSCAN,
    /// Sweep to the last request, cross to the farthest one, sweep on.
    CLOOK,
}

/// A simulated disk with its pending requests and the algorithm chosen to
/// serve them.
///
/// Positions are meant to lie between 0 and `cylinder_count`. Nothing here
/// depends on that: every function is defined for all values. Where the
/// requests do lie on the disk, so does every visit
/// ([`lemma_visits_stay_on_disk`](crate::schedule::lemma_visits_stay_on_disk)).
pub struct TemplateApp {
    /// The highest cylinder of the disk.
    pub cylinder_count: u32,
    /// The cylinder at which the arm stands.
    pub arm_position_int: u32,
    /// The requested cylinders, in the order in which they were made.
    pub sequence: Vec<u32>,
    /// The algorithm on display.
    pub open_panel: Panel,
    /// The direction in which the arm is sweeping.
    pub direction: Direction,
}

impl Default for TemplateApp {
    /// A disk of one cylinder with one request for it, the arm sweeping left.
    fn default() -> (app: Self)
        ensures
            app.cylinder_count == 0,
            app.arm_position_int == 0,
            app.sequence@ == seq![0u32],
            app.open_panel == Panel::SSTF,
            app.direction == Direction::Left,
    {
        let mut sequence: Vec<u32> = Vec::new();
        sequence.push(0);
        Self {
            cylinder_count: 0,
            arm_position_int: 0,
            sequence,
            open_panel: Panel::SSTF,
            direction: Direction::Left,
        }
    }
}

/// The cylinders of `v` from the lowest to the highest.
fn ascending_sorted(v: &Vec<u32>) -> (sorted: Vec<u32>)
    ensures
        sorted@ == ascending_order(v@),
{
    // The distance from cylinder 0 is the cylinder itself.
    let sorted = TemplateApp::ordered_by_closeness(v, 0);
    proof {
        lemma_closeness_to_zero_ascends(v@);
    }
    sorted
}

/// The cylinders of `v` from the highest to the lowest.
fn descending_sorted(v: &Vec<u32>) -> (sorted: Vec<u32>)
    ensures
        sorted@ == descending_order(v@),
{
    let ascending = ascending_sorted(v);
    reversed(&ascending)
}

/// Appends the visit to the edge at `cylinder` to `visits`, unless
/// `requests` already takes the arm there.
fn visit_boundary(visits: &mut Vec<u32>, requests: &Vec<u32>, cylinder: u32)
    ensures
        final(visits)@ == old(visits)@ + boundary_visit(requests@, cylinder),
{
    if !holds(requests, cylinder) {
        visits.push(cylinder);
    }
}

impl TemplateApp {
    /// The visit order that the chosen algorithm gives for this disk.
    pub open spec fn plan(&self) -> Seq<u32> {
        match self.open_panel {
            Panel::SSTF => closeness_order(self.sequence@, self.arm_position_int),
            Panel::SCAN => scan_order(
                self.sequence@,
                self.arm_position_int,
                self.direction,
                self.cylinder_count,
            ),
            Panel::CSCAN => cscan_order(
                self.sequence@,
                self.arm_position_int,
                self.direction,
                self.cylinder_count,
            ),
            Panel::CLOOK => clook_order(self.sequence@, self.arm_position_int, self.direction),
        }
    }

    /// Shortest seek time first: the requests of `input` by their distance
    /// from `base`, nearest first. Requests at the same distance keep the
    /// order in which they stand in `input`.
    pub fn ordered_by_closeness(input: &Vec<u32>, base: u32) -> (result: Vec<u32>)
        ensures
            result@ == closeness_order(input@, base),
            result@.to_multiset() == input@.to_multiset(),
            result@.len() == input@.len(),
            nearest_first(result@, base),
            ties_in_order(result@, input@, base),
    {
        let result = sorted_range(input, 0, input.len(), base);
        proof {
            assert(input@.subrange(0, input.len() as int) =~= input@);
            lemma_closeness_order_unique(result@, input@, base);
            vstd::seq_lib::to_multiset_len(result@);
            vstd::seq_lib::to_multiset_len(input@);
        }
        result
    }

    /// The direction of the step from `prev` to `cur`.
    pub fn arrow_direction(prev: u32, cur: u32) -> (step: Movement)
        ensures
            step == movement(prev, cur),
            step == Movement::Stationary <==> cur == prev,
            step == Movement::Right <==> cur > prev,
            step == Movement::Left <==> cur < prev,
    {
        if cur == prev {
            Movement::Stationary
        } else if cur <= prev {
            Movement::Left
        } else {
            Movement::Right
        }
    }

    /// C-LOOK: the requests on the side of `head_value` that lies in
    /// `direction`, nearest first, then those on the other side, farthest
    /// first. The result holds the requests and nothing else.
    pub fn clook(vec: &Vec<u32>, head_value: u32, direction: Direction) -> (output: Vec<u32>)
        ensures
            output@ == clook_order(vec@, head_value, direction),
            output@.to_multiset() == vec@.to_multiset(),
            output@.len() == vec@.len(),
    {
        let (left, right) = split_at_head(vec, head_value);
        let mut output: Vec<u32> = Vec::new();
        match direction {
            Direction::Left => {
                let mut left = descending_sorted(&left);
                let mut right = descending_sorted(&right);
                output.append(&mut left);
                output.append(&mut right);
            },
            Direction::Right => {
                let mut right = ascending_sorted(&right);
                let mut left = ascending_sorted(&left);
                output.append(&mut right);
                output.append(&mut left);
            },
        }
        proof {
            lemma_clook_rearranges(vec@, head_value, direction);
        }
        output
    }

    /// SCAN: the requests on the side of `head_value` that lies in
    /// `direction`, nearest first, then the edge of the disk on that side
    /// unless a request names it, then the requests on the other side,
    /// nearest first. Without requests the result is empty: the arm does not
    /// travel to the edge.
    pub fn scan(
        vec: &Vec<u32>,
        head_value: u32,
        direction: Direction,
        cylinder_count: u32,
    ) -> (output: Vec<u32>)
        ensures
            output@ == scan_order(vec@, head_value, direction, cylinder_count),
            vec@.len() == 0 ==> output@.len() == 0,
            vec@.len() > 0 ==> output@.to_multiset() == and_boundary(
                vec@.to_multiset(),
                vec@,
                edge(direction, cylinder_count),
            ),
            vec@.len() <= output@.len() <= vec@.len() + 1,
    {
        let mut output: Vec<u32> = Vec::new();
        proof {
            lemma_scan_adds_one_boundary(vec@, head_value, direction, cylinder_count);
        }
        if vec.len() == 0 {
            return output;
        }
        let (left, right) = split_at_head(vec, head_value);
        let mut left = descending_sorted(&left);
        let mut right = ascending_sorted(&right);
        match direction {
            Direction::Left => {
                output.append(&mut left);
                visit_boundary(&mut output, vec, 0);
                output.append(&mut right);
            },
            Direction::Right => {
                output.append(&mut right);
                visit_boundary(&mut output, vec, cylinder_count);
                output.append(&mut left);
            },
        }
        output
    }

    /// C-SCAN: the requests on the side of `head_value` that lies in
    /// `direction`, nearest first, then the edge of the disk on that side
    /// and the opposite edge, each unless a request names it, then the
    /// requests on the other side, farthest first. Without requests the
    /// result is empty: the arm does not travel to the edges.
    ///
    /// The crossing from edge to edge is an ordinary step of the path: its
    /// full length counts towards the distance travelled.
    pub fn cscan(
        vec: &Vec<u32>,
        head_value: u32,
        direction: Direction,
        cylinder_count: u32,
    ) -> (output: Vec<u32>)
        ensures
            output@ == cscan_order(vec@, head_value, direction, cylinder_count),
            vec@.len() == 0 ==> output@.len() == 0,
            vec@.len() > 0 ==> output@.to_multiset() == and_boundary(
                and_boundary(vec@.to_multiset(), vec@, 0),
                vec@,
                cylinder_count,
            ),
            vec@.len() <= output@.len() <= vec@.len() + 2,
    {
        let mut output: Vec<u32> = Vec::new();
        proof {
            lemma_cscan_adds_two_boundaries(vec@, head_value, direction, cylinder_count);
        }
        if vec.len() == 0 {
            return output;
        }
        let (left, right) = split_at_head(vec, head_value);
        match direction {
            Direction::Left => {
                let mut left = descending_sorted(&left);
                let mut right = descending_sorted(&right);
                output.append(&mut left);
                visit_boundary(&mut output, vec, 0);
                visit_boundary(&mut output, vec, cylinder_count);
                output.append(&mut right);
            },
            Direction::Right => {
                let mut right = ascending_sorted(&right);
                let mut left = ascending_sorted(&left);
                output.append(&mut right);
                visit_boundary(&mut output, vec, cylinder_count);
                visit_boundary(&mut output, vec, 0);
                output.append(&mut left);
            },
        }
        output
    }

    /// The distance that the arm travels when it starts at `start` and makes
    /// `visits` in turn: the distance to the first visit, and from each visit
    /// to the next.
    pub fn total_seek(visits: &Vec<u32>, start: u32) -> (total: u128)
        ensures
            total == total_distance(visits@, start),
            visits@.len() == 0 ==> total == 0,
            visits@.len() == 1 ==> total == distance(visits@[0], start),
    {
        let mut total: u128 = 0;
        let mut prev: u32 = start;
        let mut i: usize = 0;
        while i < visits.len()
            invariant
                i <= visits.len(),
                total == total_distance(visits@.take(i as int), start),
                prev == (if i == 0 {
                    start
                } else {
                    visits@[i - 1]
                }),
            decreases visits.len() - i,
        {
            let cur: u32 = visits[i];
            proof {
                let seen = visits@.take(i as int);
                lemma_total_distance_push(seen, start, cur);
                assert(seen.push(cur) =~= visits@.take(i + 1));
                lemma_total_distance_bound(seen, start);
                assert(seen.len() * u32::MAX <= usize::MAX * u32::MAX) by (nonlinear_arith)
                    requires
                        seen.len() <= usize::MAX,
                ;
            }
            total = total + seek_distance(prev, cur) as u128;
            prev = cur;
            i += 1;
        }
        proof {
            assert(visits@.take(visits.len() as int) =~= visits@);
            if visits@.len() == 1 {
                assert(visits@ =~= seq![visits@[0]]);
                lemma_total_distance_of_one(visits@[0], start);
            }
        }
        total
    }

    /// The steps that take the arm from `start` through `visits`, each with
    /// its direction.
    pub fn segments(visits: &Vec<u32>, start: u32) -> (steps: Vec<Segment>)
        ensures
            steps@ == path_segments(visits@, start),
            steps@.len() == visits@.len(),
    {
        let mut steps: Vec<Segment> = Vec::new();
        let mut prev: u32 = start;
        let mut i: usize = 0;
        let ghost path = seq![start] + visits@;
        while i < visits.len()
            invariant
                i <= visits.len(),
                path == seq![start] + visits@,
                prev == path[i as int],
                steps@.len() == i,
                forall|k: int| 0 <= k < i ==> steps@[k] == path_segments(visits@, start)[k],
            decreases visits.len() - i,
        {
            let cur: u32 = visits[i];
            steps.push(Segment { from: prev, to: cur, movement: Self::arrow_direction(prev, cur) });
            prev = cur;
            i += 1;
        }
        steps
    }

    /// The order in which the chosen algorithm visits the requests of this
    /// disk.
    pub fn visit_order(&self) -> (order: Vec<u32>)
        ensures
            order@ == self.plan(),
    {
        match self.open_panel {
            Panel::SSTF => Self::ordered_by_closeness(&self.sequence, self.arm_position_int),
            Panel::SCAN => Self::scan(
                &self.sequence,
                self.arm_position_int,
                self.direction,
                self.cylinder_count,
            ),
            Panel::CSCAN => Self::cscan(
                &self.sequence,
                self.arm_position_int,
                self.direction,
                self.cylinder_count,
            ),
            Panel::CLOOK => Self::clook(&self.sequence, self.arm_position_int, self.direction),
        }
    }
}

} // verus!
