//! The direction of each step of the arm.

use vstd::prelude::*;

verus! {

/// How the arm moves from one visited cylinder to the next.
#[derive(PartialEq, Eq, Structural, Debug, Clone, Copy)]
pub enum Movement {
    /// The arm stays where it is.
    Stationary,
    /// The arm moves towards cylinder 0.
    Left,
    /// The arm moves towards the highest cylinder.
    Right,
}

/// The movement that takes the arm from `prev` to `cur`. Staying in place is
/// decided first; of the other steps only one to a higher cylinder goes
/// right.
pub open spec fn movement(prev: u32, cur: u32) -> Movement {
    if cur == prev {
        Movement::Stationary
    } else if cur - prev <= 0 {
        Movement::Left
    } else {
        Movement::Right
    }
}

/// One step of the arm, with its direction.
#[derive(PartialEq, Eq, Structural, Debug, Clone, Copy)]
pub struct Segment {
    /// Where the step starts.
    pub from: u32,
    /// Where the step ends.
    pub to: u32,
    /// The direction of the step.
    pub movement: Movement,
}

/// The step from `from` to `to`.
pub open spec fn segment(from: u32, to: u32) -> Segment {
    Segment { from, to, movement: movement(from, to) }
}

/// The steps that take the arm from `start` through `visits`: as many as
/// there are visits, the first from `start`, each later one from the visit
/// before it.
pub open spec fn path_segments(visits: Seq<u32>, start: u32) -> Seq<Segment> {
    let path = seq![start] + visits;
    Seq::new(visits.len(), |i: int| segment(path[i], path[i + 1]))
}

/// Staying in place is stationary, a step to the next higher cylinder goes
/// right, and a step to the next lower one goes left.
pub proof fn lemma_movement_of_neighbours(p: u32)
    ensures
        movement(p, p) == Movement::Stationary,
        p < u32::MAX ==> movement(p, (p + 1) as u32) == Movement::Right,
        p > 0 ==> movement(p, (p - 1) as u32) == Movement::Left,
{
}

/// A step is stationary exactly when it ends where it starts, goes right
/// exactly when it ends higher, and goes left exactly when it ends lower.
pub proof fn lemma_movement_follows_order(prev: u32, cur: u32)
    ensures
        movement(prev, cur) == Movement::Stationary <==> cur == prev,
        movement(prev, cur) == Movement::Right <==> cur > prev,
        movement(prev, cur) == Movement::Left <==> cur < prev,
{
}

} // verus!
