//! Cylinder positions and the distance between them.

use vstd::prelude::*;

verus! {

/// The distance `|a - b|` between two cylinders.
pub open spec fn distance(a: u32, b: u32) -> nat {
    if a <= b {
        (b - a) as nat
    } else {
        (a - b) as nat
    }
}

/// Every cylinder of `s` lies on a disk whose highest cylinder is
/// `cylinder_count`.
pub open spec fn on_disk(s: Seq<u32>, cylinder_count: u32) -> bool {
    forall|i: int| 0 <= i < s.len() ==> s[i] <= cylinder_count
}

/// Computes the distance between two cylinders.
pub fn seek_distance(a: u32, b: u32) -> (d: u32)
    ensures
        d == distance(a, b),
{
    if a <= b {
        b - a
    } else {
        a - b
    }
}

} // verus!
