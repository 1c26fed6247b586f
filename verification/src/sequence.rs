//! Small operations on request lists that the algorithms are built from.

use crate::order::{at_or_above, below};
use vstd::prelude::*;

verus! {

/// Tells whether `cylinder` is among `requests`.
pub fn holds(requests: &Vec<u32>, cylinder: u32) -> (found: bool)
    ensures
        found == requests@.contains(cylinder),
{
    let mut i: usize = 0;
    while i < requests.len()
        invariant
            i <= requests.len(),
            forall|k: int| 0 <= k < i ==> requests@[k] != cylinder,
        decreases requests.len() - i,
    {
        if requests[i] == cylinder {
            return true;
        }
        i += 1;
    }
    false
}

/// Splits `requests` at `head`: first the requests below it, then those at
/// or above it, each part in the order of `requests`.
pub fn split_at_head(requests: &Vec<u32>, head: u32) -> (parts: (Vec<u32>, Vec<u32>))
    ensures
        parts.0@ == requests@.filter(below(head)),
        parts.1@ == requests@.filter(at_or_above(head)),
{
    let mut left: Vec<u32> = Vec::new();
    let mut right: Vec<u32> = Vec::new();
    let mut i: usize = 0;
    proof {
        let none = requests@.take(0);
        none.lemma_filter_len(below(head));
        none.lemma_filter_len(at_or_above(head));
    }
    while i < requests.len()
        invariant
            i <= requests.len(),
            left@ =~= requests@.take(i as int).filter(below(head)),
            right@ =~= requests@.take(i as int).filter(at_or_above(head)),
        decreases requests.len() - i,
    {
        let val: u32 = requests[i];
        proof {
            let seen = requests@.take(i as int);
            seen.lemma_filter_push(val, below(head));
            seen.lemma_filter_push(val, at_or_above(head));
            assert(seen.push(val) =~= requests@.take(i + 1));
        }
        if val < head {
            left.push(val);
        } else {
            right.push(val);
        }
        i += 1;
    }
    assert(requests@.take(requests.len() as int) =~= requests@);
    (left, right)
}

/// The cylinders of `v` from the last to the first.
pub fn reversed(v: &Vec<u32>) -> (r: Vec<u32>)
    ensures
        r@ == v@.reverse(),
{
    let mut r: Vec<u32> = Vec::new();
    let mut i: usize = v.len();
    while i > 0
        invariant
            i <= v.len(),
            r@.len() == v.len() - i,
            forall|k: int| 0 <= k < r@.len() ==> r@[k] == v@[v.len() - 1 - k],
        decreases i,
    {
        i -= 1;
        r.push(v[i]);
    }
    r
}

} // verus!
