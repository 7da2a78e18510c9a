//! Port selection: the first free port at or above the requested one.
//! The probe itself is the caller's: it hands in the ports it found
//! taken.

use vstd::prelude::*;

verus! {

/// Whether a port is among the taken ones.
pub fn port_taken(taken: &Vec<u16>, p: u16) -> (r: bool)
    ensures
        r == taken@.contains(p),
{
    let n = taken.len();
    for i in 0..n
        invariant
            n == taken@.len(),
            forall|j: int| 0 <= j < i ==> taken@[j] != p,
    {
        if taken[i] == p {
            return true;
        }
    }
    proof {
        assert(!taken@.contains(p));
    }
    false
}

/// The first port at or above `start` that is not taken, or `None`
/// when every remaining port is.
pub fn find_available_port(start: u16, taken: &Vec<u16>) -> (r: Option<u16>)
    ensures
        match r {
            Some(p) => start <= p && !taken@.contains(p) && forall|q: u16|
                start <= q < p ==> taken@.contains(q),
            None => forall|q: u16| start <= q ==> taken@.contains(q),
        },
{
    let mut p = start;
    loop
        invariant
            start <= p,
            forall|q: u16| start <= q < p ==> taken@.contains(q),
        decreases u16::MAX - p,
    {
        if !port_taken(taken, p) {
            return Some(p);
        }
        if p == u16::MAX {
            return None;
        }
        p = p + 1;
    }
}

} // verus!
