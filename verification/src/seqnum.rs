//! Wrap-aware TCP sequence-number arithmetic.
//!
//! Sequence numbers live on a ring of size 2^32.  A candidate value is
//! "newer" than a stored one exactly when the forward distance from the
//! stored value to the candidate is less than the largest window any peer
//! could advertise (`TCP_MAX_WINDOW`).  Plain `<` on the raw numbers is wrong
//! across the wrap point; every comparison in this crate goes through the
//! predicates below.

use vstd::prelude::*;

verus! {

/// The largest receive window representable with the TCP window-scale
/// option: 65535 scaled by 2^14.  Any in-flight data span is smaller.
pub const TCP_MAX_WINDOW: u32 = 65535 * 16384;

/// Forward distance from `from` to `to` on the 2^32 ring.
pub open spec fn seq_distance(from: u32, to: u32) -> int {
    if to >= from {
        to - from
    } else {
        to + 0x1_0000_0000 - from
    }
}

/// `candidate` supersedes `stored` when it lies at most `TCP_MAX_WINDOW`
/// ahead of it on the ring (distance 0, the same value, is allowed).
pub open spec fn seq_newer(stored: u32, candidate: u32) -> bool {
    seq_distance(stored, candidate) < TCP_MAX_WINDOW
}

/// Computes the forward distance from `from` to `to` on the ring.
pub fn seq_offset(from: u32, to: u32) -> (r: u32)
    ensures
        r == seq_distance(from, to),
{
    to.wrapping_sub(from)
}

} // verus!
