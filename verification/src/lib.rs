//! An in-process network of endpoints that can be wired together and unwired
//! at runtime. All nodes transitively reachable through active links form a
//! group, and every node of a group observes the same shared payload.
//!
//! The library is the connectivity engine itself: a node table, a table of
//! groups, and the merge and split algorithms that keep every group equal to
//! one connected cluster of the link graph. Lock handling and the shared
//! payload cells live outside the library, around it.

pub mod connectivity;
pub mod engine;

use vstd::prelude::*;

verus! {

/// The two group identities involved in a merge or split, in the order in
/// which their locks must be taken: higher identity first. Both sides of a
/// contended pair compute the same order, whichever of the two identities
/// each calls its own, so no two callers ever wait for each other.
pub fn lock_order(x: u64, y: u64) -> (r: (u64, u64))
    ensures
        r.0 >= r.1,
        (r.0 == x && r.1 == y) || (r.0 == y && r.1 == x),
{
    if x > y {
        (x, y)
    } else {
        (y, x)
    }
}

} // verus!
