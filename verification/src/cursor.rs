//! Tracking of the last block height acted upon.

use vstd::prelude::*;

verus! {

/// Remembers the highest block height already acted upon, and advances only
/// when a strictly greater height is observed.
pub struct BlockCursor {
    last_seen: u64,
}

impl BlockCursor {
    /// The height most recently acted upon.
    pub closed spec fn last(&self) -> u64 {
        self.last_seen
    }

    /// Starts the cursor at the height observed at process start.
    pub fn new(initial: u64) -> (r: BlockCursor)
        ensures
            r.last() == initial,
    {
        BlockCursor { last_seen: initial }
    }

    /// Moves the cursor forward only on a strictly greater height; a
    /// non-increasing height is a no-op and returns nothing.
    pub fn advance(&mut self, current: u64) -> (r: Option<u64>)
        ensures
            current > old(self).last() ==> r == Some(current) && final(self).last() == current,
            current <= old(self).last() ==> r is None && final(self).last() == old(self).last(),
    {
        if current > self.last_seen {
            self.last_seen = current;
            Some(current)
        } else {
            None
        }
    }
}

} // verus!
