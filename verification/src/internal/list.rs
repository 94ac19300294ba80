//! Ids of the miniheap free lists.
use vstd::prelude::*;

use super::MiniHeapId;

verus! {

/// The id that stands for a list head.
pub fn head() -> (r: MiniHeapId)
    ensures
        r.0 == -1,
{
    MiniHeapId(-1)
}

pub const FULL: u8 = 0;

pub const PARTIAL: u8 = 1;

pub const EMPTY: u8 = 2;

pub const ATTACHED: u8 = 3;

/// Number of free list ids.
pub const MAX: u8 = 4;

} // verus!
