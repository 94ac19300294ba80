//! The interface every heap layer offers.
use vstd::prelude::*;

pub mod allocator;

use allocator::RawAllocator;

verus! {

/// A raw allocator that can stand under another heap layer.
pub trait FlexableAllocator: RawAllocator {

}

} // verus!
