//! Location of an object: its miniheap and its slot.
use vstd::prelude::*;

verus! {

#[derive(Debug, PartialEq, Eq, PartialOrd, Ord, Clone, Copy, Hash, Structural)]
pub struct Entry {
    heap_offset: u8,
    bit_offset: u8,
}

} // verus!
