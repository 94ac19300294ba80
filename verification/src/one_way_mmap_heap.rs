//! A heap that maps pages and never unmaps them.
use vstd::prelude::*;

use crate::common::PAGE_SIZE;
use crate::heap_layers::wrappers::mmap::pages_of;

verus! {

/// Blocks that are mappings never given back.
pub struct OneWayMmapHeap;

impl OneWayMmapHeap {
    /// Bytes mapped for a request of `sz` bytes: none for none, else `sz`
    /// rounded up to whole pages by masking.
    pub fn map_length(sz: usize) -> (r: usize)
        requires
            sz + PAGE_SIZE <= usize::MAX,
        ensures
            sz == 0 ==> r == 0,
            sz > 0 ==> r == pages_of(sz as int, PAGE_SIZE as int),
    {
        if sz == 0 {
            return 0;
        }
        let y = sz + PAGE_SIZE - 1;
        let r = y & !(PAGE_SIZE - 1);
        assert(y & !4095usize == y - y % 4096) by (bit_vector);
        assert(y - y % 4096 == 4096 * (y / 4096)) by (nonlinear_arith);
        r
    }

    /// The size of a block is not recorded: 0.
    pub fn get_size(_ptr: usize) -> (r: usize)
        ensures
            r == 0,
    {
        0
    }

    /// Blocks are never given back: nothing happens.
    pub fn free(_ptr: usize) {
    }
}

} // verus!
