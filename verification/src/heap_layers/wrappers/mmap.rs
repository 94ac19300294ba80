//! The arithmetic of mapping pages: mappings come in whole pages, and only
//! aligned addresses are released.
use vstd::prelude::*;

verus! {

/// `sz` rounded up to a whole number of `page`-byte pages.
pub open spec fn pages_of(sz: int, page: int) -> int {
    page * ((sz + page - 1) / page)
}

/// Mappings of whole pages.
pub struct MmapWrapper;

impl MmapWrapper {
    /// Bytes in a page.
    pub const SIZE: usize = 4096;

    /// Alignment of every mapping.
    pub const ALIGNMENT: usize = 4096;

    /// Bytes mapped for a request of `sz` bytes: none for none, else `sz`
    /// rounded up to whole pages.
    pub fn map_length(sz: usize) -> (r: usize)
        requires
            sz + Self::SIZE <= usize::MAX,
        ensures
            sz == 0 ==> r == 0,
            sz > 0 ==> r == pages_of(sz as int, Self::SIZE as int),
            r % Self::SIZE == 0,
            sz <= r < sz + Self::SIZE,
    {
        if sz == 0 {
            return 0;
        }
        Self::unmap_length(sz)
    }

    /// Bytes unmapped for a mapping of `sz` bytes: `sz` rounded up to whole
    /// pages.
    pub fn unmap_length(sz: usize) -> (r: usize)
        requires
            sz + Self::SIZE <= usize::MAX,
        ensures
            r == pages_of(sz as int, Self::SIZE as int),
            r % Self::SIZE == 0,
            sz <= r < sz + Self::SIZE,
    {
        let n = (sz + Self::SIZE - 1) / Self::SIZE;
        assert(4096 * n <= sz + 4095 && sz <= 4096 * n) by (nonlinear_arith)
            requires
                n == (sz + 4095) / 4096,
        ;
        assert((4096 * n) % 4096 == 0) by (nonlinear_arith);
        Self::SIZE * n
    }

    /// Whether the pages at `ptr` may be released: only an aligned address
    /// is.
    pub fn releasable(ptr: usize) -> (r: bool)
        ensures
            r == (ptr % Self::ALIGNMENT == 0),
    {
        ptr % Self::ALIGNMENT == 0
    }
}

} // verus!
