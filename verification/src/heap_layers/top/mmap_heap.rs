//! The top of a heap-layer stack: blocks are whole mappings of pages.
use vstd::prelude::*;

use crate::heap_layers::wrappers::mmap::{pages_of, MmapWrapper};

verus! {

/// Blocks that are mappings of their own, sized by the caller.
pub struct SizedMmapHeap;

impl SizedMmapHeap {
    /// Mappings come zeroed.
    pub const ZERO_MEMORY: usize = 1;

    /// Alignment of every block.
    pub const ALIGNMENT: usize = MmapWrapper::ALIGNMENT;

    /// Bytes mapped for a block of `sz` bytes: `sz` rounded up to whole
    /// pages by masking.
    pub fn map_length(sz: usize) -> (r: usize)
        requires
            sz + MmapWrapper::SIZE <= usize::MAX,
        ensures
            r == pages_of(sz as int, MmapWrapper::SIZE as int),
    {
        let y = sz + MmapWrapper::SIZE - 1;
        let r = y & !(MmapWrapper::SIZE - 1);
        assert(y & !4095usize == y - y % 4096) by (bit_vector);
        assert(y - y % 4096 == 4096 * (y / 4096)) by (nonlinear_arith);
        r
    }

    /// The size of a block is not recorded: 0.
    pub fn get_size(_ptr: usize) -> (r: usize)
        ensures
            r == 0,
    {
        0
    }
}

/// `ahash`'s `RandomState`: the hasher of a block table.
#[verifier::external_type_specification]
#[verifier::external_body]
pub struct ExRandomState(ahash::RandomState);

/// A table of blocks: `hashbrown`'s map from addresses to sizes, hashed
/// with `ahash`. Its contents are named by `block_table`.
#[verifier::external_body]
pub struct BlockTable {
    table: hashbrown::HashMap<usize, usize, ahash::RandomState>,
}

/// The blocks a block table records, each with its size.
pub uninterp spec fn block_table(m: BlockTable) -> Map<usize, usize>;

/// `ahash`'s `RandomState::with_seeds`: a hasher keyed by the four seeds
/// given; it draws on no source of randomness and cannot fail. Nothing is
/// claimed of the hasher: only the table's contents are stated.
#[verifier::external_body]
fn state_with_seeds(k0: u64, k1: u64, k2: u64, k3: u64) -> ahash::RandomState {
    ahash::RandomState::with_seeds(k0, k1, k2, k3)
}

/// `hashbrown`'s `HashMap::with_hasher`: an empty table that hashes with
/// `hasher`.
#[verifier::external_body]
fn table_with_hasher(hasher: ahash::RandomState) -> (r: BlockTable)
    ensures
        block_table(r).dom() == Set::<usize>::empty(),
{
    BlockTable { table: hashbrown::HashMap::with_hasher(hasher) }
}

/// `hashbrown`'s `HashMap::insert`: `k` maps to `v` afterwards; the value
/// `k` mapped to before, if it was present.
#[verifier::external_body]
fn table_insert(m: &mut BlockTable, k: usize, v: usize) -> (r: Option<usize>)
    ensures
        block_table(*final(m)) == block_table(*old(m)).insert(k, v),
        r == (if block_table(*old(m)).contains_key(k) {
            Some(block_table(*old(m))[k])
        } else {
            None::<usize>
        }),
{
    m.table.insert(k, v)
}

/// `hashbrown`'s `HashMap::get`, the value copied out: what `k` maps to,
/// if it is present.
#[verifier::external_body]
fn table_get(m: &BlockTable, k: usize) -> (r: Option<usize>)
    ensures
        r == (if block_table(*m).contains_key(k) {
            Some(block_table(*m)[k])
        } else {
            None::<usize>
        }),
{
    m.table.get(&k).copied()
}

/// `hashbrown`'s `HashMap::remove`: `k` is absent afterwards; the value it
/// mapped to, if it was present.
#[verifier::external_body]
fn table_remove(m: &mut BlockTable, k: usize) -> (r: Option<usize>)
    ensures
        block_table(*final(m)) == block_table(*old(m)).remove(k),
        r == (if block_table(*old(m)).contains_key(k) {
            Some(block_table(*old(m))[k])
        } else {
            None::<usize>
        }),
{
    m.table.remove(&k)
}

/// Blocks that are mappings of their own, recorded with their sizes in a
/// table. The caller maps and unmaps the pages.
pub struct MmapHeap {
    my_map: BlockTable,
}

impl MmapHeap {
    /// Each recorded block's address, with its size.
    pub closed spec fn blocks(&self) -> Map<usize, usize> {
        block_table(self.my_map)
    }

    /// No block recorded; the table hashes with fixed keys.
    pub fn new() -> (r: Self)
        ensures
            r.blocks() == Map::<usize, usize>::empty(),
    {
        Self::with_seeds(0, 0, 0, 0)
    }

    /// No block recorded; the table hashes with keys made from the seeds
    /// the caller drew.
    pub fn with_seeds(k0: u64, k1: u64, k2: u64, k3: u64) -> (r: Self)
        ensures
            r.blocks() == Map::<usize, usize>::empty(),
    {
        let r = MmapHeap { my_map: table_with_hasher(state_with_seeds(k0, k1, k2, k3)) };
        assert(r.blocks() =~= Map::<usize, usize>::empty());
        r
    }

    /// Record the block of `sz` bytes that the caller mapped at the aligned
    /// address `ptr`, and hand it out.
    pub fn malloc(&mut self, ptr: usize, sz: usize) -> (r: usize)
        requires
            ptr % SizedMmapHeap::ALIGNMENT == 0,
        ensures
            r == ptr,
            final(self).blocks() == old(self).blocks().insert(ptr, sz),
    {
        let _ = table_insert(&mut self.my_map, ptr, sz);
        ptr
    }

    /// The size recorded for the block at `ptr`; 0 for an address with
    /// none.
    pub fn get_size(&self, ptr: usize) -> (r: usize)
        ensures
            r == (if self.blocks().contains_key(ptr) {
                self.blocks()[ptr]
            } else {
                0
            }),
    {
        match table_get(&self.my_map, ptr) {
            Some(sz) => sz,
            None => 0,
        }
    }

    /// Forget the block at the aligned address `ptr`: its size, which the
    /// caller unmaps; none for an address with no block.
    pub fn free(&mut self, ptr: usize) -> (r: Option<usize>)
        requires
            ptr % SizedMmapHeap::ALIGNMENT == 0,
        ensures
            r == (if old(self).blocks().contains_key(ptr) {
                Some(old(self).blocks()[ptr])
            } else {
                None::<usize>
            }),
            final(self).blocks() == old(self).blocks().remove(ptr),
    {
        table_remove(&mut self.my_map, ptr)
    }
}

} // verus!
