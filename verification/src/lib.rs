//! Mesh: a compacting memory allocator built from heap layers.
//!
//! The verified library holds the bookkeeping of the allocator: bitmaps of
//! object slots, size-class arithmetic, miniheap flags, shuffle vectors,
//! spans, free lists and the heap layers that sit on top of a source of
//! memory. Mapping pages from the operating system is left to the caller.
use vstd::prelude::*;

pub mod allocator;
pub mod bitmap;
pub mod cheap_heap;
pub mod common;
pub mod global_heap;
pub mod heap_layers;
pub mod heap_entry;
pub mod internal;
pub mod mini_heap;
pub mod mmap_heap;
pub mod one_way_mmap_heap;
pub mod shuffle_vec;
pub mod slab;

pub use allocator::MeshAllocator;
pub use common::PAGE_SIZE;
