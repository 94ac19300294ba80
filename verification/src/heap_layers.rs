//! Heap layers: allocators built by stacking small layers, each adding one
//! policy (a free list, bump allocation, exclusive access) on top of a
//! source of raw memory.
pub mod building_blocks;
pub mod special;
pub mod stl;
pub mod threads;
pub mod top;
pub mod utilities;
pub mod wrappers;
