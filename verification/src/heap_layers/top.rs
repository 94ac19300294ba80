//! Heap layers at the top of a stack, that take memory from the system.
pub mod mmap_heap;
