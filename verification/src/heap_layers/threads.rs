//! Heap layers for shared use.
pub mod locked_heap;
