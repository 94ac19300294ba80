//! Heap layers for special purposes.
pub mod bump_alloc;
