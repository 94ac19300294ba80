//! Heap layers that add a policy on top of a source of memory.
pub mod free_list_heap;
