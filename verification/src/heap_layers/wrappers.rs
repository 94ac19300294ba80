//! Thin wrappers over the system's memory mapping.
pub mod mmap;
