//! Utility structures of the heap layers.
pub mod free_sl_list;
