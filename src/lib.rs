//! A buddy allocator over a fixed heap of `M` bytes with zero-order blocks of
//! `B` bytes, verified against a mathematical model of its block tree.

pub mod alloc_table;
pub mod buddy_allocator;
pub mod errors;
pub mod node_pool;
pub mod shape;

pub use buddy_allocator::BuddyAllocator;
pub use errors::{AllocError, FreeError};
