//! Virtual-memory core of a small kernel: a physical frame allocator and a
//! three-level page table over a simulated physical memory.

pub mod address;
pub mod memory;
pub mod frame_allocator;
pub mod page_table;
pub mod translate;
