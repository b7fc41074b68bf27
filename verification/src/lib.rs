//! Memory management for a minimal freestanding kernel, modelled over plain
//! values: a physical frame allocator driven by the boot memory map, a
//! four-level page-table walker and mapper, a heap-region initializer, and
//! three heap allocation strategies (bump, linked-list free list, and
//! size-classed blocks with a linked-list fallback) behind an exclusion
//! wrapper.
//!
//! The allocators do their bookkeeping over explicit addresses and sizes
//! rather than raw pointers: the free-list headers that a bare-metal build
//! stores inside the free memory itself are held here as explicit
//! (address, size) records, so that every carve and every reuse is a
//! statement about integer ranges that the verifier can check.

pub mod allocator;
pub mod memory;
