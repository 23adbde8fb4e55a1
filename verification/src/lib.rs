//! Heap allocation strategies for a small kernel, with machine-checked contracts.
//!
//! Four strategies manage a contiguous heap: a bump allocator, a first-fit
//! allocator over an address-ordered list of free regions, segregated free lists of
//! fixed-size blocks, and a binary buddy allocator. Those that take blocks back one
//! by one keep their free memory in linked structures whose links are stored in the
//! free memory itself; the heap is an arena of words that is reached by address,
//! and every access is checked against its bounds.
//!
//! Every operation takes its allocator by exclusive reference and runs to its end.
//! Sharing an allocator between contexts is the business of a lock around it.

pub mod allocator;
pub mod mem;
