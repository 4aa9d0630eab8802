//! Sorting of large slices on several threads.
//!
//! A slice is cut into contiguous windows, each window is sorted by a
//! sequential algorithm on a thread of its own, and the sorted windows are
//! merged pairwise until one ascending run spans the slice. Every function
//! states what it leaves in the slice, and Verus proves that it does.

pub mod merge;
pub mod multi_threading;
pub mod order;
pub mod report;
pub mod sorting;
pub mod windows;

