//! Heap profiling.

pub mod book;
pub mod heap_ring;
pub mod macos_heap_capture;
pub mod profile;
