//! The preload that samples a target's allocations: what it writes, how it is
//! attached to, and what each call of an allocator does.

pub mod protocol;
pub mod shim;
pub mod wire;
