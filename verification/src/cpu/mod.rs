//! CPU profiling.

pub mod bpf_records;
pub mod callstack;
pub mod capture_setup;
pub mod counters;
pub mod interner;
pub mod jit_map;
pub mod linux_bpf_capture;
pub mod lpm;
pub mod mach_sampler;
pub mod macos_cpu_capture;
pub mod module_registry;
pub mod python_runtime;
pub mod told;
pub mod unwind_tables;
