//! Scheduling: the kernel's trace ring and what is read from it.

pub mod kdebug;
pub mod kperf;
pub mod kperf_offcpu;
pub mod kperf_sample;
pub mod macos_sched_capture;
pub mod perf_emitter;
pub mod proc_info;
pub mod ring;
pub mod ring_host;
pub mod user_stacks;
