//! Sismo: the verified core of a desktop tracing and profiling tool.

pub mod assoc;
pub mod bytes;
pub mod cmd_record;
pub mod command;
pub mod cpu;
pub mod crashlog;
pub mod data_regions;
pub mod digits;
pub mod heap;
pub mod heap_preload;
pub mod intern;
pub mod jvmti;
pub mod launcher;
pub mod mach;
pub mod macho;
pub mod proc_info;
pub mod proto;
pub mod sched;
pub mod sismo_paths;
pub mod smaps_macos;
pub mod sorted;
pub mod text;
pub mod worker_sdk;
