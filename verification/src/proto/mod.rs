//! Perfetto wire encoding: the protobuf wire format, the writer and the reader
//! over it, and the messages this tool puts on the wire.

pub mod config_abi;
pub mod packets;
pub mod reader;
pub mod sched_protos;
pub mod session_config;
pub mod sismo_config;
pub mod wire;
pub mod writer;
