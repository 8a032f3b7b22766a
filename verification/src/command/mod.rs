//! The command line.

pub mod cli;
