[package]
name = "sismo"
version = "0.1.0"
edition = "2021"
publish = false

[dependencies]
libc = "=0.2.191"
lightswitch-unwind-info = "=0.1.0"
object = "=0.40.0"
perf-event-open-sys = "=7.1.0"
tracing = "=0.1.44"
clap = { version = "=4.6.7", features = ["derive"] }
