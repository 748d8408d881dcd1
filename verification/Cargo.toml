[package]
name = "twizzler_queue_raw"
version = "0.1.0"
edition = "2021"
publish = false

[dependencies]
bitflags = "1.3"
