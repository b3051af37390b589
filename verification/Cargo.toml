[package]
name = "homedb"
version = "0.1.0"
edition = "2021"
publish = false

[dependencies]
dashmap = "6"
parking_lot = "0.12"
smallvec = "1"
tracing = "0.1"
