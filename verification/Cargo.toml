[package]
name = "cas"
version = "0.1.0"
edition = "2021"
publish = false

[dependencies]
blake3 = "1"
bytes = "1"
tempfile = "3"
thiserror = "2"
tracing = "0.1"
