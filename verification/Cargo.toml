[package]
name = "olap-engine"
version = "0.1.0"
edition = "2021"
publish = false

[dependencies]
crc32fast = "1"
lz4 = "1"
thiserror = "1"
