[package]
name = "mini_lsm"
version = "0.1.0"
edition = "2021"
publish = false

[dependencies]
anyhow = "1"
bytes = "1"
crc32fast = "1.3.2"
crossbeam-skiplist = "0.1"
parking_lot = "0.12"
