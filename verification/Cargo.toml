[package]
name = "lsm_tree"
version = "0.1.0"
edition = "2021"
publish = false

[dependencies]
bytes = "1"
crc32fast = "1"
crossbeam-skiplist = "0.1"
parking_lot = "0.12"
thiserror = "1"
