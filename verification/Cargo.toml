[package]
name = "rust_kv_store"
version = "0.1.0"
edition = "2021"

[dependencies]
glob = "0.3"
itertools = "0.10"
queues = "1"
