[package]
name = "compactor"
version = "0.1.0"
edition = "2021"
publish = false

[dependencies]
crc32c = "=0.6.9"
lz4_flex = "=0.11.6"
rand = "=0.8.8"
snap = "=1.1.2"
tokio = { version = "=1.54.1", features = ["rt", "rt-multi-thread"] }
xxhash-rust = { version = "=0.8.19", features = ["xxh32", "xxh64", "xxh3"] }
zstd = "=0.13.4"
