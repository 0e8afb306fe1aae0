[package]
name = "geektime_rust"
version = "0.1.0"
edition = "2021"
publish = false

[dependencies]
anyhow = "1"
askama = "0.12"
blake3 = "1"
bytes = "1"
clap = { version = "4", features = ["derive"] }
colored = "2"
dashmap = "5"
html2md = "0.2"
prost = "0.12"
rayon = "1"
regex = "1"
reqwest = { version = "0.11", default-features = false, features = ["blocking"] }
rocksdb = { version = "*", default-features = false }
serde = { version = "1", features = ["derive"] }
serde_json = "1"
sled = "0.34"
syn = { version = "2", features = ["full"] }
thiserror = "1"
tokio = { version = "1", features = ["sync", "rt", "rt-multi-thread", "macros", "time"] }
