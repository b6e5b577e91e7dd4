[package]
name = "omendb_hnsw"
version = "0.1.0"
edition = "2021"
publish = false

[dependencies]
anyhow = "1"
memmap2 = "*"
ordered-float = { version = "*", features = ["serde"] }
parking_lot = "*"
postcard = { version = "1", features = ["use-std"] }
rand = "0.8"
rayon = "1"
rustc-hash = "2"
serde = { version = "1", features = ["derive"] }
serde_json = "1"
thiserror = "1"
tracing = "0.1"
