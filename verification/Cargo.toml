[package]
name = "rpack"
version = "0.1.0"
edition = "2021"
publish = false

[dependencies]
blake3 = { version = "1", features = ["pure"] }
lz4_flex = "0.11"
rand = "0.8"
rand_distr = "0.4"
bincode = "1.3"
serde = { version = "1", features = ["derive"] }
serde_json = "1"
