[package]
name = "wmms"
version = "0.1.0"
edition = "2021"
publish = false

[dependencies]
blake3 = "1"
roaring = "0.10"
rand = "0.8"
rand_chacha = "0.3"
serde = { version = "1", features = ["derive"] }
walkdir = "2"
