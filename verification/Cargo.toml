[package]
name = "treescout"
version = "0.1.0"
edition = "2021"
publish = false

[dependencies]
serde = { version = "1", features = ["derive"] }
thiserror = "1"
anyhow = "1"
rusqlite = { version = "*", features = ["bundled"] }
memmap2 = "*"
walkdir = "2"
tokio = { version = "1", features = ["fs", "io-util", "rt", "macros"] }
model2vec-rs = "*"
