[package]
name = "semanta"
version = "0.1.0"
edition = "2021"
publish = false

[dependencies]
anyhow = "1"
hnsw_rs = "0.3"
rusqlite = { version = "*", features = ["functions", "loadable_extension"] }
