[package]
name = "bloom_search"
version = "0.1.0"
edition = "2021"
publish = false

[dependencies]
base64 = "0.22"
bloomfilter = "3"
tantivy = "0.25"
serde = { version = "1", features = ["derive"] }
serde_json = "1"
anyhow = "1"
async-trait = "0.1"
tokio = { version = "1", features = ["sync", "time", "rt", "macros"] }
tracing = "0.1"
