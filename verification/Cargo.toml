[package]
name = "iroh_sdht"
version = "0.1.0"
edition = "2021"
publish = false

[dependencies]
anyhow = "1"
async-trait = "0.1"
hex = "0.4"
iroh = { version = "1", default-features = false }
iroh-blake3 = "1.4"
irpc = { version = "0.17", default-features = false, features = ["derive", "rpc"] }
irpc-iroh = "0.17"
lru = "0.12"
serde = { version = "1", features = ["derive"] }
serde_json = "1"
tokio = { version = "1", features = ["io-util", "macros", "rt-multi-thread", "sync", "time"] }
tracing = "0.1"
