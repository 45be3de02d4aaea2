[package]
name = "mysticeti"
version = "0.1.0"
edition = "2021"
publish = false

[dependencies]
anyhow = "1"
bincode = "1"
blake3 = "1"
clap = { version = "4", features = ["derive"] }
ed25519-dalek = "2"
iroh = "*"
parking_lot = "0.12"
serde = { version = "1", features = ["derive"] }
tokio = { version = "1", features = ["sync", "rt-multi-thread", "macros", "net", "io-util", "time", "signal"] }
tracing = "0.1"
tracing-subscriber = "0.3"
