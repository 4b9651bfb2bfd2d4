[package]
name = "ouisync_network"
version = "0.1.0"
edition = "2021"
publish = false

[dependencies]
rand = "=0.8.8"
xxhash-rust = { version = "=0.8.19", features = ["xxh3"] }
vint64 = "=1.0.1"
hex = "=0.4.3"
serde = { version = "=1.0.229", features = ["derive"] }
bincode = "=1.3.3"
tokio = { version = "=1.54.1", features = ["io-util", "net", "rt", "sync", "time", "macros"] }
ed25519-dalek = { version = "2", features = ["rand_core"] }
backoff = "0.4"
