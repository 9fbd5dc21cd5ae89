[package]
name = "blockchain_core"
version = "0.1.0"
edition = "2021"
publish = false

[dependencies]
sha2 = "0.10"
ed25519-dalek = { version = "2", features = ["serde", "rand_core"] }
rand = "0.8"
serde = { version = "1", features = ["derive"] }
bincode = "1"
thiserror = "1"
hex = "0.4"
tokio = { version = "1", features = ["net", "sync", "io-util", "macros", "rt-multi-thread", "time"] }
