[package]
name = "community_coin"
version = "0.1.0"
edition = "2021"
publish = false

[dependencies]
sled = "0.34"
sha2 = "0.10"
ed25519-dalek = "2"
signature = "2"
base64 = "0.13"
serde = { version = "1", features = ["derive"] }
serde_json = "1"
axum = "0.7"
tokio = { version = "1", features = ["rt-multi-thread", "macros", "net"] }
dashmap = "6"
clap = { version = "4", features = ["derive"] }
