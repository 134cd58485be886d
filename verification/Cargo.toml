[package]
name = "leaderboard"
version = "0.1.0"
edition = "2021"
publish = false

[dependencies]
bincode = "2"
fs2 = "0.4"
memmap2 = "0.9"
rand = "0.9"
rocket = "0.5"
serde = { version = "1", features = ["derive"] }
serde_json = "1"
