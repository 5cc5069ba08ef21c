[package]
name = "zzping"
version = "0.1.0"
edition = "2021"
publish = false

[dependencies]
chrono = "=0.4.45"
rand = "=0.8.8"
pnet = "=0.35.0"
ron = "=0.12.2"
serde = { version = "=1.0.229", features = ["derive"] }
bit-vec = "=0.8.0"
huffman-compress = "=0.7.0"

[dev-dependencies]
rmp = "=0.8.15"
