[package]
name = "terra"
version = "0.1.0"
edition = "2021"
publish = false

[dependencies]
anyhow = "1"
bit-vec = "0.6"
hex = "0.4"
linked-hash-map = "0.5"
lru-cache = "0.1"
memmap = "0.7"
open-location-code = "*"
petgraph = "0.6"
serde = { version = "1", features = ["derive"] }
serde_json = "1"
sha2 = "0.10"
toml = "0.8"
xdg = "2"
zip = { version = "0.6", default-features = false, features = ["deflate"] }
