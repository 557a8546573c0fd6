[package]
name = "feed_ingest"
version = "0.1.0"
edition = "2021"
publish = false

[dependencies]
hashbrown = "0.14"
slab = "0.4"
smallvec = "1"
bytes = "1"
crossbeam = "0.8"
crossbeam-channel = "0.5"
url = "2"
anyhow = "1"
log = "0.4"
env_logger = "0.10"
serde = { version = "1", features = ["derive"] }
bincode = "1"
toml = "0.8"
prometheus = "0.13"
tiny_http = "0.12"
tungstenite = "0.20"
socket2 = "0.5"
libc = "0.2"
ctrlc = "3"
core_affinity = "0.8"
chrono = "0.4"
