[package]
name = "cfx_minimal_execution"
version = "0.1.0"
edition = "2021"
publish = false

[dependencies]
anyhow = "1"
bcs = "0.1"
bincode = "1"
clap = { version = "4", features = ["derive"] }
crossbeam-channel = "0.5"
heed = "0.20"
rayon = "1"
rlp = "0.5"
rustc-hash = "2"
serde = { version = "1", features = ["derive"] }
snap = "1"
tempfile = "3"
tiny-keccak = { version = "2", features = ["keccak"] }
toml = "0.8"
