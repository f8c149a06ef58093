[package]
name = "holochain_persistence"
version = "0.1.0"
edition = "2021"
publish = false

[dependencies]
chrono = "=0.4.6"
uuid = { version = "=1.29.0", features = ["v4"] }
multihash = "=0.8.0"
rust-base58 = "=0.0.4"
serde_json = "=1.0.99"
rkv = "=0.17.1"
pickledb = "=0.5.1"
glob = "=0.3.4"
tempfile = "=3.27.0"
