[package]
name = "veilid_core"
version = "0.1.0"
edition = "2021"
publish = false

[dependencies]
blake3 = "1"
data-encoding = "2"
digest = "0.9"
ed25519-dalek = "1.0.1"
generic-array = "0.14"
typenum = "1"
hashlink = "0.8"
hex = "0.4"
rand = "0.7"
range-set-blaze = "0.1"
serde = { version = "1", features = ["derive"] }
serde_json = "1"
