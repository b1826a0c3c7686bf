[package]
name = "kadchain"
version = "0.1.0"
edition = "2021"
publish = false

[dependencies]
anyhow = "1"
bincode = "1"
ed25519-dalek-fiat = { version = "0.1", features = ["serde"] }
hex = "0.4"
log = "0.4"
moka = { version = "0.12", features = ["future"] }
postcard = { version = "1", features = ["alloc"] }
rand = "0.7"
serde = { version = "1", features = ["derive"] }
serde_derive = "1"
serde_json = "1"
sha1_smol = "1"
sha256 = "1"
thiserror = "1"
time = { version = "0.3", features = ["serde"] }
tokio = { version = "1", features = ["net", "rt", "sync", "time", "macros"] }
