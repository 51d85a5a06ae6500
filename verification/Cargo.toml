[package]
name = "keepstone"
version = "0.1.0"
edition = "2021"
publish = false

[dependencies]
sha2 = "0.10"
hkdf = "0.12"
chacha20poly1305 = "0.10"
x25519-dalek = { version = "2", features = ["static_secrets"] }
ed25519-dalek = { version = "2", features = ["rand_core"] }
rand = "0.8"
zeroize = "1"
hex = "0.4"
h3o = "0.9"
ml-kem = "0.3"
ml-dsa = "0.1"
anyhow = "1"
clap = { version = "4", features = ["derive"] }
serde_json = "1"
tokio = { version = "1", features = ["full"] }
futures = "0.3"
libp2p = { version = "0.56", features = ["tokio", "tcp", "noise", "yamux", "identify", "request-response", "gossipsub", "kad", "macros"] }
