[package]
name = "dissonance"
version = "0.1.0"
edition = "2021"
publish = false

[dependencies]
dirs = "*"
ed25519-dalek = "*"
futures = "*"
libp2p = { version = "*", default-features = false, features = ["ed25519", "identify", "kad", "macros", "mdns", "noise", "tcp", "tokio", "yamux"] }
rand = "*"
tokio = { version = "*", features = ["macros", "rt-multi-thread"] }

[dev-dependencies]
serde_json = "*"
