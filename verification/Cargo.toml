[package]
name = "zcash_vote_engine"
version = "0.1.0"
edition = "2021"
publish = false

[dependencies]
anyhow = "1"
bip0039 = "*"
hex = "0.4"
incrementalmerkletree = "*"
orchard = "*"
pasta_curves = "*"
r2d2 = "*"
r2d2_sqlite = "*"
rand = "0.9"
reqwest = { version = "0.12", default-features = false, features = ["json"] }
rusqlite = "*"
serde = { version = "1", features = ["derive"] }
serde_json = "1"
tracing = "0.1"
zcash_address = "*"
zeroize = { version = "1", features = ["derive"] }
