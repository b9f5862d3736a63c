[package]
name = "gix_core"
version = "0.1.0"
edition = "2021"
publish = false

[dependencies]
anyhow = "*"
blake3 = "*"
clap = { version = "*", features = ["derive"] }
colored = "*"
dirs = "*"
hex = "*"
pqcrypto-dilithium = "*"
pqcrypto-kyber = "*"
pqcrypto-traits = "*"
rand = "*"
serde = { version = "*", features = ["derive"] }
serde_json = "*"
serde_yaml = "*"
sled = "*"
thiserror = "*"
vdf = "*"
