[package]
name = "rubato"
version = "0.1.0"
edition = "2021"
publish = false

[dependencies]
sha2 = "0.10"
num-modular = "0.6"
pqcrypto-dilithium = "0.5"
pqcrypto-traits = "0.3"
rs_merkle = "1.4"
rand = "0.8"
curve25519-dalek = { version = "4", features = ["rand_core", "serde"] }
nalgebra = "0.33"
serde = { version = "1", features = ["derive"] }
serde_json = "1"
bincode = "1.3"
base64 = "0.13"
hex = "0.4"
tokio = { version = "1", features = ["full"] }
log = "0.4"
env_logger = "0.10"
anyhow = "1"
thiserror = "1"
clap = "2.34"
bytes = "1"
futures = "0.3"
tokio-util = { version = "0.7", features = ["codec"] }
flate2 = "1"
async-trait = "0.1"
num-bigint = { version = "0.4", features = ["rand"] }
num-prime = "0.4"
num-traits = "0.2"
rayon = "1"
