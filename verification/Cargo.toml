[package]
name = "minichain"
version = "0.1.0"
edition = "2021"
publish = false

[dependencies]
secp256k1 = { version = "=0.31.1", features = ["rand", "hashes", "std"] }
cita_trie = "=5.0.1"
hasher = { version = "=0.1.4", features = ["hash-keccak"] }
sled = "=0.34.7"
chrono = "=0.4.45"
hex = "=0.4.3"
tokio = { version = "=1.53.2", features = ["rt-multi-thread", "macros", "time"] }
qp2p = "=0.36.4"
bytes = "=1.12.1"

[dev-dependencies]
