[package]
name = "chainfold"
version = "0.1.0"
edition = "2021"
publish = false

[dependencies]
aes = "*"
ark-bn254 = "0.5"
ark-ff = "0.5"
crc-fast = "*"
k256 = "*"
light-poseidon = "0.4"
rand = "*"
rand_core = "*"
rayon = "*"
serde = { version = "1", features = ["derive"] }
sha3 = "0.11"
tokio = { version = "1", features = ["sync", "rt", "time"] }
wincode = "*"
x25519-dalek = { version = "*", features = ["static_secrets"] }
zeroize = "1"

[dev-dependencies]
ark-bls12-381 = "0.5"
ark-serialize = "0.5"
rand_chacha = "*"
serde_json = "1"
tempfile = "3"
