[package]
name = "kzg_solvency"
version = "0.1.0"
edition = "2021"
publish = false

[dependencies]
ark-bn254 = "*"
ark-ec = "*"
ark-ff = "*"
ark-serialize = "*"
keccak-hash = "*"
rand = "0.8"
serde = { version = "1", features = ["derive"] }
serde_json = "1"
tokio = { version = "1", features = ["macros", "rt-multi-thread"] }
web3 = "*"
