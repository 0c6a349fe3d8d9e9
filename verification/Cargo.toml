[package]
name = "qaul_ble"
version = "0.1.0"
edition = "2021"
publish = false

[dependencies]
bs58 = "*"
base64 = "*"
libp2p = { version = "*", default-features = false, features = ["ed25519"] }

[dev-dependencies]
hex = "*"
serde_json = "*"
