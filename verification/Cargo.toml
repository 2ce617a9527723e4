[package]
name = "my_dex"
version = "0.1.0"
edition = "2021"
publish = false

[dependencies]
sha2 = "=0.10.9"
hex = "=0.4.3"
aes-gcm = "=0.9.4"
rand = "=0.8.8"
ed25519-dalek = "=1.0.1"
serde = { version = "=1.0.229", features = ["derive"] }
bincode = "=1.3.3"
toml = "=0.5.11"
snow = "=0.9.3"
sntpc = "0.3"
