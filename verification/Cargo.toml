[package]
name = "monotp"
version = "0.1.0"
edition = "2021"
publish = false

[dependencies]
anyhow = "1"
argon2 = "0.5"
base64 = "0.22"
chacha20poly1305 = "0.10"
data-encoding = "2"
directories = "5"
hmac = "0.12"
sha1 = "0.10"
sha2 = "0.10"
rand = "0.8"
zeroize = "1"
serde = { version = "1", features = ["derive"] }
serde_json = "1"
toml = "0.8"
