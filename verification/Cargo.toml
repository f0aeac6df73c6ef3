[package]
name = "hsmtool"
version = "0.1.0"
edition = "2021"
publish = false

[dependencies]
anyhow = "1"
base64ct = { version = "1", features = ["alloc"] }
clap = { version = "4", features = ["derive", "env"] }
cryptoki = "*"
serde = { version = "1", features = ["derive"] }
serde_json = "1"

[dev-dependencies]
aes = "0.8"
hex = "0.4"
