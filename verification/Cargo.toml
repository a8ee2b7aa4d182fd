[package]
name = "ferrite"
version = "0.1.0"
edition = "2021"
publish = false

[dependencies]
anyhow = "1"
bincode = "1"
clap = { version = "4", features = ["derive"] }
crc32c = "0.6"
rand = "0.8"
rand_chacha = "0.3"
serde = { version = "1", features = ["derive"] }
thiserror = "1"
toml = "0.8"
tonic = "0.12"
tracing = "0.1"
