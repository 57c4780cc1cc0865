[package]
name = "mini_aurora"
version = "0.1.0"
edition = "2021"
publish = false

[dependencies]
anyhow = "*"
crc32fast = "*"
moka = { version = "*", features = ["sync"] }
serde = { version = "*", features = ["derive"] }
serde_json = "*"
thiserror = "*"
toml = "*"
