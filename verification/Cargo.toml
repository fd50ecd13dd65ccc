[package]
name = "queenshead"
version = "0.1.0"
edition = "2021"
publish = false

[dependencies]
anyhow = "1"
askama = "*"
serde = { version = "1", features = ["derive"] }
sha2 = "0.10"
time = { version = "0.3", features = ["parsing"] }
toml = "*"
walkdir = "2"
