[package]
name = "triblenka"
version = "0.1.0"
edition = "2021"
publish = false

[dependencies]
blake3 = "*"
comrak = { version = "*", default-features = false }
redb = "*"
serde = { version = "*", features = ["derive"] }
serde_json = "*"
serde_yaml_ng = "*"
thiserror = "*"
walkdir = "*"
