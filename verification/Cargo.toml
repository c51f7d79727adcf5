[package]
name = "savescummer_catalog"
version = "0.1.0"
edition = "2021"
publish = false

[dependencies]
sha2 = "=0.10.9"
serde = { version = "=1.0.229", features = ["derive"] }
serde_json = "=1.0.154"
serde_yaml = "=0.9.34"
csv = "=1.4.0"
clap = { version = "4", features = ["derive"] }
anyhow = "1"
