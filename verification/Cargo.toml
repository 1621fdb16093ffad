[package]
name = "fmto"
version = "0.1.0"
edition = "2021"
publish = false

[dependencies]
anyhow = "*"
configparser = "*"
quick-xml = { version = "*", features = ["serialize"] }
serde = "*"
serde_json = "*"
serde_yaml = "*"
toml = "*"
