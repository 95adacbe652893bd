[package]
name = "portez"
version = "0.1.0"
edition = "2021"
publish = false

[dependencies]
toml_edit = "=0.25.17"
serde = { version = "=1.0.229", features = ["derive"] }
serde_json = "=1.0.154"
thiserror = "=2.0.21"
usage-lib = "*"
