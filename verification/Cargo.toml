[package]
name = "mcpctl"
version = "0.1.0"
edition = "2021"
publish = false

[dependencies]
anyhow = "1"
jsonc-parser = { version = "*", features = ["serde"] }
serde_json = { version = "1", features = ["preserve_order"] }
toml = "*"
yaml_serde = "*"
