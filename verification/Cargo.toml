[package]
name = "ores_cli_sidecar_module"
version = "0.1.0"
edition = "2021"
publish = false

[dependencies]
toml = "0.8"
serde_json = "1"
