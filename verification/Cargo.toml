[package]
name = "config"
version = "0.1.0"
edition = "2021"
publish = false

[dependencies]
serde = "1"
toml = "0.8"
yaml-rust = "0.4"
