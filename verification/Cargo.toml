[package]
name = "key_backups"
version = "0.1.0"
edition = "2021"
publish = false

[dependencies]
sled = "=0.34.7"
serde_json = "1"
ruma = "=0.4.0"
