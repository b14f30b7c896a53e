[package]
name = "save_file"
version = "0.1.0"
edition = "2021"
publish = false

[dependencies]
dirs = "*"
rustc-hash = "*"
serde = "*"
serde_json = "*"

[dev-dependencies]
rand = "*"
