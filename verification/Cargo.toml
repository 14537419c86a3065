[package]
name = "hash_tree"
version = "0.1.0"
edition = "2021"
publish = false

[dependencies]
rust-crypto = "0.2.36"
hex = "0.4"
base64 = "0.13"
tokio-postgres = "0.7"
rocket = { version = "0.5", features = ["json"] }
dotenvy = "0.15"
once_cell = "1"
serde = { version = "1", features = ["derive"] }
