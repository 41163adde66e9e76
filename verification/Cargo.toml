[package]
name = "ironcalc_base"
version = "0.1.0"
edition = "2021"
publish = false

[dependencies]
serde = { version = "1", features = ["derive"] }
serde_json = "1"
bitcode = "0.6"
rand = "0.8"
