[package]
name = "c2rust_build"
version = "0.1.0"
edition = "2021"
publish = false

[dependencies]
clap = { version = "*", features = ["derive"] }
colored = "*"
dialoguer = "*"
serde = { version = "*", features = ["derive"] }
serde_json = "*"
shell-words = "*"
