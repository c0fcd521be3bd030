[package]
name = "rust_tools"
version = "0.1.0"
edition = "2021"
publish = false

[dependencies]
rustc-hash = "*"
base64 = "*"
clap = { version = "*", features = ["derive"] }
colored = "*"
arboard = "*"
image = "*"
