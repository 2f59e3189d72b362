[package]
name = "ysh"
version = "0.1.0"
edition = "2021"
publish = false

[dependencies]
nix = { version = "*", features = ["process", "fs"] }
pipe = "*"

[dev-dependencies]
rand = "0.8"
