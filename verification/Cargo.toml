[package]
name = "logwatch"
version = "0.19.0"
edition = "2021"
publish = false

[dependencies]
regex = "1"
colored = "2"
nix = { version = "0.29", features = ["fs"] }
