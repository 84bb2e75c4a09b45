[package]
name = "waypipe_core"
version = "0.1.0"
edition = "2021"
publish = false

[dependencies]
nix = { version = "0.29", features = ["time", "fs"] }
getrandom = "0.2"
