[package]
name = "fors"
version = "0.1.0"
edition = "2021"
publish = false

[dependencies]
clap = "2"
nix = { version = "*", features = ["process"] }
term = "*"
