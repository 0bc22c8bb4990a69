[package]
name = "denver"
version = "0.1.0"
edition = "2021"
publish = false

[dependencies]
clap = "*"
ctrlc = "*"
nix = { version = "*", features = ["signal", "process"] }
subprocess = "*"
