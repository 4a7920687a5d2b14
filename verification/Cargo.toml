[package]
name = "galvanize"
version = "0.1.0"
edition = "2021"
publish = false

[dependencies]
docopt = "*"
rustc-serialize = "*"
