[package]
name = "mont384"
version = "0.1.0"
edition = "2021"
publish = false

[dependencies]
num-bigint = "*"
num-traits = "*"

[dev-dependencies]
rand = "*"
