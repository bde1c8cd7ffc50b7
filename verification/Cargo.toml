[package]
name = "cargo_crev"
version = "0.1.0"
edition = "2021"
publish = false

[dependencies]
crev-lib = "=0.21.1"
structopt = "0.2"
