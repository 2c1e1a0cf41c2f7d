[package]
name = "rp"
version = "0.1.0"
edition = "2021"
publish = false

[dependencies]
bit-vec = "=0.6.3"
clap = "2"
