[package]
name = "lexvm"
version = "0.1.0"
edition = "2021"
publish = false

[dependencies]
bit-set = "*"
