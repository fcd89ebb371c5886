[package]
name = "rust_2048"
version = "0.1.0"
edition = "2021"
publish = false

[dependencies]
rand = "0.8"
hex_color = "*"
