[package]
name = "rust_sed"
version = "0.1.0"
edition = "2021"
publish = false

[dependencies]
regex = "=1.13.1"
fancy-regex = "*"
