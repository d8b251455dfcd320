[package]
name = "symbol_prefix"
version = "0.1.0"
edition = "2021"
publish = false

[dependencies]
bindgen = "*"
