[package]
name = "cilantro"
version = "0.1.0"
edition = "2021"
publish = false

[dependencies]
wat = "*"
wasmtime = "12"
wasmtime-wasi = "12"
