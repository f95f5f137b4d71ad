[package]
name = "zebin"
version = "0.1.0"
edition = "2021"
publish = false

[dependencies]
memmap2 = "=0.9.12"
syn = { version = "2", features = ["full"] }
