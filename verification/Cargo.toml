[package]
name = "bustubx"
version = "0.1.0"
edition = "2021"
publish = false

[dependencies]
dashmap = "5.5.3"
