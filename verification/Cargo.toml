[package]
name = "matmul"
version = "0.1.0"
edition = "2021"
publish = false

[dependencies]
anyhow = "1"
oneshot = "0.1"
