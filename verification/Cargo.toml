[package]
name = "safe_ex"
version = "0.1.0"
edition = "2021"
publish = false

[dependencies]
stable-vec = "*"
wide = "*"
criterion = "*"
fastrand = "*"
