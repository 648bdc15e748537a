[package]
name = "alco"
version = "0.1.0"
edition = "2021"
publish = false

[dependencies]
itertools = "*"
rand = "*"
ndarray = "*"
ndarray-linalg = "*"
thiserror = "*"
