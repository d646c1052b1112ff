[package]
name = "blocks"
version = "0.1.0"
edition = "2021"
publish = false

[dependencies]
rayon = "1"
thiserror = "1"
ndarray = "0.15"
ndarray-linalg = "0.16"
rand = "0.8"

[dev-dependencies]
rand_chacha = "0.3"
