[package]
name = "numpar"
version = "0.1.0"
edition = "2021"
publish = false

[dependencies]
rayon = "1"
atomic_float = "*"

[dev-dependencies]
rand = "0.8"
