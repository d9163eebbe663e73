[package]
name = "fast_prime"
version = "0.1.0"
edition = "2021"
publish = false

[dependencies]
primal = "*"
rayon = "*"
crossterm = "*"
mimalloc = "*"
