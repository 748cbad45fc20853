[package]
name = "regular_propagators"
version = "0.1.0"
edition = "2021"
publish = false

[dependencies]
itertools = "*"
enumset = "*"
