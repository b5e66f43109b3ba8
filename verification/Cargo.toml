[package]
name = "fast_floats"
version = "0.1.0"
edition = "2021"

[dependencies]
num-traits = "0.2"
