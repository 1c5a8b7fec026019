[package]
name = "strided_array"
version = "0.1.0"
edition = "2021"
publish = false

[dependencies]
num-traits = "0.2"
num-complex = "0.4"
