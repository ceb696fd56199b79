[package]
name = "py_launcher"
version = "0.1.0"
edition = "2021"
publish = false

[dependencies]
ctrlc = "3"
itertools = "*"
regex = "1"
