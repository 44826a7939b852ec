[package]
name = "numbat"
version = "0.1.0"
edition = "2021"
publish = false

[dependencies]
itertools = "0.10"
num-integer = "0.1"
num-rational = "0.4"
num-traits = "0.2"
thiserror = "1"
