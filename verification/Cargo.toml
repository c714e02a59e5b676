[package]
name = "tot"
version = "0.1.0"
edition = "2021"
publish = false

[dependencies]
argh = "*"
itertools = "*"
thiserror = "*"
