[package]
name = "sparser"
version = "0.1.0"
edition = "2021"
publish = false

[dependencies]
libc = "*"
time = "*"
