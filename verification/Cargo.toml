[package]
name = "hitome"
version = "0.1.0"
edition = "2021"
publish = false

[dependencies]
argh = "0.1"
fnv = "1"
libc = "0.2"
nvml-wrapper = "*"
