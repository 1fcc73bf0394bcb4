[package]
name = "ia2"
version = "0.1.0"
edition = "2021"
publish = false

[dependencies]
nonoverlapping_interval_tree = "*"
libc = "0.2"
