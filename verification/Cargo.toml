[package]
name = "btsh"
version = "0.1.0"
edition = "2021"
publish = false

[dependencies]
glob = "0.3"
libc = "0.2"
unicode-width = "0.2"
