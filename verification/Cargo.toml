[package]
name = "dkim-lite"
version = "0.2.0"
edition = "2021"
publish = false

[dependencies]
libc = "0.2"
openssl = "0.10"
