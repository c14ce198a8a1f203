[package]
name = "chacha_io"
version = "0.1.0"
edition = "2021"
publish = false

[dependencies]
chacha20 = "0.9"
embedded-io = "0.6"
embedded-io-async = "0.6"
