[package]
name = "mini_udp"
version = "0.1.0"
edition = "2021"
publish = false

[dependencies]
crc = "3"
rand = "0.9"
thiserror = "2"
tracing = "0.1"
