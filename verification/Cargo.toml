[package]
name = "bbx"
version = "0.8.1"
edition = "2021"
publish = false

[dependencies]
blake3 = "1"
chacha20poly1305 = "0.10"
getrandom = "0.2"
libc = "0.2"
