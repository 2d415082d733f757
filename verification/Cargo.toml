[package]
name = "rar_os"
version = "0.1.0"
edition = "2021"
publish = false

[dependencies]
sha2 = { version = "0.10", default-features = false }
chacha20poly1305 = { version = "0.10", default-features = false }
