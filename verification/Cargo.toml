[package]
name = "logcore"
version = "0.1.0"
edition = "2021"
publish = false

[dependencies]
blake3 = "*"
encoding_rs = "*"
memchr = "*"
memmap2 = "*"
regex = "*"
serde = { version = "*", features = ["derive"] }
toml = "*"
libc = "*"
