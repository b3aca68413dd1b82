[package]
name = "hyphae"
version = "0.1.0"
edition = "2021"
publish = false

[dependencies]
blake3 = { version = "1", features = ["pure"] }
crc32c = "0.6"
unicode-normalization = "0.1"
unicode-casefold = "0.2"
libm = "0.2"
serde = { version = "1", features = ["derive"] }
serde_json = "1"
