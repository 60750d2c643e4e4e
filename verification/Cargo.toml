[package]
name = "darkcore"
version = "0.1.0"
edition = "2021"
publish = false

[dependencies]
regex = "1"
hex = "0.4"
aes = "0.8"
cbc = "0.1"
flate2 = "1"
zip = { version = "*", default-features = false, features = ["deflate"] }
zstd = "*"
lzma-rs = "*"
serde = { version = "1", features = ["derive"] }
serde_json = "1"
glob = "*"
walkdir = "2"
