[package]
name = "gimbap"
version = "0.1.0"
edition = "2021"
publish = false

[dependencies]
regex = "=1.13.1"
mime = "=0.3.17"
url = "=2.5.8"
percent-encoding = "=2.3.2"
encoding_rs = "=0.8.44"
flate2 = "=1.1.10"
brotli = "=9.1.1"
zstd = "=0.14.3"
serde = { version = "=1.0.229", features = ["derive"] }
serde_json = "=1.0.154"
