[package]
name = "simple_reader"
version = "0.1.0"
edition = "2021"
publish = false

[dependencies]
anyhow = "=1.0.104"
base64 = "=0.23.1"
chardetng = "=0.1.17"
chrono = "=0.4.45"
dirs = "=7.0.0"
encoding_rs = "=0.8.42"
epub = "*"
flate2 = "=1.1.10"
log = "=0.4.34"
memmap2 = "=0.9.12"
regex = "=1.13.1"
ropey = "=1.6.1"
serde = { version = "=1.0.229", features = ["derive"] }
serde_json = "=1.0.154"
sha1 = "=0.11.0"
thiserror = "=2.0.21"
zip = { version = "=9.1.0", default-features = false, features = ["deflate"] }
