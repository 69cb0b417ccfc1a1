[package]
name = "wallet"
version = "0.1.0"
edition = "2021"
publish = false

[dependencies]
itertools = "0.14"
num-traits = "0.2"
thiserror = "2"
log = "0.4"
rusqlite = "0.32"
r2d2 = "0.8"
r2d2_sqlite = "0.25"
tonic = "*"
tonic-tls = { version = "*", features = ["openssl"] }
openssl = "0.10"
openssl-sys = "0.9"
