[package]
name = "cell-data-generator"
version = "0.1.0"
edition = "2021"
publish = false

[dependencies]
chrono = "0.4"
ckb-hash = "*"
clap = { version = "4", features = ["derive"] }
faster-hex = "*"
hex = "0.4"
regex = "1"
