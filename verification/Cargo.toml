[package]
name = "cbor_diag"
version = "0.1.0"
edition = "2021"
publish = false

[dependencies]
data-encoding = "=2.11.1"
half = "=2.7.1"
chrono = "=0.4.31"
num-bigint = "=0.4.8"
num-rational = "=0.4.2"
num-traits = "=0.2.19"
separator = "=0.4.1"
url = "=2.5.8"
uuid = "=1.29.0"
bs58 = "=0.5.1"
hex = "=0.4.3"
anyhow = "=1.0.104"
clap = { version = "=3.2.25", features = ["derive"] }
strum = { version = "=0.24.1", features = ["derive"] }
