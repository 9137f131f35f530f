[package]
name = "vaultiel"
version = "0.1.0"
edition = "2021"
publish = false

[dependencies]
unicode-normalization = "=0.1.26"
regex = "=1.13.1"
regex-syntax = "=0.8.11"
serde = { version = "=1.0.229", features = ["derive"] }
serde_json = "=1.0.154"
serde_yaml = "=0.9.34"
chrono = "=0.4.45"
clap = { version = "=4.6.7", features = ["derive"] }
glob = "=0.3.4"
uuid = { version = "=1.29.0", features = ["v4"] }
thiserror = "=1.0.69"
urlencoding = "=2.1.3"
