[package]
name = "btclib"
version = "0.1.0"
edition = "2021"
publish = false

[dependencies]
anyhow = "1"
bigdecimal = "0.4"
chrono = { version = "0.4", features = ["serde"] }
ciborium = "0.2"
clap = { version = "4", features = ["derive"] }
ecdsa = { version = "0.16", features = ["signing", "verifying", "pem"] }
flume = "0.11"
hex = "0.4"
k256 = { version = "0.13", features = ["ecdsa", "sha256", "pem"] }
rand = "0.8"
serde = { version = "1", features = ["derive"] }
sha256 = { version = "1", default-features = false }
spki = { version = "0.7", features = ["pem"] }
tokio = { version = "1", features = ["rt-multi-thread", "macros", "net", "io-util", "time", "sync"] }
uuid = { version = "1", features = ["v4", "serde"] }
