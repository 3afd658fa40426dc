[package]
name = "creskydns"
version = "0.1.0"
edition = "2021"
publish = false

[dependencies]
hickory-proto = "0.24"
base64 = "0.21"
anyhow = "1"
serde = { version = "1", features = ["derive"] }
serde_json = "1"
serde_yaml = "0.9"
indexmap = { version = "2", features = ["serde"] }
tokio = { version = "1", features = ["rt-multi-thread", "net", "io-util", "time", "macros", "sync"] }
futures = "0.3"
rand = "0.8"
reqwest = { version = "0.11", default-features = false, features = ["rustls-tls"] }
rustls = "0.21"
tokio-rustls = "0.24"
tokio-socks = "0.5"
quinn = "0.10"
webpki-roots = "0.25"
chrono = "0.4"
tracing = "0.1"
tracing-subscriber = "0.3"
