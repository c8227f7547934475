[package]
name = "phantasy"
version = "0.1.0"
edition = "2021"
publish = false

[dependencies]
base64 = "0.22"
color-eyre = "0.6"
dotenvy = "0.15"
eyre = "0.6"
http = "1"
lewton = "0.10"
open = "5"
rand = "0.9"
reqwest = { version = "0.12", default-features = false, features = ["json", "rustls-tls"] }
rustfft = "6"
serde = { version = "1", features = ["derive"] }
serde_json = "1"
sha2 = "0.10"
tokio = { version = "1", features = ["full"] }
tracing = "0.1"
tracing-subscriber = { version = "0.3", features = ["env-filter"] }
url = "2"
