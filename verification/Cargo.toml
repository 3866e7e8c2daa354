[package]
name = "dns-rs"
version = "0.1.0"
edition = "2021"
publish = false

[dependencies]
anyhow = "=1.0.104"
arc-swap = "=1.9.3"
axum = "=0.8.9"
axum-server = { version = "=0.8.0", default-features = false, features = ["tls-rustls-no-provider"] }
base64 = "=0.22.1"
bytes = "=1.12.1"
clap = { version = "=4.6.7", features = ["derive"] }
futures-util = "=0.3.34"
hickory-proto = "=0.26.3"
rand = "=0.9.5"
reqwest = { version = "=0.12.28", default-features = false, features = ["http2", "rustls-tls-webpki-roots"] }
rustc-hash = "=2.1.3"
rustls = { version = "=0.23.46", default-features = false, features = ["ring", "std", "tls12"] }
rustls-pemfile = "=2.2.0"
rustls-pki-types = "=1.15.1"
serde = { version = "=1.0.229", features = ["derive"] }
tokio = { version = "=1.54.1", features = ["full"] }
tokio-rustls = { version = "=0.26.6", default-features = false, features = ["ring", "tls12"] }
tokio-util = "=0.7.20"
toml = "=1.1.8"
tracing = "=0.1.44"
tracing-subscriber = { version = "=0.3.23", features = ["env-filter"] }
webpki-roots = "=1.0.10"

[dev-dependencies]
rcgen = { version = "=0.14.10", default-features = false, features = ["crypto", "pem", "ring"] }
