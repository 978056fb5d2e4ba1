[package]
name = "http_util"
version = "0.1.0"
edition = "2021"
publish = false

[dependencies]
bytes = "*"
futures = "*"
nix = { version = "*", features = ["signal"] }
reqwest = { version = "*", default-features = false, features = ["rustls-tls"] }
serde_json = "*"
tokio = { version = "*", features = ["rt", "io-util"] }
url = "*"
