[package]
name = "forgelsp"
version = "0.1.0"
edition = "2021"
publish = false

[dependencies]
regex = "1.12.2"
base64 = "0.22.1"
smallvec = "1.15.1"
serde = { version = "1", features = ["derive"] }
serde_json = "1"
anyhow = "1"
futures = "0.3.31"
tokio = { version = "1", features = ["io-std", "macros", "rt-multi-thread"] }
tower-lsp = "0.20.0"
reqwest = { version = "0.12", default-features = false, features = ["rustls-tls"] }
