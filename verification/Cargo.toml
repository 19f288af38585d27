[package]
name = "nvim_bot"
version = "0.1.0"
edition = "2021"
publish = false

[dependencies]
anyhow = "1"
matrix-sdk = { version = "0.6.2", default-features = false, features = ["rustls-tls"] }
tokio = { version = "1", features = ["fs", "macros", "rt-multi-thread"] }
