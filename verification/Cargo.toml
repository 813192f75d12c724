[package]
name = "lkml-reader"
version = "0.1.0"
edition = "2021"
publish = false

[dependencies]
anyhow = "1"
chrono = "0.4"
clap = { version = "4", features = ["derive"] }
crossterm = "0.28"
flate2 = "1"
reqwest = { version = "0.12", default-features = false, features = ["blocking", "gzip", "rustls-tls"] }
