[package]
name = "serbzip"
version = "0.1.0"
edition = "2021"
publish = false

[dependencies]
bincode = "=2.0.1"
clap = { version = "=4.6.7", features = ["derive"] }
home = "=0.5.12"
reqwest = { version = "=0.12.28", default-features = false, features = ["blocking", "rustls-tls"] }
