[package]
name = "githubdns"
version = "0.1.0"
edition = "2021"
publish = false

[dependencies]
clap = "2"
futures = "0.3"
native-tls = "0.2"
scraper = "*"
sys-info = "0.9"
tokio = { version = "0.2", features = ["full"] }
tokio-tls = "0.3"
