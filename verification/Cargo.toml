[package]
name = "duma"
version = "0.1.0"
edition = "2021"
publish = false

[dependencies]
anyhow = "=1.0.104"
clap = "=2.34.0"
ftp = "=3.0.1"
indicatif = "0.17"
log = "=0.4.35"
reqwest = { version = "=0.11.27", default-features = false, features = ["rustls-tls"] }
simple_logger = "=1.16.0"
tokio = { version = "=1.54.1", features = ["full"] }
url = "=2.5.8"
