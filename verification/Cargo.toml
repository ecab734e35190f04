[package]
name = "tunshell"
version = "0.1.0"
edition = "2021"
publish = false

[dependencies]
anyhow = "=1.0.104"
async-trait = "=0.1.92"
env_logger = "=0.11.11"
futures = "=0.3.34"
libc = "=0.2.191"
log = "=0.4.35"
rustls = { version = "=0.23.46", default-features = false, features = ["ring", "std", "tls12", "logging"] }
socket2 = "=0.5.10"
tokio = { version = "=1.54.1", features = ["full"] }
tokio-rustls = { version = "=0.26.6", default-features = false, features = ["ring", "tls12", "logging"] }
webpki-roots = "=0.26.11"
