[package]
name = "rowd"
version = "0.5.0"
edition = "2021"
publish = false

[dependencies]
anyhow = "=1.0.104"
base64 = "=0.22.1"
clap = { version = "=4.6.7", features = ["derive", "env"] }
crossterm = "=0.28.1"
fs2 = "=0.4.3"
getrandom = "=0.2.17"
hex = "=0.4.3"
hmac = "=0.12.1"
jni = "=0.21.1"
notify = "=8.2.1"
qrcode = "=0.14.1"
ratatui = "=0.29.0"
rcgen = "=0.13.2"
ring = "=0.17.14"
rustls = { version = "=0.23.46", default-features = false, features = ["ring", "std", "tls12", "logging"] }
serde = { version = "=1.0.229", features = ["derive"] }
serde_json = "=1.0.154"
sha2 = "=0.10.9"
tempfile = "=3.27.0"
