[package]
name = "m3u8_proxy"
version = "0.1.0"
edition = "2021"
publish = false

[dependencies]
base64 = "0.22"
url = "2"
urlencoding = "2"
serde_json = "1"
actix-web = "4"
reqwest = { version = "0.12", default-features = false, features = ["rustls-tls", "stream"] }
tokio = { version = "1", features = ["rt", "macros"] }
futures-util = "0.3"
mini-moka = "0.10"
once_cell = "1"
dotenvy = "0.15"
num_cpus = "1"
