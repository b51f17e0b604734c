[package]
name = "twitchdl"
version = "0.1.0"
edition = "2021"
publish = false

[dependencies]
url = "1.7"
serde_json = "1"
m3u8-rs = "1"
chrono = "0.4"
rand = "0.6"
getopts = "0.2"
indicatif = "0.11"
hyper = "0.12"
hyper-tls = "0.3"
tokio = "0.1"
futures = "0.1"
tokio-core = "0.1"
tokio-curl = "0.1"
curl = "0.4"
error-chain = "0.12"
