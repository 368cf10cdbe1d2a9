[package]
name = "easytier"
version = "0.1.0"
edition = "2021"
publish = false

[dependencies]
arc-swap = "1.7"
async-trait = "0.1"
dashmap = "6"
futures = "0.3"
nix = { version = "0.29", default-features = false }
rand = "0.8"
socket2 = "0.5"
tokio = { version = "1", features = ["net", "rt", "sync", "time", "macros", "io-util"] }
tracing = "0.1"
url = "2"
uuid = "1"
