[package]
name = "jadata"
version = "0.1.0"
edition = "2021"
publish = false

[dependencies]
clap = { version = "4", features = ["derive"] }
eyre = "0.6"
postcard = { version = "1", features = ["use-std"] }
serde = { version = "1", features = ["derive"] }
serde_json = "1"
serde-xml-rs = "*"
tracing = "0.1"
tracing-subscriber = "0.3"
wana_kana = "*"
