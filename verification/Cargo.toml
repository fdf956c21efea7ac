[package]
name = "arthouse"
version = "0.1.0"
edition = "2021"
publish = false

[dependencies]
anyhow = "1"
artnet_protocol = "*"
clap = { version = "4", features = ["derive", "env"] }
dotenvy = "*"
lighthouse-client = "*"
socket2 = { version = "*", features = ["all"] }
tokio = { version = "1", features = ["full"] }
tracing = "0.1"
tracing-subscriber = "0.3"
