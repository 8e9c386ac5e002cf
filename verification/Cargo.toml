[package]
name = "ragstore"
version = "0.1.0"
edition = "2021"
publish = false

[dependencies]
anyhow = "=1.0.104"
clap = { version = "=4.6.7", features = ["derive"] }
fastembed = { version = "=3.14.1", default-features = false, features = ["ort-load-dynamic", "online"] }
ort-sys = { version = "=2.0.0-rc.4", default-features = false }
