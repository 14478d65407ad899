[package]
name = "torrentty"
version = "0.1.0"
edition = "2021"
publish = false

[dependencies]
anyhow = "=1.0.104"
crossterm = "=0.28.1"
librqbit = { version = "=8.1.1", default-features = false, features = ["rust-tls"] }
ratatui = { version = "=0.29.0", default-features = false, features = ["crossterm"] }
reqwest = { version = "=0.12.28", default-features = false, features = ["socks"] }
serde = { version = "=1.0.229", features = ["derive"] }
serde_json = "=1.0.154"
tokio = { version = "=1.54.1", features = ["full"] }
url = "=2.5.8"
